use chrono::Utc;
use matching_engine::orderbook::OrderBookEngine;
use matching_engine::types::{
    Decimal, Order, OrderSide, OrderStatus, OrderType, PriceLevel, TimeInForce, Timestamp,
    TradingPair,
};
use uuid::Uuid;

fn from_f64(val: f64) -> Decimal {
    Decimal((val * (10f64.powi(Decimal::SCALE as i32))) as u128)
}

fn to_f64(val: Decimal) -> f64 {
    val.0 as f64 / (10f64.powi(Decimal::SCALE as i32))
}

fn now() -> Timestamp {
    let now = Utc::now();
    Timestamp { secs: now.timestamp(), nanos: now.timestamp_subsec_nanos() }
}

fn at(secs: i64) -> Timestamp {
    Timestamp { secs, nanos: 0 }
}

fn btc_usd() -> TradingPair {
    TradingPair { base: "BTC".to_string(), quote: "USD".to_string() }
}

fn create_order(
    id: Uuid,
    pair: TradingPair,
    side: OrderSide,
    price: f64,
    qty: f64,
    account: &str,
) -> Order {
    Order {
        id: id.as_u128(),
        trading_pair: pair,
        side,
        order_type: OrderType::Limit,
        price: from_f64(price),
        quantity: from_f64(qty),
        filled_quantity: Decimal(0),
        status: OrderStatus::New,
        time_in_force: TimeInForce::GTC,
        account_id: account.to_string(),
        created_at: now(),
        updated_at: now(),
        expiration: None,
    }
}

fn order(id: u128, side: OrderSide, price: u128, qty: u128, account: &str, secs: i64) -> Order {
    Order {
        id,
        trading_pair: btc_usd(),
        side,
        order_type: OrderType::Limit,
        price: Decimal(price),
        quantity: Decimal(qty),
        filled_quantity: Decimal(0),
        status: OrderStatus::New,
        time_in_force: TimeInForce::GTC,
        account_id: account.to_string(),
        created_at: at(secs),
        updated_at: at(secs),
        expiration: None,
    }
}

fn level(price: u128, quantity: u128) -> PriceLevel {
    PriceLevel { price: Decimal(price), quantity: Decimal(quantity) }
}

#[test]
fn test_simple_match() {
    let pair = TradingPair { base: "BTC".to_string(), quote: "USD".to_string() };

    let mut engine = OrderBookEngine::new(pair.clone());

    let buy_order =
        create_order(Uuid::new_v4(), pair.clone(), OrderSide::Buy, 100.0, 1.0, "account1");

    let sell_order = create_order(Uuid::new_v4(), pair, OrderSide::Sell, 100.0, 1.0, "account2");

    let _ = engine.add_order(buy_order).unwrap();
    let trades = engine.add_order(sell_order).unwrap();

    assert_eq!(trades.len(), 1);
    assert_eq!(to_f64(trades[0].quantity), 1.0);
}

#[test]
fn equal_orders_fill_each_other() {
    let mut engine = OrderBookEngine::new(btc_usd());
    let rested = engine.add_order(order(1, OrderSide::Buy, 100, 1, "A1", 10)).unwrap();
    assert!(rested.is_empty());
    let trades = engine.add_order(order(2, OrderSide::Sell, 100, 1, "A2", 11)).unwrap();

    assert_eq!(trades.len(), 1);
    assert_eq!(trades[0].quantity, Decimal(1));
    assert_eq!(trades[0].price, Decimal(100));
    assert_eq!(trades[0].buy_order_id, 1);
    assert_eq!(trades[0].sell_order_id, 2);
    assert_eq!(trades[0].buyer_id, "A1");
    assert_eq!(trades[0].seller_id, "A2");
    assert_eq!(trades[0].trading_pair, btc_usd());

    let buy = engine.get_order(1).unwrap();
    assert_eq!(buy.status, OrderStatus::Filled);
    assert_eq!(buy.filled_quantity, Decimal(1));
    assert!(buy.is_fully_filled());
    let sell = engine.get_order(2).unwrap();
    assert_eq!(sell.status, OrderStatus::Filled);
    assert_eq!(sell.filled_quantity, Decimal(1));
    assert!(sell.is_fully_filled());

    let snapshot = engine.get_snapshot(10);
    assert!(snapshot.bids.is_empty());
    assert!(snapshot.asks.is_empty());
}

#[test]
fn partly_filled_maker_keeps_its_place() {
    let mut engine = OrderBookEngine::new(btc_usd());
    assert!(engine.add_order(order(1, OrderSide::Buy, 100, 2, "A1", 10)).unwrap().is_empty());
    let trades = engine.add_order(order(2, OrderSide::Sell, 100, 1, "A2", 11)).unwrap();

    assert_eq!(trades.len(), 1);
    assert_eq!(trades[0].quantity, Decimal(1));
    assert_eq!(trades[0].price, Decimal(100));

    let buy = engine.get_order(1).unwrap();
    assert_eq!(buy.status, OrderStatus::PartiallyFilled);
    assert_eq!(buy.remaining_quantity(), Decimal(1));

    let snapshot = engine.get_snapshot(10);
    assert_eq!(snapshot.bids, vec![level(100, 1)]);
    assert!(snapshot.asks.is_empty());

    // It is matched again, for what it has left.
    let again = engine.add_order(order(3, OrderSide::Sell, 100, 5, "A3", 12)).unwrap();
    assert_eq!(again.len(), 1);
    assert_eq!(again[0].quantity, Decimal(1));
    assert_eq!(again[0].buy_order_id, 1);
    assert_eq!(engine.get_order(1).unwrap().status, OrderStatus::Filled);
    let rest = engine.get_order(3).unwrap();
    assert_eq!(rest.status, OrderStatus::PartiallyFilled);
    assert_eq!(rest.filled_quantity, Decimal(1));
    let snapshot = engine.get_snapshot(10);
    assert!(snapshot.bids.is_empty());
    assert_eq!(snapshot.asks, vec![level(100, 4)]);
}

#[test]
fn orders_that_do_not_cross_rest() {
    let mut engine = OrderBookEngine::new(btc_usd());
    assert!(engine.add_order(order(1, OrderSide::Sell, 101, 1, "A2", 10)).unwrap().is_empty());
    let trades = engine.add_order(order(2, OrderSide::Buy, 100, 1, "A1", 11)).unwrap();
    assert!(trades.is_empty());

    let snapshot = engine.get_snapshot(10);
    assert_eq!(snapshot.asks, vec![level(101, 1)]);
    assert_eq!(snapshot.bids, vec![level(100, 1)]);
    assert_eq!(snapshot.trading_pair, btc_usd());
    assert_eq!(engine.get_order(2).unwrap().status, OrderStatus::New);
    assert_eq!(engine.get_order(1).unwrap().status, OrderStatus::New);
}

#[test]
fn cancelled_order_leaves_book_and_index() {
    let mut engine = OrderBookEngine::new(btc_usd());
    let resting = order(1, OrderSide::Buy, 100, 1, "A1", 10);
    assert!(engine.add_order(resting.clone()).unwrap().is_empty());

    let cancelled = engine.cancel_order(1).unwrap();
    assert_eq!(cancelled.status, OrderStatus::Cancelled);
    assert_eq!(cancelled, Order { status: OrderStatus::Cancelled, ..resting });

    assert!(engine.get_snapshot(10).bids.is_empty());
    assert_eq!(engine.get_order(1), None);

    // It takes no part in later matching.
    let trades = engine.add_order(order(2, OrderSide::Sell, 100, 1, "A2", 11)).unwrap();
    assert!(trades.is_empty());
    assert_eq!(engine.get_snapshot(10).asks, vec![level(100, 1)]);

    // Cancelling it again fails.
    assert!(engine.cancel_order(1).is_err());
}

#[test]
fn earlier_order_is_matched_first() {
    let mut engine = OrderBookEngine::new(btc_usd());
    // The later order is added first: the order of arrival does not decide.
    assert!(engine.add_order(order(3, OrderSide::Sell, 100, 1, "A3", 20)).unwrap().is_empty());
    assert!(engine.add_order(order(2, OrderSide::Sell, 100, 1, "A2", 10)).unwrap().is_empty());

    let trades = engine.add_order(order(1, OrderSide::Buy, 100, 1, "A1", 30)).unwrap();
    assert_eq!(trades.len(), 1);
    assert_eq!(trades[0].seller_id, "A2");
    assert_eq!(trades[0].sell_order_id, 2);
    assert_eq!(trades[0].buyer_id, "A1");

    let untouched = engine.get_order(3).unwrap();
    assert_eq!(untouched.status, OrderStatus::New);
    assert_eq!(untouched.filled_quantity, Decimal(0));
    assert_eq!(engine.get_snapshot(10).asks, vec![level(100, 1)]);
    assert_eq!(engine.get_order(2).unwrap().status, OrderStatus::Filled);
}

#[test]
fn nanoseconds_break_ties_within_a_second() {
    let mut engine = OrderBookEngine::new(btc_usd());
    let mut late = order(3, OrderSide::Buy, 100, 1, "A3", 10);
    late.created_at = Timestamp { secs: 10, nanos: 500 };
    let mut early = order(2, OrderSide::Buy, 100, 1, "A2", 10);
    early.created_at = Timestamp { secs: 10, nanos: 499 };
    engine.add_order(late).unwrap();
    engine.add_order(early).unwrap();

    let trades = engine.add_order(order(1, OrderSide::Sell, 100, 1, "A1", 30)).unwrap();
    assert_eq!(trades.len(), 1);
    assert_eq!(trades[0].buy_order_id, 2);
}

#[test]
fn trade_takes_the_makers_price() {
    let mut engine = OrderBookEngine::new(btc_usd());
    engine.add_order(order(1, OrderSide::Sell, 95, 1, "A2", 10)).unwrap();
    let trades = engine.add_order(order(2, OrderSide::Buy, 100, 1, "A1", 11)).unwrap();
    assert_eq!(trades.len(), 1);
    assert_eq!(trades[0].price, Decimal(95));

    let mut engine = OrderBookEngine::new(btc_usd());
    engine.add_order(order(1, OrderSide::Buy, 100, 1, "A1", 10)).unwrap();
    let trades = engine.add_order(order(2, OrderSide::Sell, 95, 1, "A2", 11)).unwrap();
    assert_eq!(trades.len(), 1);
    assert_eq!(trades[0].price, Decimal(100));
    assert_eq!(trades[0].buyer_id, "A1");
    assert_eq!(trades[0].seller_id, "A2");
}

#[test]
fn better_price_is_matched_first() {
    let mut engine = OrderBookEngine::new(btc_usd());
    engine.add_order(order(1, OrderSide::Sell, 102, 1, "S1", 10)).unwrap();
    engine.add_order(order(2, OrderSide::Sell, 100, 1, "S2", 11)).unwrap();
    engine.add_order(order(3, OrderSide::Sell, 101, 1, "S3", 12)).unwrap();
    assert_eq!(
        engine.get_snapshot(10).asks,
        vec![level(100, 1), level(101, 1), level(102, 1)]
    );

    let trades = engine.add_order(order(4, OrderSide::Buy, 101, 5, "B", 13)).unwrap();
    assert_eq!(trades.len(), 2);
    assert_eq!(trades[0].sell_order_id, 2);
    assert_eq!(trades[0].price, Decimal(100));
    assert_eq!(trades[1].sell_order_id, 3);
    assert_eq!(trades[1].price, Decimal(101));

    // Nothing above the buyer's limit was taken; what is left of the buyer rests.
    let snapshot = engine.get_snapshot(10);
    assert_eq!(snapshot.asks, vec![level(102, 1)]);
    assert_eq!(snapshot.bids, vec![level(101, 3)]);
    let buyer = engine.get_order(4).unwrap();
    assert_eq!(buyer.status, OrderStatus::PartiallyFilled);
    assert_eq!(buyer.filled_quantity, Decimal(2));

    let mut engine = OrderBookEngine::new(btc_usd());
    engine.add_order(order(1, OrderSide::Buy, 98, 1, "B1", 10)).unwrap();
    engine.add_order(order(2, OrderSide::Buy, 100, 1, "B2", 11)).unwrap();
    engine.add_order(order(3, OrderSide::Buy, 99, 1, "B3", 12)).unwrap();
    assert_eq!(engine.get_snapshot(10).bids, vec![level(100, 1), level(99, 1), level(98, 1)]);
    let trades = engine.add_order(order(4, OrderSide::Sell, 99, 5, "S", 13)).unwrap();
    assert_eq!(trades.len(), 2);
    assert_eq!(trades[0].buy_order_id, 2);
    assert_eq!(trades[0].price, Decimal(100));
    assert_eq!(trades[1].buy_order_id, 3);
    assert_eq!(trades[1].price, Decimal(99));
    let snapshot = engine.get_snapshot(10);
    assert_eq!(snapshot.bids, vec![level(98, 1)]);
    assert_eq!(snapshot.asks, vec![level(99, 3)]);
}

#[test]
fn trades_and_remainder_add_up_to_the_quantity() {
    let mut engine = OrderBookEngine::new(btc_usd());
    engine.add_order(order(1, OrderSide::Sell, 100, 3, "S1", 10)).unwrap();
    engine.add_order(order(2, OrderSide::Sell, 100, 4, "S2", 11)).unwrap();
    engine.add_order(order(3, OrderSide::Sell, 101, 5, "S3", 12)).unwrap();

    let trades = engine.add_order(order(4, OrderSide::Buy, 101, 10, "B", 13)).unwrap();
    let amounts: Vec<u128> = trades.iter().map(|t| t.quantity.0).collect();
    assert_eq!(amounts, vec![3, 4, 3]);
    // Filled whole: nothing of it rests.
    let buyer = engine.get_order(4).unwrap();
    assert_eq!(buyer.status, OrderStatus::Filled);
    assert_eq!(buyer.filled_quantity, Decimal(10));
    assert_eq!(amounts.iter().sum::<u128>() + buyer.remaining_quantity().0, 10);
    assert!(engine.get_snapshot(10).bids.is_empty());
    assert_eq!(engine.get_snapshot(10).asks, vec![level(101, 2)]);
    let last = engine.get_order(3).unwrap();
    assert_eq!(last.status, OrderStatus::PartiallyFilled);
    assert_eq!(last.filled_quantity, Decimal(3));

    let trades = engine.add_order(order(5, OrderSide::Buy, 101, 10, "B", 14)).unwrap();
    let taken: u128 = trades.iter().map(|t| t.quantity.0).sum();
    assert_eq!(taken, 2);
    let rest = engine.get_order(5).unwrap();
    assert_eq!(taken + rest.remaining_quantity().0, 10);
    assert_eq!(engine.get_snapshot(10).bids, vec![level(101, 8)]);
}

#[test]
fn cancelling_an_unknown_order_changes_nothing() {
    let mut engine = OrderBookEngine::new(btc_usd());
    engine.add_order(order(1, OrderSide::Buy, 100, 2, "A1", 10)).unwrap();
    engine.add_order(order(2, OrderSide::Sell, 105, 1, "A2", 11)).unwrap();
    let before = engine.get_snapshot(10);

    let id = 0x67e55044_10b1_426f_9247_bb680e5fe0c8u128;
    let error = engine.cancel_order(id).unwrap_err();
    assert_eq!(error, "Order not found: 67e55044-10b1-426f-9247-bb680e5fe0c8");

    let after = engine.get_snapshot(10);
    assert_eq!(after.bids, before.bids);
    assert_eq!(after.asks, before.asks);
    assert_eq!(engine.get_order(1).unwrap().status, OrderStatus::New);
    assert_eq!(engine.get_order(2).unwrap().status, OrderStatus::New);
    assert!(engine.trade_log().is_empty());
}

#[test]
fn filled_order_cannot_be_cancelled() {
    let mut engine = OrderBookEngine::new(btc_usd());
    engine.add_order(order(1, OrderSide::Buy, 100, 1, "A1", 10)).unwrap();
    engine.add_order(order(2, OrderSide::Sell, 100, 1, "A2", 11)).unwrap();

    let error = engine.cancel_order(1).unwrap_err();
    assert_eq!(error, format!("Order not found: {}", Uuid::from_u128(1)));
    assert_eq!(engine.get_order(1).unwrap().status, OrderStatus::Filled);
}

#[test]
fn filled_incoming_order_cannot_be_cancelled() {
    let mut engine = OrderBookEngine::new(btc_usd());
    engine.add_order(order(1, OrderSide::Buy, 100, 1, "A1", 10)).unwrap();
    engine.add_order(order(2, OrderSide::Sell, 100, 1, "A2", 11)).unwrap();

    assert!(engine.cancel_order(2).is_err());
    assert_eq!(engine.get_order(2).unwrap().status, OrderStatus::Filled);
}

#[test]
fn order_under_a_taken_key_replaces_the_one_resting_there() {
    let mut engine = OrderBookEngine::new(btc_usd());
    engine.add_order(order(1, OrderSide::Buy, 100, 1, "A1", 10)).unwrap();
    engine.add_order(order(2, OrderSide::Buy, 100, 5, "A2", 10)).unwrap();
    assert_eq!(engine.get_snapshot(10).bids, vec![level(100, 5)]);

    let trades = engine.add_order(order(3, OrderSide::Sell, 100, 9, "A3", 11)).unwrap();
    assert_eq!(trades.len(), 1);
    assert_eq!(trades[0].buy_order_id, 2);
    assert_eq!(trades[0].quantity, Decimal(5));
}

#[test]
fn incoming_order_is_filled_from_several_resting_orders() {
    let mut engine = OrderBookEngine::new(btc_usd());
    engine.add_order(order(1, OrderSide::Buy, 100, 2, "B1", 10)).unwrap();
    engine.add_order(order(2, OrderSide::Buy, 100, 2, "B2", 11)).unwrap();
    engine.add_order(order(3, OrderSide::Buy, 99, 2, "B3", 9)).unwrap();

    let trades = engine.add_order(order(4, OrderSide::Sell, 99, 5, "S", 12)).unwrap();
    let fills: Vec<(u128, u128, u128)> =
        trades.iter().map(|t| (t.buy_order_id, t.price.0, t.quantity.0)).collect();
    assert_eq!(fills, vec![(1, 100, 2), (2, 100, 2), (3, 99, 1)]);
    assert!(trades.iter().all(|t| t.sell_order_id == 4 && t.seller_id == "S"));
    assert_eq!(engine.get_order(1).unwrap().status, OrderStatus::Filled);
    assert_eq!(engine.get_order(2).unwrap().status, OrderStatus::Filled);
    let last = engine.get_order(3).unwrap();
    assert_eq!(last.status, OrderStatus::PartiallyFilled);
    assert_eq!(last.remaining_quantity(), Decimal(1));
    assert_eq!(engine.get_order(4).unwrap().status, OrderStatus::Filled);
    let snapshot = engine.get_snapshot(10);
    assert_eq!(snapshot.bids, vec![level(99, 1)]);
    assert!(snapshot.asks.is_empty());
}

#[test]
fn partly_filled_order_can_be_cancelled() {
    let mut engine = OrderBookEngine::new(btc_usd());
    engine.add_order(order(1, OrderSide::Sell, 100, 3, "A1", 10)).unwrap();
    engine.add_order(order(2, OrderSide::Buy, 100, 1, "A2", 11)).unwrap();

    let cancelled = engine.cancel_order(1).unwrap();
    assert_eq!(cancelled.status, OrderStatus::Cancelled);
    assert_eq!(cancelled.filled_quantity, Decimal(1));
    assert!(engine.get_snapshot(10).asks.is_empty());
    assert!(engine.add_order(order(3, OrderSide::Buy, 100, 1, "A3", 12)).unwrap().is_empty());
}

#[test]
fn snapshot_shows_one_level_for_each_order_up_to_depth() {
    let mut engine = OrderBookEngine::new(btc_usd());
    engine.add_order(order(1, OrderSide::Buy, 100, 1, "A1", 10)).unwrap();
    engine.add_order(order(2, OrderSide::Buy, 100, 2, "A2", 11)).unwrap();
    engine.add_order(order(3, OrderSide::Buy, 99, 3, "A3", 12)).unwrap();
    engine.add_order(order(4, OrderSide::Sell, 110, 4, "A4", 13)).unwrap();

    let snapshot = engine.get_snapshot(2);
    assert_eq!(snapshot.bids, vec![level(100, 1), level(100, 2)]);
    assert_eq!(snapshot.asks, vec![level(110, 4)]);
    let all = engine.get_snapshot(10);
    assert_eq!(all.bids, vec![level(100, 1), level(100, 2), level(99, 3)]);
    let none = engine.get_snapshot(0);
    assert!(none.bids.is_empty());
    assert!(none.asks.is_empty());
}

#[test]
fn trade_log_keeps_every_trade_in_order() {
    let mut engine = OrderBookEngine::new(btc_usd());
    engine.add_order(order(1, OrderSide::Sell, 100, 1, "S1", 10)).unwrap();
    engine.add_order(order(2, OrderSide::Sell, 101, 1, "S2", 11)).unwrap();
    let first = engine.add_order(order(3, OrderSide::Buy, 100, 1, "B1", 12)).unwrap();
    let second = engine.add_order(order(4, OrderSide::Buy, 101, 1, "B2", 13)).unwrap();

    let log = engine.trade_log();
    assert_eq!(log.len(), 2);
    assert_eq!(log[0], first[0]);
    assert_eq!(log[1], second[0]);
    assert_ne!(log[0].id, log[1].id);
}

#[test]
fn trades_carry_random_identifiers_and_the_time_of_the_match() {
    let started = now();
    let mut engine = OrderBookEngine::new(btc_usd());
    engine.add_order(order(1, OrderSide::Sell, 100, 1, "S1", 10)).unwrap();
    let trades = engine.add_order(order(2, OrderSide::Buy, 100, 1, "B1", 12)).unwrap();
    let snapshot = engine.get_snapshot(1);

    assert_eq!(Uuid::from_u128(trades[0].id).get_version_num(), 4);
    assert!(trades[0].timestamp.secs >= started.secs - 1);
    assert!(trades[0].timestamp.nanos < 2_000_000_000);
    assert!(snapshot.timestamp.secs >= started.secs - 1);
}

#[test]
fn order_with_nothing_open_neither_trades_nor_rests() {
    let mut engine = OrderBookEngine::new(btc_usd());
    engine.add_order(order(1, OrderSide::Sell, 100, 1, "S1", 10)).unwrap();
    let mut spent = order(2, OrderSide::Buy, 100, 4, "B1", 11);
    spent.filled_quantity = Decimal(4);
    let trades = engine.add_order(spent.clone()).unwrap();
    assert!(trades.is_empty());
    assert_eq!(engine.get_order(2), Some(spent));
    assert!(engine.get_snapshot(10).bids.is_empty());
    assert_eq!(engine.get_snapshot(10).asks, vec![level(100, 1)]);
}

#[test]
fn no_order_is_filled_beyond_its_quantity() {
    let mut engine = OrderBookEngine::new(btc_usd());
    let ids: Vec<u128> = (1..=6).collect();
    engine.add_order(order(1, OrderSide::Sell, 100, 3, "S1", 10)).unwrap();
    engine.add_order(order(2, OrderSide::Sell, 101, 4, "S2", 11)).unwrap();
    engine.add_order(order(3, OrderSide::Buy, 100, 2, "B1", 12)).unwrap();
    engine.add_order(order(4, OrderSide::Buy, 105, 20, "B2", 13)).unwrap();
    engine.add_order(order(5, OrderSide::Sell, 90, 7, "S3", 14)).unwrap();
    engine.add_order(order(6, OrderSide::Sell, 104, 50, "S4", 15)).unwrap();
    for id in ids {
        let stored = engine.get_order(id).unwrap();
        assert!(stored.filled_quantity <= stored.quantity);
        assert_eq!(stored.is_fully_filled(), stored.status == OrderStatus::Filled);
    }
    let cancelled = engine.cancel_order(6).unwrap();
    assert!(cancelled.filled_quantity <= cancelled.quantity);
    let log = engine.trade_log();
    let sold: u128 = log.iter().map(|t| t.quantity.0).sum();
    assert_eq!(sold, 2 + 1 + 4 + 7 + 8);
}

#[test]
fn largest_amounts_do_not_overflow() {
    let mut engine = OrderBookEngine::new(btc_usd());
    engine.add_order(order(1, OrderSide::Buy, u128::MAX, u128::MAX, "B1", 10)).unwrap();
    engine.add_order(order(2, OrderSide::Buy, 0, u128::MAX, "B2", 11)).unwrap();
    assert_eq!(
        engine.get_snapshot(10).bids,
        vec![level(u128::MAX, u128::MAX), level(0, u128::MAX)]
    );
    let trades = engine.add_order(order(3, OrderSide::Sell, 0, u128::MAX, "S1", 12)).unwrap();
    assert_eq!(trades.len(), 1);
    assert_eq!(trades[0].quantity, Decimal(u128::MAX));
    assert_eq!(trades[0].price, Decimal(u128::MAX));
    assert_eq!(engine.get_snapshot(10).bids, vec![level(0, u128::MAX)]);
}

#[test]
fn new_engine_is_empty() {
    let engine = OrderBookEngine::new(btc_usd());
    let snapshot = engine.get_snapshot(5);
    assert_eq!(snapshot.trading_pair, btc_usd());
    assert!(snapshot.bids.is_empty());
    assert!(snapshot.asks.is_empty());
    assert_eq!(engine.get_order(7), None);
    assert!(engine.trade_log().is_empty());
}
