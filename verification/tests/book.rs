use std::collections::BTreeMap;

use matching_engine::book::{front, levels};
use matching_engine::matching::{make_trade, price_crosses};
use matching_engine::orderbook::traded_quantity;
use matching_engine::priority::{key_of, BookKey};
use matching_engine::types::{
    Decimal, Order, OrderSide, OrderStatus, OrderType, PriceLevel, TimeInForce, Timestamp,
    TradingPair,
};

fn pair() -> TradingPair {
    TradingPair { base: "BTC".to_string(), quote: "USD".to_string() }
}

fn resting(id: u128, side: OrderSide, price: u128, qty: u128, filled: u128, secs: i64) -> Order {
    Order {
        id,
        trading_pair: pair(),
        side,
        order_type: OrderType::Limit,
        price: Decimal(price),
        quantity: Decimal(qty),
        filled_quantity: Decimal(filled),
        status: OrderStatus::New,
        time_in_force: TimeInForce::GTC,
        account_id: format!("acct-{}", id),
        created_at: Timestamp { secs, nanos: 7 },
        updated_at: Timestamp { secs, nanos: 7 },
        expiration: None,
    }
}

fn side_of(orders: Vec<Order>) -> BTreeMap<BookKey, Order> {
    let mut book = BTreeMap::new();
    for order in orders {
        book.insert(key_of(&order), order);
    }
    book
}

#[test]
fn ask_key_is_price_then_time() {
    let order = resting(1, OrderSide::Sell, 100, 1, 0, 42);
    assert_eq!(key_of(&order), (100, 42, 7));
}

#[test]
fn bid_key_ranks_high_prices_first() {
    let order = resting(1, OrderSide::Buy, 100, 1, 0, 42);
    assert_eq!(key_of(&order), (u128::MAX - 100, 42, 7));
    let top = resting(2, OrderSide::Buy, u128::MAX, 1, 0, 42);
    assert_eq!(key_of(&top), (0, 42, 7));
    assert!(key_of(&top) < key_of(&order));
}

#[test]
fn front_is_the_best_ask() {
    let book = side_of(vec![
        resting(1, OrderSide::Sell, 101, 1, 0, 1),
        resting(2, OrderSide::Sell, 100, 1, 0, 9),
        resting(3, OrderSide::Sell, 100, 1, 0, 5),
    ]);
    let (key, order) = front(&book).unwrap();
    assert_eq!(*key, (100, 5, 7));
    assert_eq!(order.id, 3);
}

#[test]
fn front_is_the_best_bid() {
    let book = side_of(vec![
        resting(1, OrderSide::Buy, 99, 1, 0, 1),
        resting(2, OrderSide::Buy, 100, 1, 0, 9),
        resting(3, OrderSide::Buy, 100, 1, 0, 5),
    ]);
    let (_, order) = front(&book).unwrap();
    assert_eq!(order.id, 3);
}

#[test]
fn front_of_an_empty_side_is_none() {
    let book: BTreeMap<BookKey, Order> = BTreeMap::new();
    assert!(front(&book).is_none());
}

#[test]
fn levels_show_what_is_open_in_serving_order() {
    let book = side_of(vec![
        resting(1, OrderSide::Sell, 101, 10, 4, 1),
        resting(2, OrderSide::Sell, 100, 3, 0, 9),
        resting(3, OrderSide::Sell, 100, 8, 7, 5),
    ]);
    let level = |price, quantity| PriceLevel { price: Decimal(price), quantity: Decimal(quantity) };
    assert_eq!(levels(&book, 5), vec![level(100, 1), level(100, 3), level(101, 6)]);
    assert_eq!(levels(&book, 3), vec![level(100, 1), level(100, 3), level(101, 6)]);
    assert_eq!(levels(&book, 2), vec![level(100, 1), level(100, 3)]);
    assert_eq!(levels(&book, 0), vec![]);
}

#[test]
fn buyer_crosses_asks_at_or_below_its_limit() {
    let buyer = resting(1, OrderSide::Buy, 100, 1, 0, 1);
    assert!(price_crosses(&buyer, Decimal(99)));
    assert!(price_crosses(&buyer, Decimal(100)));
    assert!(!price_crosses(&buyer, Decimal(101)));
}

#[test]
fn seller_crosses_bids_at_or_above_its_limit() {
    let seller = resting(1, OrderSide::Sell, 100, 1, 0, 1);
    assert!(!price_crosses(&seller, Decimal(99)));
    assert!(price_crosses(&seller, Decimal(100)));
    assert!(price_crosses(&seller, Decimal(101)));
}

#[test]
fn trade_names_buyer_and_seller_by_side() {
    let taker = resting(1, OrderSide::Sell, 90, 5, 0, 2);
    let maker = resting(2, OrderSide::Buy, 100, 5, 0, 1);
    let time = Timestamp { secs: 3, nanos: 4 };
    let trade = make_trade(77, time, &pair(), &taker, &maker, Decimal(2));
    assert_eq!(trade.id, 77);
    assert_eq!(trade.timestamp, time);
    assert_eq!(trade.trading_pair, pair());
    assert_eq!(trade.price, Decimal(100));
    assert_eq!(trade.quantity, Decimal(2));
    assert_eq!(trade.buy_order_id, 2);
    assert_eq!(trade.buyer_id, "acct-2");
    assert_eq!(trade.sell_order_id, 1);
    assert_eq!(trade.seller_id, "acct-1");

    let trade = make_trade(78, time, &pair(), &maker, &taker, Decimal(2));
    assert_eq!(trade.price, Decimal(90));
    assert_eq!(trade.buy_order_id, 2);
    assert_eq!(trade.sell_order_id, 1);
}

#[test]
fn traded_quantity_is_the_sum_of_the_trades() {
    let taker = resting(1, OrderSide::Sell, 90, 5, 0, 2);
    let maker = resting(2, OrderSide::Buy, 100, 5, 0, 1);
    let time = Timestamp { secs: 3, nanos: 4 };
    let trades = vec![
        make_trade(1, time, &pair(), &taker, &maker, Decimal(2)),
        make_trade(2, time, &pair(), &taker, &maker, Decimal(3)),
        make_trade(3, time, &pair(), &taker, &maker, Decimal(u128::MAX - 5)),
    ];
    assert_eq!(traded_quantity(&trades), Decimal(u128::MAX));
    assert_eq!(traded_quantity(&Vec::new()), Decimal(0));
}
