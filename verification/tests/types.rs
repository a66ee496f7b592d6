use std::cmp::Ordering;

use matching_engine::types::{
    Decimal, Order, OrderSide, OrderStatus, OrderType, TimeInForce, Timestamp, TradingPair,
};

fn sample(quantity: u128, filled: u128) -> Order {
    Order {
        id: 9,
        trading_pair: TradingPair { base: "ETH".to_string(), quote: "EUR".to_string() },
        side: OrderSide::Sell,
        order_type: OrderType::Limit,
        price: Decimal(5),
        quantity: Decimal(quantity),
        filled_quantity: Decimal(filled),
        status: OrderStatus::New,
        time_in_force: TimeInForce::GTC,
        account_id: "acct".to_string(),
        created_at: Timestamp { secs: 1, nanos: 0 },
        updated_at: Timestamp { secs: 1, nanos: 0 },
        expiration: None,
    }
}

#[test]
fn one_has_eighteen_decimal_places() {
    assert_eq!(Decimal::SCALE, 18);
    assert_eq!(Decimal::UNIT, 10u128.pow(18));
    assert_eq!(Decimal::one(), Decimal(1_000_000_000_000_000_000));
}

#[test]
fn decimals_compare_by_raw_value() {
    assert!(Decimal(1) < Decimal(2));
    assert!(Decimal(u128::MAX) > Decimal(0));
    assert_eq!(Decimal(7), Decimal(7));
}

#[test]
fn remaining_is_quantity_less_filled() {
    assert_eq!(sample(10, 3).remaining_quantity(), Decimal(7));
    assert_eq!(sample(10, 10).remaining_quantity(), Decimal(0));
    assert!(sample(10, 10).is_fully_filled());
    assert!(!sample(10, 9).is_fully_filled());
}

#[test]
fn fill_records_amount_and_status() {
    let mut order = sample(10, 3);
    order.fill(Decimal(4));
    assert_eq!(order.filled_quantity, Decimal(7));
    assert_eq!(order.status, OrderStatus::PartiallyFilled);
    order.fill(Decimal(3));
    assert_eq!(order.filled_quantity, Decimal(10));
    assert_eq!(order.status, OrderStatus::Filled);
    assert!(!order.is_live());
}

#[test]
fn order_expires_strictly_after_its_expiration() {
    let mut order = sample(1, 0);
    assert!(!order.is_expired(Timestamp { secs: i64::MAX, nanos: 0 }));
    order.expiration = Some(Timestamp { secs: 100, nanos: 5 });
    assert!(!order.is_expired(Timestamp { secs: 100, nanos: 5 }));
    assert!(!order.is_expired(Timestamp { secs: 99, nanos: 900 }));
    assert!(order.is_expired(Timestamp { secs: 100, nanos: 6 }));
    assert!(order.is_expired(Timestamp { secs: 101, nanos: 0 }));
}

#[test]
fn live_statuses_are_new_and_partially_filled() {
    let mut order = sample(1, 0);
    assert!(order.is_live());
    order.status = OrderStatus::PartiallyFilled;
    assert!(order.is_live());
    for status in
        [OrderStatus::Filled, OrderStatus::Cancelled, OrderStatus::Rejected, OrderStatus::Expired]
    {
        order.status = status;
        assert!(!order.is_live());
    }
}

#[test]
fn pair_is_written_with_a_slash() {
    let pair = TradingPair { base: "BTC".to_string(), quote: "USD".to_string() };
    assert_eq!(pair.symbol(), "BTC/USD");
    assert_eq!(pair.clone(), pair);
}

#[test]
fn timestamps_order_by_seconds_then_nanoseconds() {
    let a = Timestamp { secs: 5, nanos: 999 };
    let b = Timestamp { secs: 6, nanos: 0 };
    assert!(b.later_than(&a));
    assert!(!a.later_than(&b));
    assert!(!a.later_than(&a));
    assert!(Timestamp { secs: 5, nanos: 1000 }.later_than(&a));
    assert!(a < b);
}

#[test]
fn orders_rank_by_price_then_time() {
    let base = sample(1, 0);
    let mut dearer = sample(1, 0);
    dearer.price = Decimal(6);
    let mut later = sample(1, 0);
    later.created_at = Timestamp { secs: 1, nanos: 1 };

    assert_eq!(dearer.cmp(&base), Ordering::Less);
    assert_eq!(base.cmp(&dearer), Ordering::Greater);
    assert_eq!(base.cmp(&later), Ordering::Less);
    assert_eq!(later.cmp(&base), Ordering::Greater);
    assert_eq!(base.cmp(&base), Ordering::Equal);
    // Price decides before time.
    later.price = Decimal(6);
    assert_eq!(later.cmp(&base), Ordering::Less);
    assert_eq!(base.partial_cmp(&later), Some(Ordering::Greater));
}

#[test]
fn copies_are_equal() {
    let order = sample(10, 3);
    assert_eq!(order.clone(), order);
}
