//! Value types exchanged between the engine and its callers.
//!
//! Prices and quantities are fixed-point integers, identifiers are 128-bit
//! integers and instants are a pair of integers, so that every rule of the
//! engine can be stated over plain numbers.

use std::cmp::Ordering;
use vstd::prelude::*;
use vstd::string::*;

verus! {

/// Market trading pair (e.g., BTC/USD).
#[derive(Debug, PartialEq, Eq, Hash)]
pub struct TradingPair {
    pub base: String,
    pub quote: String,
}

impl Clone for TradingPair {
    fn clone(&self) -> (copy: Self)
        ensures
            copy == *self,
    {
        TradingPair { base: self.base.clone(), quote: self.quote.clone() }
    }
}

impl TradingPair {
    /// The text of the pair's symbol: base, a slash, quote.
    pub open spec fn symbol_text(self) -> Seq<char> {
        self.base@ + "/"@ + self.quote@
    }

    /// The pair written as `BASE/QUOTE`.
    pub fn symbol(&self) -> (text: String)
        ensures
            text@ == self.symbol_text(),
    {
        let mut text = self.base.clone();
        text.append("/");
        text.append(self.quote.as_str());
        text
    }
}

/// Order side (Buy/Sell).
#[derive(Clone, Copy, Debug, PartialEq, Eq, Structural)]
pub enum OrderSide {
    Buy,
    Sell,
}

/// Order type. Matching treats every order as a limit order.
#[derive(Clone, Copy, Debug, PartialEq, Eq, Structural)]
pub enum OrderType {
    Limit,
    Market,
    Stop,
    Iceberg,
}

/// Time-in-force. Carried with the order; matching does not act on it.
#[derive(Clone, Copy, Debug, PartialEq, Eq, Structural)]
pub enum TimeInForce {
    /// Good-til-cancelled (default)
    GTC,
    /// Immediate-or-cancel
    IOC,
    /// Fill-or-kill
    FOK,
    /// Good-til-date
    GTD,
}

/// Order status.
#[derive(Clone, Copy, Debug, PartialEq, Eq, Structural)]
pub enum OrderStatus {
    New,
    PartiallyFilled,
    Filled,
    Cancelled,
    Rejected,
    Expired,
}

impl OrderStatus {
    /// A terminal status is never left again.
    pub open spec fn is_terminal(self) -> bool {
        self is Filled || self is Cancelled || self is Rejected || self is Expired
    }
}

/// Unsigned fixed-point number: the raw integer is the value times 10^18.
/// Equality and order are those of the raw integer.
#[derive(Clone, Copy, Debug, PartialEq, Eq, PartialOrd, Ord, Hash, Structural)]
pub struct Decimal(pub u128);

impl Decimal {
    /// Number of decimal places.
    pub const SCALE: u32 = 18;

    /// The raw integer of the number one: ten to the power `SCALE`.
    pub const UNIT: u128 = 1_000_000_000_000_000_000;

    /// The number one.
    pub fn one() -> (unit: Decimal)
        ensures
            unit.0 == 1_000_000_000_000_000_000u128,
    {
        Decimal(Decimal::UNIT)
    }
}

/// An instant: whole seconds since the Unix epoch and the nanoseconds past
/// that second. Instants are ordered by seconds, then by nanoseconds.
#[derive(Clone, Copy, Debug, PartialEq, Eq, PartialOrd, Ord, Hash, Structural)]
pub struct Timestamp {
    pub secs: i64,
    pub nanos: u32,
}

impl Timestamp {
    /// `self` is strictly later than `other`.
    pub open spec fn is_after(self, other: Timestamp) -> bool {
        self.secs > other.secs || (self.secs == other.secs && self.nanos > other.nanos)
    }

    /// `self` is strictly earlier than `other`.
    pub open spec fn is_before(self, other: Timestamp) -> bool {
        other.is_after(self)
    }

    /// Whether `self` is strictly later than `other`.
    pub fn later_than(&self, other: &Timestamp) -> (later: bool)
        ensures
            later == self.is_after(*other),
    {
        self.secs > other.secs || (self.secs == other.secs && self.nanos > other.nanos)
    }
}

/// Trading order.
#[derive(Debug, PartialEq, Eq)]
pub struct Order {
    pub id: u128,
    pub trading_pair: TradingPair,
    pub side: OrderSide,
    pub order_type: OrderType,
    pub price: Decimal,
    pub quantity: Decimal,
    pub filled_quantity: Decimal,
    pub status: OrderStatus,
    pub time_in_force: TimeInForce,
    pub account_id: String,
    pub created_at: Timestamp,
    pub updated_at: Timestamp,
    pub expiration: Option<Timestamp>,
}

impl Clone for Order {
    fn clone(&self) -> (copy: Self)
        ensures
            copy == *self,
    {
        Order {
            id: self.id,
            trading_pair: self.trading_pair.clone(),
            side: self.side,
            order_type: self.order_type,
            price: self.price,
            quantity: self.quantity,
            filled_quantity: self.filled_quantity,
            status: self.status,
            time_in_force: self.time_in_force,
            account_id: self.account_id.clone(),
            created_at: self.created_at,
            updated_at: self.updated_at,
            expiration: self.expiration,
        }
    }
}

impl Order {
    /// No more is filled than was ordered.
    pub open spec fn within_quantity(self) -> bool {
        self.filled_quantity.0 <= self.quantity.0
    }

    /// What is still open: quantity less filled quantity.
    pub open spec fn remaining(self) -> nat
        recommends
            self.within_quantity(),
    {
        (self.quantity.0 - self.filled_quantity.0) as nat
    }

    /// The order after `amount` more of it has been filled: the filled
    /// quantity grows by `amount` and the status says whether anything is
    /// left open.
    pub open spec fn filled_by(self, amount: nat) -> Order
        recommends
            amount <= self.remaining(),
    {
        Order {
            filled_quantity: Decimal((self.filled_quantity.0 + amount) as u128),
            status: if amount == self.remaining() {
                OrderStatus::Filled
            } else {
                OrderStatus::PartiallyFilled
            },
            ..self
        }
    }

    /// The order with its status set to cancelled.
    pub open spec fn cancelled(self) -> Order {
        Order { status: OrderStatus::Cancelled, ..self }
    }

    pub fn remaining_quantity(&self) -> (open: Decimal)
        requires
            self.within_quantity(),
        ensures
            open.0 == self.remaining(),
    {
        Decimal(self.quantity.0 - self.filled_quantity.0)
    }

    pub fn is_fully_filled(&self) -> (full: bool)
        ensures
            full == (self.filled_quantity == self.quantity),
    {
        self.filled_quantity.0 == self.quantity.0
    }

    /// Whether the order may still be matched or cancelled: its status is not a
    /// terminal one.
    pub fn is_live(&self) -> (live: bool)
        ensures
            live == !self.status.is_terminal(),
    {
        match self.status {
            OrderStatus::New => true,
            OrderStatus::PartiallyFilled => true,
            OrderStatus::Filled => false,
            OrderStatus::Cancelled => false,
            OrderStatus::Rejected => false,
            OrderStatus::Expired => false,
        }
    }

    pub fn is_expired(&self, now: Timestamp) -> (expired: bool)
        ensures
            expired == match self.expiration {
                Some(deadline) => now.is_after(deadline),
                None => false,
            },
    {
        match self.expiration {
            Some(deadline) => now.later_than(&deadline),
            None => false,
        }
    }

    /// `self` ranks before `other` among orders: it has the higher price, or
    /// the same price and the earlier creation.
    pub open spec fn ranks_before(self, other: Order) -> bool {
        self.price.0 > other.price.0 || (self.price.0 == other.price.0
            && self.created_at.is_before(other.created_at))
    }

    /// How `self` compares with `other` in rank: less where it ranks before
    /// `other`, greater where `other` ranks before it, equal where the two
    /// have one price and one time of creation.
    pub open spec fn rank_order(self, other: Order) -> Ordering {
        if self.ranks_before(other) {
            Ordering::Less
        } else if other.ranks_before(self) {
            Ordering::Greater
        } else {
            Ordering::Equal
        }
    }

    /// Compares two orders by rank: higher price first, then earlier
    /// creation.
    pub fn cmp(&self, other: &Order) -> (order: Ordering)
        ensures
            order == self.rank_order(*other),
    {
        if self.price.0 > other.price.0 {
            Ordering::Less
        } else if self.price.0 < other.price.0 {
            Ordering::Greater
        } else if other.created_at.later_than(&self.created_at) {
            Ordering::Less
        } else if self.created_at.later_than(&other.created_at) {
            Ordering::Greater
        } else {
            Ordering::Equal
        }
    }

    /// Compares two orders by rank; any two orders compare.
    pub fn partial_cmp(&self, other: &Order) -> (order: Option<Ordering>)
        ensures
            order == Some(self.rank_order(*other)),
    {
        Some(self.cmp(other))
    }

    /// Records `amount` more as filled.
    pub fn fill(&mut self, amount: Decimal)
        requires
            old(self).within_quantity(),
            amount.0 <= old(self).remaining(),
        ensures
            *final(self) == old(self).filled_by(amount.0 as nat),
            final(self).within_quantity(),
            final(self).remaining() == old(self).remaining() - amount.0,
    {
        self.filled_quantity = Decimal(self.filled_quantity.0 + amount.0);
        if self.is_fully_filled() {
            self.status = OrderStatus::Filled;
        } else {
            self.status = OrderStatus::PartiallyFilled;
        }
    }
}

/// Trade execution.
#[derive(Debug, PartialEq, Eq)]
pub struct Trade {
    pub id: u128,
    pub trading_pair: TradingPair,
    pub buyer_id: String,
    pub seller_id: String,
    pub buy_order_id: u128,
    pub sell_order_id: u128,
    pub price: Decimal,
    pub quantity: Decimal,
    pub timestamp: Timestamp,
}

impl Clone for Trade {
    fn clone(&self) -> (copy: Self)
        ensures
            copy == *self,
    {
        Trade {
            id: self.id,
            trading_pair: self.trading_pair.clone(),
            buyer_id: self.buyer_id.clone(),
            seller_id: self.seller_id.clone(),
            buy_order_id: self.buy_order_id,
            sell_order_id: self.sell_order_id,
            price: self.price,
            quantity: self.quantity,
            timestamp: self.timestamp,
        }
    }
}

/// Order book level: the price and open quantity of one resting order.
#[derive(Clone, Copy, Debug, PartialEq, Eq, Structural)]
pub struct PriceLevel {
    pub price: Decimal,
    pub quantity: Decimal,
}

/// Order book snapshot.
#[derive(Debug)]
pub struct OrderBook {
    pub trading_pair: TradingPair,
    pub bids: Vec<PriceLevel>,
    pub asks: Vec<PriceLevel>,
    pub timestamp: Timestamp,
}

impl Clone for OrderBook {
    fn clone(&self) -> (copy: Self)
        ensures
            copy.trading_pair == self.trading_pair,
            copy.bids@ == self.bids@,
            copy.asks@ == self.asks@,
            copy.timestamp == self.timestamp,
    {
        OrderBook {
            trading_pair: self.trading_pair.clone(),
            bids: self.bids.clone(),
            asks: self.asks.clone(),
            timestamp: self.timestamp,
        }
    }
}

} // verus!
