//! The order-book engine of one trading pair: both sides of the book, the
//! index of orders by identifier and the log of executed trades.
//!
//! The engine is one owner object. Operations that change it take it by
//! exclusive reference, so each call sees and leaves a whole state; a host
//! that shares one engine between callers puts it behind a lock of its own.

use crate::ambient::{current_time, id_to_text, order_id_text};
use crate::book::{levels, side_wf, top_levels};
use crate::index::{
    index_entries, index_get, index_insert, index_new, index_remove_live, index_wf,
};
use crate::matching::{
    book_after_fills, crosses, fill_plan, index_after_fills, lemma_fill_plan_shape, match_order,
    opposite, records_fill, total,
};
use crate::priority::{book_key, key_of, priority_order, BookKey};
use crate::types::{Decimal, Order, OrderBook, OrderSide, Trade, TradingPair};
use dashmap::DashMap;
use std::collections::BTreeMap;
use vstd::laws_cmp::*;
use vstd::prelude::*;
use vstd::std_specs::btree::*;
use vstd::string::*;

verus! {

broadcast use {group_btree_axioms, group_laws_cmp};

/// Matching engine for a single trading pair.
pub struct OrderBookEngine {
    pair: TradingPair,
    /// Buy orders, highest price first, then earliest creation.
    bids: BTreeMap<BookKey, Order>,
    /// Sell orders, lowest price first, then earliest creation.
    asks: BTreeMap<BookKey, Order>,
    /// Order lookup.
    orders: DashMap<u128, Order>,
    /// Executed trades, oldest first.
    trades: Vec<Trade>,
}

/// The state of an engine: what its operations read and change.
pub struct EngineState {
    pub pair: TradingPair,
    pub bids: Map<BookKey, Order>,
    pub asks: Map<BookKey, Order>,
    pub index: Map<u128, Order>,
    pub trades: Seq<Trade>,
}

/// The amounts of a list of trades.
pub open spec fn trade_amounts(trades: Seq<Trade>) -> Seq<nat> {
    Seq::new(trades.len(), |i: int| trades[i].quantity.0 as nat)
}

/// The text of the error for an identifier under which no order can be
/// cancelled.
pub open spec fn not_found_message(order_id: u128) -> Seq<char> {
    "Order not found: "@ + order_id_text(order_id)
}

impl EngineState {
    /// The state of an engine that has seen no order.
    pub open spec fn empty(pair: TradingPair) -> EngineState {
        EngineState {
            pair,
            bids: Map::empty(),
            asks: Map::empty(),
            index: Map::empty(),
            trades: Seq::empty(),
        }
    }

    /// What holds of every state that an engine reaches.
    pub open spec fn wf(self) -> bool {
        &&& side_wf(self.bids, OrderSide::Buy)
        &&& side_wf(self.asks, OrderSide::Sell)
        &&& index_wf(self.index)
    }

    /// Whether an order with the identifier `id` rests on the book.
    pub open spec fn holds_resting(self, id: u128) -> bool {
        exists|side: OrderSide, key: BookKey| #[trigger]
            self.book(side).contains_key(key) && self.book(side)[key].id == id
    }

    /// Every resting order can be reached by its identifier: the index holds
    /// it, as it rests, under that identifier, and its status is not a
    /// terminal one, so that it can be cancelled.
    pub open spec fn resting_orders_reachable(self) -> bool {
        forall|side: OrderSide, key: BookKey| #[trigger]
            self.book(side).contains_key(key) ==> {
                &&& self.index.contains_key(self.book(side)[key].id)
                &&& self.index[self.book(side)[key].id] == self.book(side)[key]
                &&& !self.book(side)[key].status.is_terminal()
            }
    }

    /// The resting orders of one side, by key.
    pub open spec fn book(self, side: OrderSide) -> Map<BookKey, Order> {
        match side {
            OrderSide::Buy => self.bids,
            OrderSide::Sell => self.asks,
        }
    }

    /// The resting orders of one side, in the order in which they are served.
    pub open spec fn queue(self, side: OrderSide) -> Seq<Order> {
        priority_order(self.book(side))
    }

    /// The resting orders that an incoming order is matched against, in the
    /// order in which they are served.
    pub open spec fn makers(self, order: Order) -> Seq<Order> {
        self.queue(opposite(order.side))
    }

    /// The amounts that an incoming order takes from `makers(order)`.
    pub open spec fn plan(self, order: Order) -> Seq<nat> {
        fill_plan(self.makers(order), order.side, order.price, order.remaining())
    }

    /// An incoming order after matching: as it came where it took nothing,
    /// else with what it took recorded as filled.
    pub open spec fn settled(self, order: Order) -> Order {
        if total(self.plan(order)) == 0 {
            order
        } else {
            order.filled_by(total(self.plan(order)))
        }
    }

    /// Whether an incoming order comes to rest after matching: it does where
    /// something of it is left open.
    pub open spec fn rests(self, order: Order) -> bool {
        self.settled(order).filled_quantity != self.settled(order).quantity
    }

    /// The state after matching an incoming order, before it comes to rest.
    pub open spec fn after_match(self, order: Order) -> EngineState {
        let matched = book_after_fills(self.book(opposite(order.side)), self.plan(order));
        EngineState {
            bids: match order.side {
                OrderSide::Buy => self.bids,
                OrderSide::Sell => matched,
            },
            asks: match order.side {
                OrderSide::Buy => matched,
                OrderSide::Sell => self.asks,
            },
            index: index_after_fills(
                self.index,
                self.makers(order),
                self.plan(order),
                self.plan(order).len(),
            ),
            ..self
        }
    }

    /// The state after `order` has come to rest: it stands on its own side
    /// under its key and in the index under its identifier.
    pub open spec fn with_resting(self, order: Order) -> EngineState {
        EngineState {
            bids: match order.side {
                OrderSide::Buy => self.bids.insert(book_key(order), order),
                OrderSide::Sell => self.bids,
            },
            asks: match order.side {
                OrderSide::Buy => self.asks,
                OrderSide::Sell => self.asks.insert(book_key(order), order),
            },
            index: self.index.insert(order.id, order),
            ..self
        }
    }

    /// The state after `order` has been recorded in the index under its
    /// identifier, without coming to rest.
    pub open spec fn with_recorded(self, order: Order) -> EngineState {
        EngineState { index: self.index.insert(order.id, order), ..self }
    }

    /// The state after an incoming order has been added: matched, then put to
    /// rest where something of it is left open and recorded in the index
    /// either way, with the trades that record its fills appended to the log.
    pub open spec fn after_add(self, order: Order, trades: Seq<Trade>) -> EngineState {
        let matched = self.after_match(order);
        let placed = if self.rests(order) {
            matched.with_resting(self.settled(order))
        } else {
            matched.with_recorded(self.settled(order))
        };
        EngineState { trades: self.trades + trades, ..placed }
    }

    /// Whether the order stored under `order_id` can be cancelled: there is
    /// one, and it has not reached a terminal status.
    pub open spec fn cancellable(self, order_id: u128) -> bool {
        self.index.contains_key(order_id) && !self.index[order_id].status.is_terminal()
    }

    /// The state after the order stored under `order_id` has been cancelled:
    /// it has left the index, and its side holds nothing under its key.
    pub open spec fn after_cancel(self, order_id: u128) -> EngineState {
        let order = self.index[order_id];
        EngineState {
            bids: match order.side {
                OrderSide::Buy => self.bids.remove(book_key(order)),
                OrderSide::Sell => self.bids,
            },
            asks: match order.side {
                OrderSide::Buy => self.asks,
                OrderSide::Sell => self.asks.remove(book_key(order)),
            },
            index: self.index.remove(order_id),
            ..self
        }
    }
}

impl View for OrderBookEngine {
    type V = EngineState;

    closed spec fn view(&self) -> EngineState {
        EngineState {
            pair: self.pair,
            bids: self.bids@,
            asks: self.asks@,
            index: index_entries(self.orders),
            trades: self.trades@,
        }
    }
}

/// The sum of the quantities of a list of trades.
pub fn traded_quantity(trades: &Vec<Trade>) -> (sum: Decimal)
    requires
        total(trade_amounts(trades@)) <= u128::MAX,
    ensures
        sum.0 == total(trade_amounts(trades@)),
{
    let ghost amounts = trade_amounts(trades@);
    let mut sum: u128 = 0;
    let mut i: usize = 0;
    while i < trades.len()
        invariant
            i <= trades.len(),
            amounts == trade_amounts(trades@),
            sum == total(amounts.take(i as int)),
            total(amounts) <= u128::MAX,
        decreases trades.len() - i,
    {
        proof {
            lemma_total_grows(amounts, i + 1);
            assert(amounts.take(i + 1).drop_last() =~= amounts.take(i as int));
        }
        sum = sum + trades[i].quantity.0;
        i = i + 1;
    }
    proof {
        assert(amounts.take(i as int) =~= amounts);
    }
    Decimal(sum)
}

/// The sum of the first amounts of a list is no more than the sum of all.
pub proof fn lemma_total_grows(amounts: Seq<nat>, count: int)
    requires
        0 <= count <= amounts.len(),
    ensures
        total(amounts.take(count)) <= total(amounts),
    decreases amounts.len(),
{
    if count < amounts.len() {
        lemma_total_grows(amounts.drop_last(), count);
        assert(amounts.drop_last().take(count) =~= amounts.take(count));
    } else {
        assert(amounts.take(count) =~= amounts);
    }
}

impl OrderBookEngine {
    /// What holds of an engine between any two of its operations.
    pub open spec fn wf(&self) -> bool {
        self@.wf()
    }

    /// An engine for `pair` with an empty book, an empty index and an empty
    /// trade log.
    pub fn new(pair: TradingPair) -> (engine: Self)
        ensures
            engine@ == EngineState::empty(pair),
            engine.wf(),
    {
        OrderBookEngine {
            pair,
            bids: BTreeMap::new(),
            asks: BTreeMap::new(),
            orders: index_new(),
            trades: Vec::new(),
        }
    }

    /// Adds an order: matches it against the opposite side, then puts what is
    /// left of it to rest on its own side. The result holds one trade for each
    /// resting order that it was matched against, in the order in which they
    /// were served. The call never fails.
    ///
    /// A resting order that was matched stands in the index as it is after
    /// its fill; one that was filled whole has left the book, one that was
    /// filled in part keeps its place. The incoming order stands in the index
    /// as it is after matching, with the sum of its trades recorded as
    /// filled: also where it was filled whole and does not rest, so that its
    /// end can be looked up.
    pub fn add_order(&mut self, order: Order) -> (result: Result<Vec<Trade>, String>)
        requires
            old(self).wf(),
            order.within_quantity(),
        ensures
            final(self).wf(),
            result is Ok,
            result matches Ok(trades) ==> {
                &&& trades@.len() == old(self)@.plan(order).len()
                &&& trade_amounts(trades@) == old(self)@.plan(order)
                &&& forall|i: int|
                    0 <= i < trades@.len() ==> records_fill(
                        #[trigger] trades@[i],
                        old(self)@.pair,
                        order,
                        old(self)@.makers(order)[i],
                        old(self)@.plan(order)[i],
                    )
                &&& forall|i: int|
                    0 <= i < trades@.len() ==> crosses(
                        order.side,
                        order.price,
                        (#[trigger] trades@[i]).price,
                    )
                &&& final(self)@ == old(self)@.after_add(order, trades@)
                &&& final(self)@.index.contains_key(order.id)
                &&& final(self)@.index[order.id] == old(self)@.settled(order)
                &&& old(self)@.rests(order) ==> final(self)@.book(order.side).contains_key(
                    book_key(order),
                ) && final(self)@.book(order.side)[book_key(order)] == old(self)@.settled(order)
                &&& total(trade_amounts(trades@)) + old(self)@.settled(order).remaining()
                    == order.remaining()
                &&& order.filled_quantity.0 == 0 ==> total(trade_amounts(trades@)) + old(
                    self,
                )@.settled(order).remaining() == order.quantity.0
            },
    {
        let ghost before = self@;
        let matched = match order.side {
            OrderSide::Buy => self.match_buy_order(&order),
            OrderSide::Sell => self.match_sell_order(&order),
        };
        let trades = match matched {
            Ok(trades) => trades,
            Err(message) => {
                return Err(message);
            },
        };
        proof {
            lemma_fill_plan_shape(
                before.makers(order),
                order.side,
                order.price,
                order.remaining(),
            );
            assert(trade_amounts(trades@) =~= before.plan(order));
        }
        let traded = traded_quantity(&trades);
        let mut taker = order;
        if traded.0 > 0 {
            taker.fill(traded);
        }
        if !taker.is_fully_filled() {
            self.insert_order(taker);
        } else {
            index_insert(&mut self.orders, taker.id, taker);
        }
        let mut i: usize = 0;
        let ghost rested = self@;
        while i < trades.len()
            invariant
                i <= trades.len(),
                self.wf(),
                self@ == (EngineState { trades: rested.trades + trades@.take(i as int), ..rested }),
            decreases trades.len() - i,
        {
            self.trades.push(trades[i].clone());
            i = i + 1;
            assert(rested.trades + trades@.take(i as int) =~= (rested.trades + trades@.take(
                i - 1,
            )).push(trades@[i - 1]));
        }
        assert(trades@.take(i as int) =~= trades@);
        Ok(trades)
    }

    /// Matches a buy order against the asks.
    fn match_buy_order(&mut self, buy_order: &Order) -> (result: Result<Vec<Trade>, String>)
        requires
            old(self).wf(),
            buy_order.side is Buy,
            buy_order.within_quantity(),
        ensures
            final(self).wf(),
            result is Ok,
            result matches Ok(trades) ==> {
                &&& trades@.len() == old(self)@.plan(*buy_order).len()
                &&& forall|i: int|
                    0 <= i < trades@.len() ==> records_fill(
                        #[trigger] trades@[i],
                        old(self)@.pair,
                        *buy_order,
                        old(self)@.makers(*buy_order)[i],
                        old(self)@.plan(*buy_order)[i],
                    )
                &&& final(self)@ == old(self)@.after_match(*buy_order)
            },
    {
        let trades = match_order(&mut self.asks, &mut self.orders, &self.pair, buy_order);
        Ok(trades)
    }

    /// Matches a sell order against the bids.
    fn match_sell_order(&mut self, sell_order: &Order) -> (result: Result<Vec<Trade>, String>)
        requires
            old(self).wf(),
            sell_order.side is Sell,
            sell_order.within_quantity(),
        ensures
            final(self).wf(),
            result is Ok,
            result matches Ok(trades) ==> {
                &&& trades@.len() == old(self)@.plan(*sell_order).len()
                &&& forall|i: int|
                    0 <= i < trades@.len() ==> records_fill(
                        #[trigger] trades@[i],
                        old(self)@.pair,
                        *sell_order,
                        old(self)@.makers(*sell_order)[i],
                        old(self)@.plan(*sell_order)[i],
                    )
                &&& final(self)@ == old(self)@.after_match(*sell_order)
            },
    {
        let trades = match_order(&mut self.bids, &mut self.orders, &self.pair, sell_order);
        Ok(trades)
    }

    /// Puts an order to rest: on its own side under its key, and in the index
    /// under its identifier, so that it can be found and cancelled from the
    /// moment it rests.
    fn insert_order(&mut self, order: Order)
        requires
            old(self).wf(),
            order.filled_quantity.0 < order.quantity.0,
        ensures
            final(self).wf(),
            final(self)@ == old(self)@.with_resting(order),
    {
        let key = key_of(&order);
        index_insert(&mut self.orders, order.id, order.clone());
        match order.side {
            OrderSide::Buy => {
                let _ = self.bids.insert(key, order);
            },
            OrderSide::Sell => {
                let _ = self.asks.insert(key, order);
            },
        }
    }

    /// Cancels the order stored under `order_id`: takes it out of the index
    /// and out of its side of the book, and returns it with its status set to
    /// cancelled. The order's side is searched under the key that the stored
    /// order gives.
    ///
    /// The call fails, and leaves the engine as it was, where the index holds
    /// nothing under `order_id` or holds an order that has reached a terminal
    /// status: a filled order stays filled. A cancelled order has left the
    /// index, so cancelling it again fails and `get_order` no longer finds it.
    pub fn cancel_order(&mut self, order_id: u128) -> (result: Result<Order, String>)
        requires
            old(self).wf(),
        ensures
            final(self).wf(),
            match result {
                Ok(order) => {
                    &&& old(self)@.cancellable(order_id)
                    &&& order == old(self)@.index[order_id].cancelled()
                    &&& final(self)@ == old(self)@.after_cancel(order_id)
                },
                Err(message) => {
                    &&& !old(self)@.cancellable(order_id)
                    &&& final(self)@ == old(self)@
                    &&& message@ == not_found_message(order_id)
                },
            },
    {
        match index_remove_live(&mut self.orders, order_id) {
            Some(stored) => {
                let mut order = stored;
                order.status = crate::types::OrderStatus::Cancelled;
                let key = key_of(&order);
                match order.side {
                    OrderSide::Buy => {
                        let _ = self.bids.remove(&key);
                    },
                    OrderSide::Sell => {
                        let _ = self.asks.remove(&key);
                    },
                }
                Ok(order)
            },
            None => {
                let mut message = String::from_str("Order not found: ");
                let text = id_to_text(order_id);
                message.append(text.as_str());
                Err(message)
            },
        }
    }

    /// A snapshot of the book: for each side the levels of its first `depth`
    /// resting orders, in the order in which they are served. Each resting
    /// order gives a level of its own, with its price and what it has open;
    /// orders of one price are not merged. The snapshot's time is that of the
    /// call.
    pub fn get_snapshot(&self, depth: usize) -> (snapshot: OrderBook)
        requires
            self.wf(),
        ensures
            snapshot.trading_pair == self@.pair,
            snapshot.bids@ == top_levels(self@.queue(OrderSide::Buy), depth as nat),
            snapshot.asks@ == top_levels(self@.queue(OrderSide::Sell), depth as nat),
    {
        let bids = levels(&self.bids, depth);
        let asks = levels(&self.asks, depth);
        OrderBook { trading_pair: self.pair.clone(), bids, asks, timestamp: current_time() }
    }

    /// The order stored under `order_id`, if there is one. The engine is left
    /// as it is.
    pub fn get_order(&self, order_id: u128) -> (found: Option<Order>)
        ensures
            found == (if self@.index.contains_key(order_id) {
                Some(self@.index[order_id])
            } else {
                None
            }),
    {
        index_get(&self.orders, order_id)
    }

    /// The executed trades, oldest first.
    pub fn trade_log(&self) -> (log: Vec<Trade>)
        ensures
            log@ == self@.trades,
    {
        let mut log: Vec<Trade> = Vec::new();
        let mut i: usize = 0;
        while i < self.trades.len()
            invariant
                i <= self.trades.len(),
                log@ == self.trades@.take(i as int),
            decreases self.trades.len() - i,
        {
            log.push(self.trades[i].clone());
            i = i + 1;
        }
        log
    }
}

} // verus!
