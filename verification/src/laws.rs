//! Laws of the engine: what holds of every state that it reaches and of every
//! sequence of its operations. Each law is stated over the same state and the
//! same functions as the contracts of the operations.

use crate::book::{
    lemma_queue_of_side, lemma_queue_with, lemma_queue_without, side_wf, top_levels,
};
use crate::matching::{
    book_after_fills, crosses, fill_plan, lemma_book_after_fills, lemma_fill_plan_shape,
    lemma_index_after_fills, lemma_index_keeps_unmatched, opposite, queue_after_fills, smaller,
    total,
};
use crate::orderbook::EngineState;
use crate::priority::{book_key, key_before, place_of, priority_keys, priority_order, BookKey};
use crate::types::{Decimal, Order, OrderSide, Trade, TradingPair};
use vstd::prelude::*;

verus! {

/// An engine starts in a valid state.
pub proof fn law_empty_state_is_valid(pair: TradingPair)
    ensures
        EngineState::empty(pair).wf(),
{
}

/// In a valid state no order is filled beyond its quantity: not one that
/// rests on the book, which has something open, and not one in the index.
pub proof fn law_orders_filled_within_quantity(state: EngineState, side: OrderSide)
    requires
        state.wf(),
    ensures
        forall|i: int|
            0 <= i < state.queue(side).len() ==> {
                &&& (#[trigger] state.queue(side)[i]).filled_quantity.0 >= 0
                &&& state.queue(side)[i].filled_quantity.0 < state.queue(side)[i].quantity.0
            },
        forall|id: u128| #[trigger]
            state.index.contains_key(id) ==> 0 <= state.index[id].filled_quantity.0
                <= state.index[id].quantity.0,
{
    lemma_queue_of_side(state.book(side), side);
}

/// Adding an order leaves a valid state valid, and the order itself is not
/// filled beyond its quantity by the fills that it takes.
pub proof fn law_add_keeps_state_valid(state: EngineState, order: Order, trades: Seq<Trade>)
    requires
        state.wf(),
        order.within_quantity(),
    ensures
        state.after_add(order, trades).wf(),
        state.settled(order).within_quantity(),
        state.settled(order).filled_quantity.0 == order.filled_quantity.0 + total(
            state.plan(order),
        ),
{
    let makers = state.makers(order);
    let plan = state.plan(order);
    lemma_fill_plan_shape(makers, order.side, order.price, order.remaining());
    lemma_book_after_fills(
        state.book(opposite(order.side)),
        order.side,
        order.price,
        order.remaining(),
    );
    lemma_queue_of_side(state.book(opposite(order.side)), opposite(order.side));
    lemma_index_after_fills(state.index, makers, plan, plan.len());
}

/// Cancelling an order leaves a valid state valid, and the cancelled order is
/// filled as the stored order was.
pub proof fn law_cancel_keeps_state_valid(state: EngineState, order_id: u128)
    requires
        state.wf(),
        state.cancellable(order_id),
    ensures
        state.after_cancel(order_id).wf(),
        state.index[order_id].cancelled().within_quantity(),
        state.index[order_id].cancelled().status is Cancelled,
{
}

/// Price-time priority. Of two resting orders of one side and one price, the
/// one that was created earlier stands before the other in the queue. Where
/// an incoming order takes anything from the later one, it has taken the
/// earlier one whole.
pub proof fn law_price_time_priority(
    book: Map<BookKey, Order>,
    taker_side: OrderSide,
    limit: Decimal,
    want: nat,
    earlier: BookKey,
    later: BookKey,
)
    requires
        side_wf(book, opposite(taker_side)),
        book.contains_key(earlier),
        book.contains_key(later),
        book[earlier].price == book[later].price,
        book[earlier].created_at.is_before(book[later].created_at),
    ensures
        ({
            let queue = priority_order(book);
            let plan = fill_plan(queue, taker_side, limit, want);
            let first = place_of(priority_keys(book.dom()), earlier);
            let second = place_of(priority_keys(book.dom()), later);
            &&& 0 <= first < second < queue.len()
            &&& queue[first] == book[earlier]
            &&& queue[second] == book[later]
            &&& second < plan.len() ==> first < plan.len() && plan[first]
                == book[earlier].remaining()
        }),
{
    let queue = priority_order(book);
    let first = place_of(priority_keys(book.dom()), earlier);
    let second = place_of(priority_keys(book.dom()), later);
    lemma_queue_of_side(book, opposite(taker_side));
    lemma_fill_plan_shape(queue, taker_side, limit, want);
    assert(first < second) by {
        if second < first {
            assert(key_before(book_key(queue[second]), book_key(queue[first])));
        }
    }
}

/// Priority by price. Of two resting orders of one side, the one with the
/// better price (the lower ask, the higher bid) stands before the other in
/// the queue, and is taken whole before anything is taken from the other.
pub proof fn law_better_price_first(
    book: Map<BookKey, Order>,
    taker_side: OrderSide,
    limit: Decimal,
    want: nat,
    better: BookKey,
    worse: BookKey,
)
    requires
        side_wf(book, opposite(taker_side)),
        book.contains_key(better),
        book.contains_key(worse),
        match taker_side {
            OrderSide::Buy => book[better].price.0 < book[worse].price.0,
            OrderSide::Sell => book[better].price.0 > book[worse].price.0,
        },
    ensures
        ({
            let queue = priority_order(book);
            let plan = fill_plan(queue, taker_side, limit, want);
            let first = place_of(priority_keys(book.dom()), better);
            let second = place_of(priority_keys(book.dom()), worse);
            &&& 0 <= first < second < queue.len()
            &&& queue[first] == book[better]
            &&& queue[second] == book[worse]
            &&& second < plan.len() ==> first < plan.len() && plan[first]
                == book[better].remaining()
        }),
{
    let queue = priority_order(book);
    let first = place_of(priority_keys(book.dom()), better);
    let second = place_of(priority_keys(book.dom()), worse);
    lemma_queue_of_side(book, opposite(taker_side));
    lemma_fill_plan_shape(queue, taker_side, limit, want);
    assert(first < second) by {
        if second < first {
            assert(key_before(book_key(queue[second]), book_key(queue[first])));
        }
    }
}

/// Crossing and conservation, of the plan alone. Every resting order that an
/// incoming order takes from crosses its limit, what it takes from each is no
/// more than that order has open, and what it takes in all is no more than it
/// wants.
pub proof fn law_fills_cross_and_add_up(
    queue: Seq<Order>,
    taker_side: OrderSide,
    limit: Decimal,
    want: nat,
)
    ensures
        ({
            let plan = fill_plan(queue, taker_side, limit, want);
            &&& plan.len() <= queue.len()
            &&& total(plan) <= want
            &&& forall|i: int|
                0 <= i < plan.len() ==> {
                    &&& crosses(taker_side, limit, (#[trigger] queue[i]).price)
                    &&& plan[i] <= queue[i].remaining()
                }
            &&& plan.len() < queue.len() ==> total(plan) == want || !crosses(
                taker_side,
                limit,
                queue[plan.len() as int].price,
            )
        }),
{
    lemma_fill_plan_shape(queue, taker_side, limit, want);
}

/// Cancellation. Cancelling a resting order takes it out of the index and out
/// of the queue of its side; the other orders of that side keep their order,
/// and the other side is as it was. The cancelled order is therefore in no
/// later snapshot and no later match, both of which read the queues alone.
pub proof fn law_cancelled_order_is_gone(state: EngineState, order_id: u128)
    requires
        state.wf(),
        state.cancellable(order_id),
        state.book(state.index[order_id].side).contains_key(book_key(state.index[order_id])),
    ensures
        ({
            let order = state.index[order_id];
            let after = state.after_cancel(order_id);
            let place = place_of(priority_keys(state.book(order.side).dom()), book_key(order));
            &&& !after.index.contains_key(order_id)
            &&& !after.book(order.side).contains_key(book_key(order))
            &&& 0 <= place < state.queue(order.side).len()
            &&& after.queue(order.side) == state.queue(order.side).remove(place)
            &&& forall|i: int|
                0 <= i < after.queue(order.side).len() ==> book_key(
                    #[trigger] after.queue(order.side)[i],
                ) != book_key(order)
            &&& after.book(opposite(order.side)) == state.book(opposite(order.side))
            &&& after.trades == state.trades
        }),
{
    let order = state.index[order_id];
    let side = order.side;
    let after = state.after_cancel(order_id);
    lemma_queue_of_side(state.book(side), side);
    lemma_queue_without(state.book(side), book_key(order));
    lemma_queue_of_side(after.book(side), side);
}

/// A resting order that a match fills in part keeps its place: it rests under
/// its old key, at the head of its side's queue, with the fill recorded and
/// its status set to partially filled. The next incoming order that crosses
/// it takes from it first, up to what it still has open.
pub proof fn law_partly_filled_maker_keeps_place(
    book: Map<BookKey, Order>,
    taker_side: OrderSide,
    limit: Decimal,
    want: nat,
    next_limit: Decimal,
    next_want: nat,
)
    requires
        side_wf(book, opposite(taker_side)),
        fill_plan(priority_order(book), taker_side, limit, want).len() > 0,
        fill_plan(priority_order(book), taker_side, limit, want).last() < priority_order(
            book,
        )[fill_plan(priority_order(book), taker_side, limit, want).len() - 1].remaining(),
    ensures
        ({
            let queue = priority_order(book);
            let plan = fill_plan(queue, taker_side, limit, want);
            let maker = queue[plan.len() - 1];
            let after = book_after_fills(book, plan);
            let left = maker.filled_by(plan.last());
            &&& after.contains_key(book_key(maker))
            &&& after[book_key(maker)] == left
            &&& priority_order(after) == seq![left] + queue.skip(plan.len() as int)
            &&& left.status is PartiallyFilled
            &&& left.remaining() == maker.remaining() - plan.last()
            &&& left.remaining() > 0
            &&& next_want > 0 && crosses(taker_side, next_limit, maker.price) ==> fill_plan(
                priority_order(after),
                taker_side,
                next_limit,
                next_want,
            )[0] == smaller(left.remaining(), next_want)
        }),
{
    let queue = priority_order(book);
    lemma_fill_plan_shape(queue, taker_side, limit, want);
    lemma_queue_of_side(book, opposite(taker_side));
    lemma_book_after_fills(book, taker_side, limit, want);
}

/// What matching leaves of a side, told of its queue: the resting orders that
/// were taken whole have left its head, an order that was taken in part
/// stands at its head, and behind it every other order rests as before.
pub proof fn law_match_consumes_head_of_queue(
    book: Map<BookKey, Order>,
    taker_side: OrderSide,
    limit: Decimal,
    want: nat,
)
    requires
        side_wf(book, opposite(taker_side)),
    ensures
        side_wf(
            book_after_fills(book, fill_plan(priority_order(book), taker_side, limit, want)),
            opposite(taker_side),
        ),
        priority_order(
            book_after_fills(book, fill_plan(priority_order(book), taker_side, limit, want)),
        ) == queue_after_fills(
            priority_order(book),
            fill_plan(priority_order(book), taker_side, limit, want),
        ),
{
    lemma_book_after_fills(book, taker_side, limit, want);
}

/// An order that comes to rest stands in the queue of its side at the place of
/// its key, and in the index under its identifier. Where another order rested
/// under the same key, the new one stands in its place; otherwise every order
/// that rested before rests as before.
pub proof fn law_rested_order_is_queued_and_indexed(state: EngineState, order: Order)
    requires
        state.wf(),
        order.filled_quantity.0 < order.quantity.0,
    ensures
        ({
            let after = state.with_resting(order);
            let book = state.book(order.side);
            let place = place_of(priority_keys(book.dom()), book_key(order));
            &&& after.wf()
            &&& after.index.contains_key(order.id) && after.index[order.id] == order
            &&& after.book(order.side).contains_key(book_key(order))
            &&& after.book(order.side)[book_key(order)] == order
            &&& 0 <= place <= state.queue(order.side).len()
            &&& after.queue(order.side) == (if book.contains_key(book_key(order)) {
                state.queue(order.side).update(place, order)
            } else {
                state.queue(order.side).insert(place, order)
            })
            &&& after.queue(opposite(order.side)) == state.queue(opposite(order.side))
        }),
{
    lemma_queue_with(state.book(order.side), book_key(order), order);
}

/// An engine that has seen no order has no resting order to reach.
pub proof fn law_empty_state_is_reachable(pair: TradingPair)
    ensures
        EngineState::empty(pair).resting_orders_reachable(),
{
}

/// Every resting order stays reachable by its identifier when an order is
/// added, provided that the incoming order has not reached a terminal status
/// and that no resting order bears its identifier.
pub proof fn law_add_keeps_resting_orders_reachable(
    state: EngineState,
    order: Order,
    trades: Seq<Trade>,
)
    requires
        state.wf(),
        state.resting_orders_reachable(),
        order.within_quantity(),
        !order.status.is_terminal(),
        !state.holds_resting(order.id),
    ensures
        state.after_add(order, trades).resting_orders_reachable(),
{
    let side = order.side;
    let other = opposite(side);
    let book = state.book(other);
    let makers = state.makers(order);
    let plan = state.plan(order);
    let matched = state.after_match(order);
    let after = state.after_add(order, trades);
    let taker = state.settled(order);
    lemma_fill_plan_shape(makers, side, order.price, order.remaining());
    lemma_book_after_fills(book, side, order.price, order.remaining());
    lemma_queue_of_side(book, other);
    lemma_queue_of_side(matched.book(other), other);
    assert forall|i: int, j: int| 0 <= i < j < makers.len() implies makers[i].id
        != makers[j].id by {
        assert(key_before(book_key(makers[i]), book_key(makers[j])));
    }
    assert forall|at: OrderSide, key: BookKey| #[trigger]
        matched.book(at).contains_key(key) implies {
        &&& matched.index.contains_key(matched.book(at)[key].id)
        &&& matched.index[matched.book(at)[key].id] == matched.book(at)[key]
        &&& !matched.book(at)[key].status.is_terminal()
        &&& matched.book(at)[key].id != order.id
    } by {
        let resting = matched.book(at)[key];
        if at == side {
            assert(state.book(at).contains_key(key));
            lemma_index_keeps_unmatched(state.index, makers, plan, plan.len(), resting.id);
        } else {
            let place = place_of(priority_keys(matched.book(other).dom()), key);
            let partly = plan.len() > 0 && plan.last() < makers[plan.len() - 1].remaining();
            if !(partly && place == 0) {
                lemma_index_keeps_unmatched(state.index, makers, plan, plan.len(), resting.id);
            }
        }
    }
    assert forall|at: OrderSide, key: BookKey| #[trigger]
        after.book(at).contains_key(key) implies {
        &&& after.index.contains_key(after.book(at)[key].id)
        &&& after.index[after.book(at)[key].id] == after.book(at)[key]
        &&& !after.book(at)[key].status.is_terminal()
    } by {
        if !(state.rests(order) && at == side && key == book_key(taker)) {
            assert(matched.book(at).contains_key(key));
        }
    }
}

/// Every resting order stays reachable by its identifier when an order is
/// cancelled.
pub proof fn law_cancel_keeps_resting_orders_reachable(state: EngineState, order_id: u128)
    requires
        state.wf(),
        state.resting_orders_reachable(),
        state.cancellable(order_id),
    ensures
        state.after_cancel(order_id).resting_orders_reachable(),
{
    let after = state.after_cancel(order_id);
    assert forall|at: OrderSide, key: BookKey| #[trigger]
        after.book(at).contains_key(key) implies {
        &&& after.index.contains_key(after.book(at)[key].id)
        &&& after.index[after.book(at)[key].id] == after.book(at)[key]
        &&& !after.book(at)[key].status.is_terminal()
    } by {
        assert(state.book(at).contains_key(key));
    }
}

/// Where every resting order is reachable, a resting order is cancelled by
/// its identifier: the order that the index holds under it is that order, it
/// can be cancelled, and cancelling it takes it off its side.
pub proof fn law_resting_order_is_cancelled_by_id(
    state: EngineState,
    side: OrderSide,
    key: BookKey,
)
    requires
        state.wf(),
        state.resting_orders_reachable(),
        state.book(side).contains_key(key),
    ensures
        ({
            let order = state.book(side)[key];
            &&& state.cancellable(order.id)
            &&& state.index[order.id] == order
            &&& state.after_cancel(order.id).book(side) == state.book(side).remove(key)
            &&& !state.after_cancel(order.id).index.contains_key(order.id)
        }),
{
}

/// A snapshot shows the queue's head: the order at place `i` of a side's
/// queue gives level `i` of that side, for each `i` below the depth.
pub proof fn law_snapshot_follows_queue(queue: Seq<Order>, depth: nat, i: int)
    requires
        0 <= i < queue.len(),
        i < depth,
        queue[i].within_quantity(),
    ensures
        i < top_levels(queue, depth).len(),
        top_levels(queue, depth).len() <= depth,
        top_levels(queue, depth)[i].price == queue[i].price,
        top_levels(queue, depth)[i].quantity.0 == queue[i].remaining(),
{
}

} // verus!
