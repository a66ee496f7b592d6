//! Matching an incoming order against the resting orders of the opposite
//! side.
//!
//! The resting orders are served in priority order. Each one whose price
//! crosses the incoming order's limit gives up as much as it has open, or as
//! much as the incoming order still wants, whichever is less, at its own
//! price. Matching ends when the incoming order wants no more, when the side
//! is empty, or at the first resting order whose price does not cross.

use crate::ambient::{current_time, fresh_id};
use crate::book::{front, side_wf};
use crate::index::{index_entries, index_insert, index_wf};
use crate::priority::{
    first_key, key_before, lemma_keys_without_head, lemma_priority_keys, priority_keys,
    priority_order, BookKey,
};
use crate::types::{Decimal, Order, OrderSide, Timestamp, Trade, TradingPair};
use dashmap::DashMap;
use std::collections::BTreeMap;
use vstd::laws_cmp::*;
use vstd::prelude::*;
use vstd::std_specs::btree::*;

verus! {

broadcast use {group_btree_axioms, group_laws_cmp};

/// The side that an order of `side` trades against.
pub open spec fn opposite(side: OrderSide) -> OrderSide {
    match side {
        OrderSide::Buy => OrderSide::Sell,
        OrderSide::Sell => OrderSide::Buy,
    }
}

/// Whether a resting order priced at `maker_price` may trade with an incoming
/// order of `taker_side` whose limit is `limit`: a buyer pays no more than its
/// limit, a seller takes no less.
pub open spec fn crosses(taker_side: OrderSide, limit: Decimal, maker_price: Decimal) -> bool {
    match taker_side {
        OrderSide::Buy => maker_price.0 <= limit.0,
        OrderSide::Sell => maker_price.0 >= limit.0,
    }
}

/// The smaller of two amounts.
pub open spec fn smaller(a: nat, b: nat) -> nat {
    if a <= b {
        a
    } else {
        b
    }
}

/// The amounts that an incoming order takes from the resting orders of
/// `queue`, which stand in serving order: the amount at position `i` is taken
/// from `queue[i]`. `want` is what the incoming order has open.
pub open spec fn fill_plan(
    queue: Seq<Order>,
    taker_side: OrderSide,
    limit: Decimal,
    want: nat,
) -> Seq<nat>
    decreases queue.len(),
{
    if queue.len() == 0 || want == 0 || !crosses(taker_side, limit, queue[0].price) {
        Seq::empty()
    } else {
        let amount = smaller(queue[0].remaining(), want);
        seq![amount] + fill_plan(queue.drop_first(), taker_side, limit, (want - amount) as nat)
    }
}

/// The sum of a list of amounts.
pub open spec fn total(amounts: Seq<nat>) -> nat
    decreases amounts.len(),
{
    if amounts.len() == 0 {
        0
    } else {
        total(amounts.drop_last()) + amounts.last()
    }
}

/// One side of the book after the fills of a plan. The plan takes from the
/// orders under the first keys of the serving order, one amount from each.
/// Those orders have left the side, but for the last of them where the plan
/// takes less than it has open: that one rests under its old key with the fill
/// recorded.
pub open spec fn book_after_fills(book: Map<BookKey, Order>, plan: Seq<nat>) -> Map<
    BookKey,
    Order,
> {
    let keys = priority_keys(book.dom());
    let last = plan.len() - 1;
    if plan.len() > 0 && plan.last() < book[keys[last]].remaining() {
        book.remove_keys(keys.take(last).to_set()).insert(
            keys[last],
            book[keys[last]].filled_by(plan.last()),
        )
    } else {
        book.remove_keys(keys.take(plan.len() as int).to_set())
    }
}

/// The point index after the first `count` fills of a plan have been
/// recorded: each resting order that was matched is stored under its
/// identifier as it stands after its fill, a later one over an earlier one.
pub open spec fn index_after_fills(
    index: Map<u128, Order>,
    queue: Seq<Order>,
    plan: Seq<nat>,
    count: nat,
) -> Map<u128, Order>
    decreases count,
{
    if count == 0 {
        index
    } else {
        index_after_fills(index, queue, plan, (count - 1) as nat).insert(
            queue[count - 1].id,
            queue[count - 1].filled_by(plan[count - 1]),
        )
    }
}

/// `trade` records that `taker` took `amount` from `maker`: it carries the
/// maker's price, the amount, and the two orders and accounts, each on the
/// side on which it trades.
pub open spec fn records_fill(
    trade: Trade,
    pair: TradingPair,
    taker: Order,
    maker: Order,
    amount: nat,
) -> bool {
    &&& trade.trading_pair == pair
    &&& trade.price == maker.price
    &&& trade.quantity.0 == amount
    &&& match taker.side {
        OrderSide::Buy => {
            &&& trade.buyer_id == taker.account_id
            &&& trade.buy_order_id == taker.id
            &&& trade.seller_id == maker.account_id
            &&& trade.sell_order_id == maker.id
        },
        OrderSide::Sell => {
            &&& trade.buyer_id == maker.account_id
            &&& trade.buy_order_id == maker.id
            &&& trade.seller_id == taker.account_id
            &&& trade.sell_order_id == taker.id
        },
    }
}

/// Taking the first order out of a side leaves the rest of its queue.
pub proof fn lemma_queue_without_first(book: Map<BookKey, Order>)
    requires
        book.dom().finite(),
        book.dom().len() > 0,
    ensures
        priority_order(book).len() > 0,
        priority_keys(book.dom())[0] == first_key(book.dom()),
        priority_order(book)[0] == book[first_key(book.dom())],
        priority_keys(book.remove(first_key(book.dom())).dom()) == priority_keys(
            book.dom(),
        ).drop_first(),
        priority_order(book.remove(first_key(book.dom()))) == priority_order(book).drop_first(),
{
    let key = first_key(book.dom());
    let rest = book.remove(key);
    lemma_priority_keys(book.dom());
    lemma_priority_keys(rest.dom());
}

/// The sum of a list of amounts is its first amount and the sum of the rest.
pub proof fn lemma_total_from_head(head: nat, rest: Seq<nat>)
    ensures
        total(seq![head] + rest) == head + total(rest),
    decreases rest.len(),
{
    let whole = seq![head] + rest;
    if rest.len() == 0 {
        assert(total(whole.drop_last()) == 0);
    } else {
        lemma_total_from_head(head, rest.drop_last());
        assert(whole.drop_last() =~= seq![head] + rest.drop_last());
    }
}

/// The shape of a fill plan. An incoming order takes from the resting orders
/// at the head of the queue, one after the other, each of which crosses; it
/// takes each but the last of them whole, and no more in all than it wants.
/// It stops before a resting order only where it wants no more or where that
/// order does not cross.
pub proof fn lemma_fill_plan_shape(
    queue: Seq<Order>,
    taker_side: OrderSide,
    limit: Decimal,
    want: nat,
)
    ensures
        fill_plan(queue, taker_side, limit, want).len() <= queue.len(),
        total(fill_plan(queue, taker_side, limit, want)) <= want,
        forall|i: int|
            0 <= i < fill_plan(queue, taker_side, limit, want).len() ==> crosses(
                taker_side,
                limit,
                (#[trigger] queue[i]).price,
            ),
        forall|i: int|
            0 <= i < fill_plan(queue, taker_side, limit, want).len() ==> #[trigger] fill_plan(
                queue,
                taker_side,
                limit,
                want,
            )[i] <= queue[i].remaining(),
        forall|i: int|
            0 <= i < fill_plan(queue, taker_side, limit, want).len() - 1 ==> #[trigger] fill_plan(
                queue,
                taker_side,
                limit,
                want,
            )[i] == queue[i].remaining(),
        total(fill_plan(queue, taker_side, limit, want)) < want ==> forall|i: int|
            0 <= i < fill_plan(queue, taker_side, limit, want).len() ==> #[trigger] fill_plan(
                queue,
                taker_side,
                limit,
                want,
            )[i] == queue[i].remaining(),
        fill_plan(queue, taker_side, limit, want).len() < queue.len() ==> total(
            fill_plan(queue, taker_side, limit, want),
        ) == want || !crosses(
            taker_side,
            limit,
            queue[fill_plan(queue, taker_side, limit, want).len() as int].price,
        ),
    decreases queue.len(),
{
    let plan = fill_plan(queue, taker_side, limit, want);
    if queue.len() > 0 && want > 0 && crosses(taker_side, limit, queue[0].price) {
        let amount = smaller(queue[0].remaining(), want);
        let left = (want - amount) as nat;
        let tail = queue.drop_first();
        let rest = fill_plan(tail, taker_side, limit, left);
        lemma_fill_plan_shape(tail, taker_side, limit, left);
        lemma_total_from_head(amount, rest);
        assert forall|i: int| 0 <= i < plan.len() implies crosses(
            taker_side,
            limit,
            (#[trigger] queue[i]).price,
        ) && plan[i] <= queue[i].remaining() by {
            if i > 0 {
                assert(queue[i] == tail[i - 1]);
            }
        }
    }
}

/// The queue of a side after the fills of a plan: the resting orders that
/// were filled whole have left its head, and one that was filled in part
/// stands at its head with the fill recorded.
pub open spec fn queue_after_fills(queue: Seq<Order>, plan: Seq<nat>) -> Seq<Order> {
    if plan.len() > 0 && plan.last() < queue[plan.len() - 1].remaining() {
        seq![queue[plan.len() - 1].filled_by(plan.last())] + queue.skip(plan.len() as int)
    } else {
        queue.skip(plan.len() as int)
    }
}

/// What the fills of a plan leave of a side of the book, told of its queue:
/// see `queue_after_fills`. A side that was valid stays valid.
pub proof fn lemma_book_after_fills(
    book: Map<BookKey, Order>,
    taker_side: OrderSide,
    limit: Decimal,
    want: nat,
)
    requires
        side_wf(book, opposite(taker_side)),
    ensures
        side_wf(
            book_after_fills(book, fill_plan(priority_order(book), taker_side, limit, want)),
            opposite(taker_side),
        ),
        priority_order(
            book_after_fills(book, fill_plan(priority_order(book), taker_side, limit, want)),
        ) == queue_after_fills(
            priority_order(book),
            fill_plan(priority_order(book), taker_side, limit, want),
        ),
{
    let keys = priority_keys(book.dom());
    let queue = priority_order(book);
    let plan = fill_plan(queue, taker_side, limit, want);
    let after = book_after_fills(book, plan);
    let count = plan.len() as int;
    lemma_priority_keys(book.dom());
    lemma_fill_plan_shape(queue, taker_side, limit, want);
    if count > 0 && plan.last() < book[keys[count - 1]].remaining() {
        let last = count - 1;
        let base = book.remove_keys(keys.take(last).to_set());
        lemma_keys_without_head(book.dom(), last);
        assert(base.dom() =~= book.dom().difference(keys.take(last).to_set()));
        let left = keys.skip(last);
        assert(left[0] == keys[last]);
        assert(after.dom() =~= base.dom());
        lemma_priority_keys(after.dom());
        let expected = queue_after_fills(queue, plan);
        assert forall|i: int| 0 <= i < left.len() implies #[trigger] priority_order(after)[i]
            == expected[i] by {
            if i > 0 {
                assert(key_before(keys[last], keys[last + i]));
            }
        }
    } else {
        lemma_keys_without_head(book.dom(), count);
        assert(after.dom() =~= book.dom().difference(keys.take(count).to_set()));
        lemma_priority_keys(after.dom());
    }
}

/// Recording fills in the index keeps it valid.
pub proof fn lemma_index_after_fills(
    index: Map<u128, Order>,
    queue: Seq<Order>,
    plan: Seq<nat>,
    count: nat,
)
    requires
        index_wf(index),
        count <= plan.len(),
        count <= queue.len(),
        forall|i: int|
            0 <= i < count ==> (#[trigger] queue[i]).within_quantity() && plan[i]
                <= queue[i].remaining(),
    ensures
        index_wf(index_after_fills(index, queue, plan, count)),
    decreases count,
{
    if count > 0 {
        lemma_index_after_fills(index, queue, plan, (count - 1) as nat);
    }
}

/// Recording fills leaves the index as it was under an identifier that none
/// of the matched orders bears.
pub proof fn lemma_index_keeps_unmatched(
    index: Map<u128, Order>,
    queue: Seq<Order>,
    plan: Seq<nat>,
    count: nat,
    id: u128,
)
    requires
        count <= queue.len(),
        count <= plan.len(),
        forall|i: int| 0 <= i < count ==> (#[trigger] queue[i]).id != id,
    ensures
        index_after_fills(index, queue, plan, count).contains_key(id) == index.contains_key(id),
        index_after_fills(index, queue, plan, count)[id] == index[id],
    decreases count,
{
    if count > 0 {
        lemma_index_keeps_unmatched(index, queue, plan, (count - 1) as nat, id);
    }
}

/// A key is among the first `count + 1` keys of a list where it is among the
/// first `count` or is the key at place `count`.
pub proof fn lemma_head_grows(keys: Seq<BookKey>, count: int, key: BookKey)
    requires
        0 <= count < keys.len(),
    ensures
        keys.take(count + 1).to_set().contains(key) <==> (keys.take(count).to_set().contains(
            key,
        ) || key == keys[count]),
{
    let longer = keys.take(count + 1);
    if key == keys[count] {
        assert(longer[count] == key);
    }
}

/// An incoming order that wants nothing takes nothing.
pub proof fn lemma_nothing_wanted(queue: Seq<Order>, taker_side: OrderSide, limit: Decimal)
    ensures
        fill_plan(queue, taker_side, limit, 0) == Seq::<nat>::empty(),
{
}

/// Whether a resting order priced at `maker_price` may trade with `taker`.
pub fn price_crosses(taker: &Order, maker_price: Decimal) -> (crossing: bool)
    ensures
        crossing == crosses(taker.side, taker.price, maker_price),
{
    match taker.side {
        OrderSide::Buy => maker_price.0 <= taker.price.0,
        OrderSide::Sell => maker_price.0 >= taker.price.0,
    }
}

/// The record of one fill: `taker` took `amount` from `maker`, at the maker's
/// price. The trade's identifier and time are the caller's to choose.
pub fn make_trade(
    id: u128,
    timestamp: Timestamp,
    pair: &TradingPair,
    taker: &Order,
    maker: &Order,
    amount: Decimal,
) -> (trade: Trade)
    ensures
        trade.id == id,
        trade.timestamp == timestamp,
        records_fill(trade, *pair, *taker, *maker, amount.0 as nat),
{
    match taker.side {
        OrderSide::Buy => Trade {
            id,
            trading_pair: pair.clone(),
            buyer_id: taker.account_id.clone(),
            seller_id: maker.account_id.clone(),
            buy_order_id: taker.id,
            sell_order_id: maker.id,
            price: maker.price,
            quantity: amount,
            timestamp,
        },
        OrderSide::Sell => Trade {
            id,
            trading_pair: pair.clone(),
            buyer_id: maker.account_id.clone(),
            seller_id: taker.account_id.clone(),
            buy_order_id: maker.id,
            sell_order_id: taker.id,
            price: maker.price,
            quantity: amount,
            timestamp,
        },
    }
}

/// Matches `taker` against `book`, the side opposite to its own, and records
/// each resting order that it matched in `index`. The result holds one trade
/// for each fill of the plan, in the order of the fills. Each trade gets a
/// fresh identifier and the time of its making.
pub(crate) fn match_order(
    book: &mut BTreeMap<BookKey, Order>,
    index: &mut DashMap<u128, Order>,
    pair: &TradingPair,
    taker: &Order,
) -> (trades: Vec<Trade>)
    requires
        side_wf(old(book)@, opposite(taker.side)),
        index_wf(index_entries(*old(index))),
        taker.within_quantity(),
    ensures
        side_wf(final(book)@, opposite(taker.side)),
        index_wf(index_entries(*final(index))),
        trades@.len() == fill_plan(
            priority_order(old(book)@),
            taker.side,
            taker.price,
            taker.remaining(),
        ).len(),
        forall|i: int|
            0 <= i < trades@.len() ==> records_fill(
                #[trigger] trades@[i],
                *pair,
                *taker,
                priority_order(old(book)@)[i],
                fill_plan(
                    priority_order(old(book)@),
                    taker.side,
                    taker.price,
                    taker.remaining(),
                )[i],
            ),
        final(book)@ == book_after_fills(
            old(book)@,
            fill_plan(priority_order(old(book)@), taker.side, taker.price, taker.remaining()),
        ),
        index_entries(*final(index)) == index_after_fills(
            index_entries(*old(index)),
            priority_order(old(book)@),
            fill_plan(priority_order(old(book)@), taker.side, taker.price, taker.remaining()),
            trades@.len(),
        ),
{
    let ghost side = opposite(taker.side);
    let ghost book0 = book@;
    let ghost index0 = index_entries(*index);
    let ghost keys0 = priority_keys(book0.dom());
    let ghost queue0 = priority_order(book0);
    let ghost want0 = taker.remaining();
    let ghost plan0 = fill_plan(queue0, taker.side, taker.price, want0);
    let mut trades: Vec<Trade> = Vec::new();
    let mut open: u128 = taker.remaining_quantity().0;
    proof {
        assert(plan0.skip(0) =~= plan0);
        assert(queue0.skip(0) =~= queue0);
        assert(keys0.skip(0) =~= keys0);
        assert(book0 =~= book0.remove_keys(keys0.take(0).to_set()));
    }
    while open > 0
        invariant
            side == opposite(taker.side),
            side_wf(book@, side),
            index_wf(index_entries(*index)),
            side_wf(book0, side),
            keys0 == priority_keys(book0.dom()),
            queue0 == priority_order(book0),
            plan0 == fill_plan(queue0, taker.side, taker.price, want0),
            trades@.len() <= plan0.len(),
            trades@.len() <= queue0.len(),
            fill_plan(priority_order(book@), taker.side, taker.price, open as nat) == plan0.skip(
                trades@.len() as int,
            ),
            open > 0 ==> {
                &&& priority_keys(book@.dom()) == keys0.skip(trades@.len() as int)
                &&& priority_order(book@) == queue0.skip(trades@.len() as int)
                &&& book@ == book0.remove_keys(keys0.take(trades@.len() as int).to_set())
            },
            book@ == book_after_fills(book0, plan0.take(trades@.len() as int)),
            index_entries(*index) == index_after_fills(index0, queue0, plan0, trades@.len() as nat),
            forall|i: int|
                0 <= i < trades@.len() ==> records_fill(
                    #[trigger] trades@[i],
                    *pair,
                    *taker,
                    queue0[i],
                    plan0[i],
                ),
        ensures
            side_wf(book@, side),
            index_wf(index_entries(*index)),
            trades@.len() == plan0.len(),
            book@ == book_after_fills(book0, plan0),
            index_entries(*index) == index_after_fills(index0, queue0, plan0, trades@.len() as nat),
            forall|i: int|
                0 <= i < trades@.len() ==> records_fill(
                    #[trigger] trades@[i],
                    *pair,
                    *taker,
                    queue0[i],
                    plan0[i],
                ),
        decreases book@.dom().len(),
    {
        let ghost before = book@;
        let ghost queue = priority_order(before);
        let ghost done = trades@.len() as int;
        let key: BookKey;
        match front(book) {
            None => {
                proof {
                    // The side is empty: the plan holds no further fill.
                    lemma_priority_keys(before.dom());
                    assert(queue.len() == 0);
                    assert(plan0.skip(done).len() == 0);
                    assert(plan0.take(done) =~= plan0);
                }
                break ;
            },
            Some((first, resting)) => {
                if !price_crosses(taker, resting.price) {
                    proof {
                        // The head of the queue does not cross: the plan ends here.
                        lemma_queue_without_first(before);
                        assert(plan0.skip(done).len() == 0);
                        assert(plan0.take(done) =~= plan0);
                    }
                    break ;
                }
                key = *first;
            },
        }
        proof {
            // The head of the queue is the next order of the plan.
            lemma_queue_without_first(before);
            lemma_priority_keys(book0.dom());
            assert(before.contains_key(key));
            assert(queue[0] == queue0[done]);
            assert(key == keys0.skip(done)[0]);
            assert(key == keys0[done]);
            assert(before[key] == book0[key]);
        }
        let taken = book.remove(&key);
        assert(taken == Some(before[key]));
        let mut maker = taken.unwrap();
        let ghost resting = maker;
        let available = maker.remaining_quantity();
        let amount = if available.0 <= open {
            available
        } else {
            Decimal(open)
        };
        maker.fill(amount);
        open = open - amount.0;
        let trade = make_trade(fresh_id(), current_time(), pair, taker, &maker, amount);
        trades.push(trade);
        index_insert(index, maker.id, maker.clone());
        proof {
            // The amount taken is the next amount of the plan, and the rest of
            // the plan is the plan for the rest of the queue.
            let rest = fill_plan(queue.drop_first(), taker.side, taker.price, open as nat);
            assert(plan0.skip(done) == seq![amount.0 as nat] + rest);
            assert(plan0.skip(done)[0] == amount.0);
            assert(plan0[done] == amount.0);
            assert(plan0.skip(done + 1) =~= plan0.skip(done).drop_first());
            assert(plan0.skip(done).drop_first() =~= rest);
            assert(queue0.skip(done + 1) =~= queue0.skip(done).drop_first());
            assert(keys0.skip(done + 1) =~= keys0.skip(done).drop_first());
            assert(records_fill(trade, *pair, *taker, resting, amount.0 as nat));
            assert(plan0.take(done + 1).last() == amount.0);
            assert(resting == book0[keys0[done]]);
            assert forall|other: BookKey|
                keys0.take(done + 1).to_set().contains(other) <==> (keys0.take(
                    done,
                ).to_set().contains(other) || other == key) by {
                lemma_head_grows(keys0, done, other);
            }
        }
        if !maker.is_fully_filled() {
            proof {
                // Taken in part: the incoming order wants no more, so this was
                // the last fill of the plan.
                lemma_nothing_wanted(queue.drop_first(), taker.side, taker.price);
                assert(before.remove(key).insert(key, maker) =~= before.insert(key, maker));
            }
            let _ = book.insert(key, maker);
            proof {
                lemma_nothing_wanted(priority_order(book@), taker.side, taker.price);
                assert(plan0.skip(done + 1).len() == 0);
                assert(plan0.take(done + 1) =~= plan0);
                assert(book@ =~= book_after_fills(book0, plan0));
            }
            break ;
        }
        proof {
            // Taken whole: the order has left the side.
            assert(book@ =~= book0.remove_keys(keys0.take(done + 1).to_set()));
            if open == 0 {
                lemma_nothing_wanted(priority_order(book@), taker.side, taker.price);
                assert(plan0.skip(done + 1).len() == 0);
                assert(plan0.take(done + 1) =~= plan0);
            }
        }
    }
    trades
}

} // verus!
