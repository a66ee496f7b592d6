//! One side of the book: resting orders in a sorted map, keyed by priority.

use crate::priority::{
    book_key, first_key, in_serving_order, key_before, leads, lemma_keys_with,
    lemma_keys_without, lemma_leader_is_first, lemma_place_of, lemma_priority_keys,
    lemma_serving_order_is_unique, place_of, priority_keys, priority_order, BookKey,
};
use crate::types::{Decimal, Order, OrderSide, PriceLevel};
use std::collections::BTreeMap;
use vstd::laws_cmp::*;
use vstd::prelude::*;
use vstd::std_specs::btree::*;
use vstd::std_specs::cmp::OrdSpec;

verus! {

broadcast use {group_btree_axioms, group_laws_cmp};

/// What holds of every side of the book: its orders are finitely many, each
/// belongs to the side, rests under its own key and has something left open.
pub open spec fn side_wf(book: Map<BookKey, Order>, side: OrderSide) -> bool {
    &&& book.dom().finite()
    &&& forall|key: BookKey| #[trigger]
        book.contains_key(key) ==> {
            &&& book[key].side == side
            &&& book_key(book[key]) == key
            &&& book[key].filled_quantity.0 < book[key].quantity.0
        }
}

/// The level that a snapshot shows for a resting order.
pub open spec fn level_of(order: Order) -> PriceLevel {
    PriceLevel { price: order.price, quantity: Decimal(order.remaining() as u128) }
}

/// The levels of the first `depth` orders of a queue, or of all its orders
/// where it holds fewer.
pub open spec fn top_levels(queue: Seq<Order>, depth: nat) -> Seq<PriceLevel> {
    Seq::new(
        if depth <= queue.len() {
            depth
        } else {
            queue.len()
        },
        |i: int| level_of(queue[i]),
    )
}

/// The queue of a valid side: it holds each resting order once, at the place
/// of its key, and holds them in serving order.
pub proof fn lemma_queue_of_side(book: Map<BookKey, Order>, side: OrderSide)
    requires
        side_wf(book, side),
    ensures
        priority_order(book).len() == book.dom().len(),
        forall|i: int|
            0 <= i < priority_order(book).len() ==> {
                let order = #[trigger] priority_order(book)[i];
                &&& book.contains_key(book_key(order))
                &&& book[book_key(order)] == order
                &&& priority_keys(book.dom())[i] == book_key(order)
                &&& order.side == side
                &&& order.filled_quantity.0 < order.quantity.0
            },
        forall|i: int, j: int|
            0 <= i < j < priority_order(book).len() ==> key_before(
                book_key(priority_order(book)[i]),
                book_key(priority_order(book)[j]),
            ),
        forall|key: BookKey| #[trigger]
            book.contains_key(key) ==> {
                &&& 0 <= place_of(priority_keys(book.dom()), key) < priority_order(book).len()
                &&& priority_order(book)[place_of(priority_keys(book.dom()), key)] == book[key]
            },
{
    let keys = priority_keys(book.dom());
    let queue = priority_order(book);
    lemma_priority_keys(book.dom());
    assert forall|i: int| 0 <= i < queue.len() implies {
        let order = #[trigger] queue[i];
        &&& book.contains_key(book_key(order))
        &&& book[book_key(order)] == order
        &&& keys[i] == book_key(order)
        &&& order.side == side
        &&& order.filled_quantity.0 < order.quantity.0
    } by {
        assert(book.contains_key(keys[i]));
    }
    assert forall|key: BookKey| #[trigger] book.contains_key(key) implies {
        &&& 0 <= place_of(keys, key) < queue.len()
        &&& queue[place_of(keys, key)] == book[key]
    } by {
        lemma_keys_without(book.dom(), key);
    }
}

/// Taking the order under `key` out of a side takes it out of the queue and
/// leaves the other orders in their order.
pub proof fn lemma_queue_without(book: Map<BookKey, Order>, key: BookKey)
    requires
        book.dom().finite(),
        book.contains_key(key),
    ensures
        priority_order(book.remove(key)) == priority_order(book).remove(
            place_of(priority_keys(book.dom()), key),
        ),
{
    let keys = priority_keys(book.dom());
    let place = place_of(keys, key);
    lemma_priority_keys(book.dom());
    lemma_keys_without(book.dom(), key);
    let shorter = keys.remove(place);
    assert forall|i: int| 0 <= i < shorter.len() implies priority_order(book.remove(key))[i]
        == priority_order(book).remove(place)[i] by {
        let from = if i < place {
            i
        } else {
            i + 1
        };
        if from < place {
            assert(key_before(keys[from], keys[place]));
        } else {
            assert(key_before(keys[place], keys[from]));
        }
    }
}

/// Putting an order under `key` puts it into the queue at the place of `key`:
/// in place of the order that rested there, or between the orders before and
/// after, which keep their order.
pub proof fn lemma_queue_with(book: Map<BookKey, Order>, key: BookKey, order: Order)
    requires
        book.dom().finite(),
    ensures
        0 <= place_of(priority_keys(book.dom()), key) <= priority_order(book).len(),
        book.contains_key(key) ==> place_of(priority_keys(book.dom()), key) < priority_order(
            book,
        ).len(),
        priority_order(book.insert(key, order)) == (if book.contains_key(key) {
            priority_order(book).update(place_of(priority_keys(book.dom()), key), order)
        } else {
            priority_order(book).insert(place_of(priority_keys(book.dom()), key), order)
        }),
{
    let keys = priority_keys(book.dom());
    let changed = book.insert(key, order);
    lemma_priority_keys(book.dom());
    lemma_place_of(keys, key);
    if book.contains_key(key) {
        assert(changed.dom() =~= book.dom());
    } else {
        lemma_keys_with(book.dom(), key);
    }
}

/// The sorted map compares two keys as `key_before` does.
pub proof fn lemma_key_order(a: BookKey, b: BookKey)
    ensures
        (a.cmp_spec(&b) is Less) <==> key_before(a, b),
{
}

/// Keys that the sorted map holds to be rising are in serving order.
pub proof fn lemma_rising_keys(keys: Seq<BookKey>)
    requires
        increasing_seq(keys),
    ensures
        in_serving_order(keys),
{
    assert forall|i: int, j: int| 0 <= i < j < keys.len() implies key_before(keys[i], keys[j]) by {
        lemma_key_order(keys[i], keys[j]);
    }
}

/// Entries that come out in strictly rising key order, one for each key of
/// `book`, come out in serving order.
pub proof fn lemma_walk_is_serving_order(
    book: Map<BookKey, Order>,
    walk: Seq<(&BookKey, &Order)>,
)
    requires
        book.dom().finite(),
        walk.len() == book.dom().len(),
        forall|i: int, j: int| 0 <= i < j < walk.len() ==> key_before(*walk[i].0, *walk[j].0),
        forall|i: int|
            0 <= i < walk.len() ==> book.contains_key(*walk[i].0) && book[*walk[i].0]
                == *walk[i].1,
        forall|key: BookKey|
            book.contains_key(key) ==> exists|i: int| 0 <= i < walk.len() && *walk[i].0 == key,
    ensures
        priority_order(book).len() == walk.len(),
        forall|i: int|
            0 <= i < walk.len() ==> priority_keys(book.dom())[i] == *walk[i].0 && priority_order(
                book,
            )[i] == *walk[i].1,
{
    let keys = Seq::new(walk.len(), |i: int| *walk[i].0);
    assert forall|key: BookKey| book.dom().contains(key) <==> keys.contains(key) by {
        if book.dom().contains(key) {
            let i = choose|i: int| 0 <= i < walk.len() && *walk[i].0 == key;
            assert(keys[i] == key);
        }
    }
    lemma_serving_order_is_unique(book.dom(), keys);
}

/// The entry that is served first, if the side holds any order.
#[verifier::loop_isolation(false)]
pub fn front<'a>(book: &'a BTreeMap<BookKey, Order>) -> (entry: Option<(&'a BookKey, &'a Order)>)
    ensures
        match entry {
            Some((key, order)) => {
                &&& book@.dom().len() > 0
                &&& leads(book@.dom(), *key)
                &&& *key == first_key(book@.dom())
                &&& *order == book@[*key]
                &&& *order == priority_order(book@)[0]
            },
            None => book@.dom().len() == 0,
        },
{
    for (key, order) in walk: book.iter()
        invariant
            walk.index() == 0,
    {
        proof {
            let ahead = walk.seq();
            let keys = ahead.map_values(|entry: (&BookKey, &Order)| *entry.0);
            assert forall|other: BookKey|
                book@.dom().contains(other) && other != *key implies key_before(*key, other) by {
                let i = choose|i: int| 0 <= i < ahead.len() && ahead[i] == (&other, &book@[other]);
                assert(keys[0] == *key);
                assert(keys[i] == other);
                lemma_rising_keys(keys);
            }
            lemma_leader_is_first(book@.dom(), *key);
        }
        return Some((key, order));
    }
    None
}

/// The levels of the first `depth` resting orders, in serving order: one
/// level for each order, none merged with another of the same price.
#[verifier::loop_isolation(false)]
pub fn levels(book: &BTreeMap<BookKey, Order>, depth: usize) -> (shown: Vec<PriceLevel>)
    requires
        forall|key: BookKey| #[trigger] book@.contains_key(key) ==> book@[key].within_quantity(),
    ensures
        shown@ == top_levels(priority_order(book@), depth as nat),
{
    let mut shown: Vec<PriceLevel> = Vec::new();
    let ghost queue = priority_order(book@);
    proof {
        lemma_priority_keys(book@.dom());
    }
    for (key, order) in walk: book.iter()
        invariant
            shown@.len() == walk.index(),
            shown@.len() <= depth,
            queue.len() == walk.seq().len(),
            forall|i: int| 0 <= i < shown@.len() ==> shown@[i] == level_of(queue[i]),
    {
        proof {
            let ahead = walk.seq();
            let keys = ahead.map_values(|entry: (&BookKey, &Order)| *entry.0);
            assert forall|i: int, j: int| 0 <= i < j < ahead.len() implies key_before(
                *ahead[i].0,
                *ahead[j].0,
            ) by {
                lemma_rising_keys(keys);
                assert(key_before(keys[i], keys[j]));
            }
            assert forall|i: int| 0 <= i < ahead.len() implies book@.contains_key(*ahead[i].0)
                && book@[*ahead[i].0] == *ahead[i].1 by {}
            lemma_walk_is_serving_order(book@, ahead);
        }
        if shown.len() >= depth {
            break;
        }
        shown.push(PriceLevel { price: order.price, quantity: order.remaining_quantity() });
    }
    shown
}

} // verus!
