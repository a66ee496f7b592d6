//! Price-time priority: the key under which an order rests on its side of the
//! book, and the order in which a side's resting orders are served.
//!
//! A key is a triple of integers that sorts in priority order: first a price
//! rank, then the seconds and the nanoseconds of the order's creation. On the
//! ask side the rank is the price itself (lowest price first); on the bid side
//! it is the price's distance from the largest price (highest price first).

use crate::types::{Decimal, Order, OrderSide};
use vstd::prelude::*;

verus! {

/// The key of a resting order: price rank, creation seconds, creation
/// nanoseconds.
pub type BookKey = (u128, i64, u32);

/// `a` is served strictly before `b`.
pub open spec fn key_before(a: BookKey, b: BookKey) -> bool {
    a.0 < b.0 || (a.0 == b.0 && (a.1 < b.1 || (a.1 == b.1 && a.2 < b.2)))
}

/// The rank of a price on a side: ranks grow as prices get worse.
pub open spec fn price_rank(side: OrderSide, price: Decimal) -> u128 {
    match side {
        OrderSide::Buy => (u128::MAX - price.0) as u128,
        OrderSide::Sell => price.0,
    }
}

/// The key under which `order` rests on its own side.
pub open spec fn book_key(order: Order) -> BookKey {
    (price_rank(order.side, order.price), order.created_at.secs, order.created_at.nanos)
}

/// Computes the key under which `order` rests on its own side.
pub fn key_of(order: &Order) -> (key: BookKey)
    ensures
        key == book_key(*order),
{
    let rank: u128 = match order.side {
        OrderSide::Buy => u128::MAX - order.price.0,
        OrderSide::Sell => order.price.0,
    };
    (rank, order.created_at.secs, order.created_at.nanos)
}

/// `key` is in `keys` and is served before every other key of `keys`.
pub open spec fn leads(keys: Set<BookKey>, key: BookKey) -> bool {
    keys.contains(key) && forall|other: BookKey|
        keys.contains(other) && other != key ==> key_before(key, other)
}

/// The key of `keys` that is served first.
pub open spec fn first_key(keys: Set<BookKey>) -> BookKey {
    choose|key: BookKey| leads(keys, key)
}

/// The keys of a finite set, in the order in which they are served.
pub open spec fn priority_keys(keys: Set<BookKey>) -> Seq<BookKey>
    decreases keys.len(),
{
    if keys.finite() && keys.len() > 0 && keys.contains(first_key(keys)) {
        seq![first_key(keys)] + priority_keys(keys.remove(first_key(keys)))
    } else {
        Seq::empty()
    }
}

/// The orders of one side of the book, in the order in which they are served.
pub open spec fn priority_order(book: Map<BookKey, Order>) -> Seq<Order> {
    priority_keys(book.dom()).map_values(|key: BookKey| book[key])
}

/// `keys` holds no key twice and holds its keys in serving order.
pub open spec fn in_serving_order(keys: Seq<BookKey>) -> bool {
    forall|i: int, j: int| 0 <= i < j < keys.len() ==> key_before(keys[i], keys[j])
}

/// A finite set of keys that is not empty has a key that is served first.
pub proof fn lemma_some_key_leads(keys: Set<BookKey>)
    requires
        keys.finite(),
        keys.len() > 0,
    ensures
        leads(keys, first_key(keys)),
    decreases keys.len(),
{
    let any = keys.choose();
    let rest = keys.remove(any);
    if rest.len() == 0 {
        assert(leads(keys, any));
    } else {
        lemma_some_key_leads(rest);
        let best = first_key(rest);
        if key_before(any, best) {
            assert(leads(keys, any));
        } else {
            assert(leads(keys, best));
        }
    }
}

/// The key that leads a set is its first key.
pub proof fn lemma_leader_is_first(keys: Set<BookKey>, key: BookKey)
    requires
        leads(keys, key),
    ensures
        first_key(keys) == key,
{
}

/// The serving order of a finite set of keys lists each key of the set once,
/// and lists them in serving order.
pub proof fn lemma_priority_keys(keys: Set<BookKey>)
    requires
        keys.finite(),
    ensures
        priority_keys(keys).len() == keys.len(),
        forall|key: BookKey| keys.contains(key) <==> priority_keys(keys).contains(key),
        in_serving_order(priority_keys(keys)),
        keys.len() > 0 ==> priority_keys(keys)[0] == first_key(keys) && leads(
            keys,
            first_key(keys),
        ),
    decreases keys.len(),
{
    let listed = priority_keys(keys);
    if keys.len() > 0 {
        lemma_some_key_leads(keys);
        let head = first_key(keys);
        let rest = keys.remove(head);
        let tail = priority_keys(rest);
        lemma_priority_keys(rest);
        assert forall|key: BookKey| keys.contains(key) implies listed.contains(key) by {
            if key == head {
                assert(listed[0] == key);
            } else {
                let i = choose|i: int| 0 <= i < tail.len() && tail[i] == key;
                assert(listed[i + 1] == key);
            }
        }
    }
}

/// A list of keys in serving order is the serving order of the set of its
/// keys: a finite set has one serving order only.
pub proof fn lemma_serving_order_is_unique(keys: Set<BookKey>, listed: Seq<BookKey>)
    requires
        keys.finite(),
        in_serving_order(listed),
        forall|key: BookKey| keys.contains(key) <==> listed.contains(key),
    ensures
        listed == priority_keys(keys),
    decreases listed.len(),
{
    if listed.len() > 0 {
        let head = listed[0];
        let tail = listed.drop_first();
        lemma_leader_is_first(keys, head);
        let rest = keys.remove(head);
        assert forall|key: BookKey| rest.contains(key) <==> tail.contains(key) by {
            if rest.contains(key) {
                let i = choose|i: int| 0 <= i < listed.len() && listed[i] == key;
                assert(tail[i - 1] == key);
            }
            if tail.contains(key) {
                let i = choose|i: int| 0 <= i < tail.len() && tail[i] == key;
                assert(key_before(listed[0], listed[i + 1]));
            }
        }
        lemma_serving_order_is_unique(rest, tail);
    }
}

/// Taking the first `count` keys of the serving order out of a set leaves the
/// rest of the serving order.
pub proof fn lemma_keys_without_head(keys: Set<BookKey>, count: int)
    requires
        keys.finite(),
        0 <= count <= keys.len(),
    ensures
        priority_keys(keys).len() == keys.len(),
        priority_keys(keys.difference(priority_keys(keys).take(count).to_set()))
            == priority_keys(keys).skip(count),
{
    let listed = priority_keys(keys);
    lemma_priority_keys(keys);
    let head = listed.take(count);
    let rest = listed.skip(count);
    let left = keys.difference(head.to_set());
    assert forall|key: BookKey| left.contains(key) <==> rest.contains(key) by {
        if left.contains(key) {
            let i = choose|i: int| 0 <= i < listed.len() && listed[i] == key;
            if i < count {
                assert(head[i] == key);
            }
            assert(rest[i - count] == key);
        }
        if rest.contains(key) {
            let j = choose|j: int| 0 <= j < rest.len() && rest[j] == key;
            if head.contains(key) {
                let i = choose|i: int| 0 <= i < head.len() && head[i] == key;
                assert(key_before(listed[i], listed[j + count]));
            }
        }
    }
    lemma_serving_order_is_unique(left, rest);
}

/// The place of `key` in a list of keys in serving order: the number of
/// keys of the list that are served before it.
pub open spec fn place_of(listed: Seq<BookKey>, key: BookKey) -> int
    decreases listed.len(),
{
    if listed.len() == 0 || !key_before(listed[0], key) {
        0
    } else {
        1 + place_of(listed.drop_first(), key)
    }
}

/// In a list in serving order, the keys before the place of `key` are served
/// before `key`, and the keys from its place on are not.
pub proof fn lemma_place_of(listed: Seq<BookKey>, key: BookKey)
    requires
        in_serving_order(listed),
    ensures
        0 <= place_of(listed, key) <= listed.len(),
        forall|i: int| 0 <= i < place_of(listed, key) ==> key_before(#[trigger] listed[i], key),
        forall|i: int|
            place_of(listed, key) <= i < listed.len() ==> !key_before(#[trigger] listed[i], key),
        place_of(listed, key) < listed.len() && listed.contains(key) ==> listed[place_of(
            listed,
            key,
        )] == key,
    decreases listed.len(),
{
    if listed.len() == 0 || !key_before(listed[0], key) {
        assert forall|i: int| 0 <= i < listed.len() implies !key_before(
            #[trigger] listed[i],
            key,
        ) by {
            if i > 0 {
                assert(key_before(listed[0], listed[i]));
            }
        }
    } else {
        let tail = listed.drop_first();
        lemma_place_of(tail, key);
        let place = place_of(listed, key);
        assert forall|i: int| 0 <= i < place implies key_before(#[trigger] listed[i], key) by {
            if i > 0 {
                assert(listed[i] == tail[i - 1]);
            }
        }
        assert forall|i: int| place <= i < listed.len() implies !key_before(
            #[trigger] listed[i],
            key,
        ) by {
            assert(listed[i] == tail[i - 1]);
        }
    }
}

/// Taking a key out of a set takes it out of the serving order and leaves the
/// other keys in their order.
pub proof fn lemma_keys_without(keys: Set<BookKey>, key: BookKey)
    requires
        keys.finite(),
        keys.contains(key),
    ensures
        0 <= place_of(priority_keys(keys), key) < priority_keys(keys).len(),
        priority_keys(keys)[place_of(priority_keys(keys), key)] == key,
        priority_keys(keys.remove(key)) == priority_keys(keys).remove(
            place_of(priority_keys(keys), key),
        ),
{
    let listed = priority_keys(keys);
    lemma_priority_keys(keys);
    lemma_place_of(listed, key);
    let place = place_of(listed, key);
    let shorter = listed.remove(place);
    assert forall|other: BookKey| keys.remove(key).contains(other) <==> shorter.contains(
        other,
    ) by {
        if keys.remove(key).contains(other) {
            let i = choose|i: int| 0 <= i < listed.len() && listed[i] == other;
            if i < place {
                assert(shorter[i] == other);
            } else {
                assert(shorter[i - 1] == other);
            }
        }
    }
    lemma_serving_order_is_unique(keys.remove(key), shorter);
}

/// Putting a new key into a set puts it into the serving order at its place
/// and leaves the other keys in their order.
pub proof fn lemma_keys_with(keys: Set<BookKey>, key: BookKey)
    requires
        keys.finite(),
        !keys.contains(key),
    ensures
        0 <= place_of(priority_keys(keys), key) <= priority_keys(keys).len(),
        priority_keys(keys.insert(key)) == priority_keys(keys).insert(
            place_of(priority_keys(keys), key),
            key,
        ),
{
    let listed = priority_keys(keys);
    lemma_priority_keys(keys);
    lemma_place_of(listed, key);
    let place = place_of(listed, key);
    let longer = listed.insert(place, key);
    assert forall|other: BookKey| keys.insert(key).contains(other) <==> longer.contains(
        other,
    ) by {
        if keys.insert(key).contains(other) {
            if other == key {
                assert(longer[place] == other);
            } else {
                let i = choose|i: int| 0 <= i < listed.len() && listed[i] == other;
                if i < place {
                    assert(longer[i] == other);
                } else {
                    assert(longer[i + 1] == other);
                }
            }
        }
    }
    lemma_serving_order_is_unique(keys.insert(key), longer);
}

} // verus!
