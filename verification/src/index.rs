//! The point index: orders by identifier, kept in a sharded concurrent map.
//!
//! The map's code is not verified here. This module names what the map holds
//! and states, for each of its operations that the engine uses, what the
//! operation does to those contents. An operation that changes the map takes
//! it by exclusive reference, so that nothing else changes it meanwhile, and
//! none keeps a guard of the map beyond its own call.

use crate::types::Order;
use dashmap::DashMap;
use vstd::prelude::*;

verus! {

/// The sharded concurrent map of the `dashmap` crate. Nothing inside it is
/// visible to the proofs: what it holds is named by `index_entries`.
#[verifier::external_type_specification]
#[verifier::external_body]
#[verifier::reject_recursive_types(K)]
#[verifier::reject_recursive_types(V)]
#[verifier::reject_recursive_types(S)]
pub struct ExDashMap<K, V, S>(DashMap<K, V, S>);

/// The entries that an index holds: each identifier with the order stored
/// under it.
pub uninterp spec fn index_entries(index: DashMap<u128, Order>) -> Map<u128, Order>;

/// What holds of the index at all times: each order is stored under its own
/// identifier, and none is filled beyond its quantity.
pub open spec fn index_wf(entries: Map<u128, Order>) -> bool {
    forall|id: u128| #[trigger]
        entries.contains_key(id) ==> entries[id].id == id && entries[id].within_quantity()
}

/// Calls `DashMap::new`: the new map holds no entry.
#[verifier::external_body]
pub(crate) fn index_new() -> (fresh: DashMap<u128, Order>)
    ensures
        index_entries(fresh) == (Map::<u128, Order>::empty()),
{
    DashMap::new()
}

/// Calls `DashMap::insert`: afterwards the map holds `order` under `id`, in
/// place of what it held there, and every other entry as before.
#[verifier::external_body]
pub(crate) fn index_insert(index: &mut DashMap<u128, Order>, id: u128, order: Order)
    ensures
        index_entries(*final(index)) == index_entries(*old(index)).insert(id, order),
{
    index.insert(id, order);
}

/// Calls `DashMap::remove_if` with a test of the stored order's status: where
/// the map holds under `id` an order that has not reached a terminal status,
/// that order is taken out and returned, and every other entry stays as
/// before. Otherwise the map is left as it was and the result is `None`.
#[verifier::external_body]
pub(crate) fn index_remove_live(index: &mut DashMap<u128, Order>, id: u128) -> (removed: Option<
    Order,
>)
    ensures
        removed == (if index_entries(*old(index)).contains_key(id) && !index_entries(
            *old(index),
        )[id].status.is_terminal() {
            Some(index_entries(*old(index))[id])
        } else {
            None
        }),
        index_entries(*final(index)) == (if removed is Some {
            index_entries(*old(index)).remove(id)
        } else {
            index_entries(*old(index))
        }),
{
    index.remove_if(&id, |_, order| order.is_live()).map(|entry| entry.1)
}

/// Calls `DashMap::get` and copies the order that the returned guard points
/// to: the result is the order held under `id`, if there is one. The map is
/// left as it was.
#[verifier::external_body]
pub(crate) fn index_get(index: &DashMap<u128, Order>, id: u128) -> (found: Option<Order>)
    ensures
        found == (if index_entries(*index).contains_key(id) {
            Some(index_entries(*index)[id])
        } else {
            None
        }),
{
    index.get(&id).map(|entry| entry.value().clone())
}

} // verus!
