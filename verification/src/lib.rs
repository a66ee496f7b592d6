//! Matching core of a single-pair, order-driven market.
//!
//! The engine accepts buy and sell orders, matches each against the resting
//! orders of the opposite side under price-time priority, records a trade for
//! every fill, and keeps what is left of the order on the book. Resting orders
//! can be cancelled by identifier, and the book can be read as a snapshot of
//! levels.
//!
//! - `types`: the value types: pairs, fixed-point numbers, instants, orders,
//!   trades, levels and snapshots.
//! - `priority`: the key of a resting order and the serving order of a side.
//! - `book`: one side of the book, a sorted map of resting orders.
//! - `index`: the index of orders by identifier, a concurrent map whose
//!   operations are taken on trust.
//! - `ambient`: the clock and the source of fresh identifiers, taken on trust.
//! - `matching`: the fill plan of an incoming order and the loop that carries
//!   it out.
//! - `orderbook`: the engine and its state.
//! - `laws`: what holds of every state and every run of the engine.

pub mod ambient;
pub mod book;
pub mod index;
pub mod laws;
pub mod matching;
pub mod orderbook;
pub mod priority;
pub mod types;
