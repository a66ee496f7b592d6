//! What the engine takes from its surroundings: the current time, fresh
//! identifiers and the text form of an identifier.
//!
//! None of the code behind these functions is verified here. Each contract
//! says what is taken on trust.

use crate::types::Timestamp;
use chrono::Utc;
use uuid::Uuid;
use vstd::prelude::*;

verus! {

/// The hyphenated lower-case hexadecimal text of a 128-bit identifier.
pub uninterp spec fn order_id_text(id: u128) -> Seq<char>;

/// Calls chrono's `Utc::now` and reads the instant's seconds and nanoseconds
/// with `timestamp` and `timestamp_subsec_nanos`. Nothing is promised of the
/// instant. The call panics where the system clock stands before the Unix
/// epoch.
#[verifier::external_body]
pub(crate) fn current_time() -> Timestamp {
    let now = Utc::now();
    Timestamp { secs: now.timestamp(), nanos: now.timestamp_subsec_nanos() }
}

/// Calls uuid's `Uuid::new_v4` and reads the identifier's 128 bits with
/// `as_u128`. The identifier is random: nothing is promised of it, not even
/// that it differs from an earlier one.
#[verifier::external_body]
pub(crate) fn fresh_id() -> u128 {
    Uuid::new_v4().as_u128()
}

/// Calls uuid's `Uuid::from_u128` and the `to_string` of its `Display`: the
/// result is the hyphenated text of `id`, which depends on `id` alone.
#[verifier::external_body]
pub(crate) fn id_to_text(id: u128) -> (text: String)
    ensures
        text@ == order_id_text(id),
{
    Uuid::from_u128(id).to_string()
}

} // verus!
