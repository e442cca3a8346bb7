//! The wall clock, read through an outside crate.

use vstd::prelude::*;

verus! {

/// Relies on chrono::Utc::now: the current wall-clock time as
/// milliseconds since the Unix epoch. Nothing is promised of the value:
/// every caller states what holds whatever time comes back.
#[verifier::external_body]
pub fn now_millis() -> i64 {
    chrono::Utc::now().timestamp_millis()
}

} // verus!
