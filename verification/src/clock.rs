//! The wall clock.

use vstd::prelude::*;

verus! {

/// The current time in milliseconds since the Unix epoch.
///
/// Calls `chrono::Utc::now` and reads the result with
/// `chrono::DateTime::timestamp_millis`. Nothing is claimed of the value: two
/// calls may return anything, in any order. `Utc::now` does not return when
/// the system clock is set before the epoch.
#[verifier::external_body]
pub(crate) fn now_millis() -> i64 {
    chrono::Utc::now().timestamp_millis()
}

} // verus!
