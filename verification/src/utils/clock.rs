//! The wall clock.

use vstd::prelude::*;

verus! {

/// The current time in milliseconds since the Unix epoch.
///
/// Calls `chrono::Utc::now().timestamp_millis()`; what the clock reads is
/// not known in advance, so nothing is claimed of the result.
#[verifier::external_body]
pub fn now_millis() -> i64 {
    chrono::Utc::now().timestamp_millis()
}

} // verus!
