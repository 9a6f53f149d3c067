//! Wall-clock access for timestamping outbound messages.

use vstd::prelude::*;

verus! {

/// Relies on chrono::Utc::now: the current wall-clock time in UTC, reduced
/// to milliseconds since the Unix epoch. The value depends on the machine's
/// clock at the moment of the call, so nothing is promised of it; callers
/// state what holds whatever time comes back.
#[verifier::external_body]
pub(crate) fn now_millis() -> i64 {
    chrono::Utc::now().timestamp_millis()
}

} // verus!
