//! Wall-clock access. Ban timestamps are UTC at second resolution and
//! only elapsed-seconds comparisons are ever performed on them, so the
//! registry works with plain `i64` second counts.

use vstd::prelude::*;

verus! {

/// Relies on std's `SystemTime::now`: seconds of the current UTC
/// wall-clock time since the Unix epoch, read without panicking — a
/// system clock set before the epoch yields 0 rather than an abort.
/// The value depends on when the call is made, so nothing is promised
/// of it; callers state what holds of every possible timestamp.
#[verifier::external_body]
pub(crate) fn utc_now_seconds() -> i64 {
    match std::time::SystemTime::now().duration_since(std::time::UNIX_EPOCH) {
        Ok(elapsed) => elapsed.as_secs() as i64,
        Err(_) => 0,
    }
}

} // verus!
