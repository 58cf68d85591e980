//! Host capabilities the pipeline draws on: strong randomness and the
//! clock.  Their results depend on the environment, so the contracts state
//! only what holds of every outcome.

use vstd::prelude::*;

verus! {

/// Relies on `getrandom::getrandom`: on success the buffer is filled with
/// cryptographically strong random bytes.  Only the length is promised;
/// `None` reports that the host's random source failed.
#[verifier::external_body]
pub(crate) fn random_bytes(n: usize) -> (r: Option<Vec<u8>>)
    ensures
        r matches Some(v) ==> v@.len() == n,
{
    let mut buf = vec![0u8; n];
    match getrandom::getrandom(&mut buf) {
        Ok(()) => Some(buf),
        Err(_) => None,
    }
}

/// Relies on `chrono::Utc::now`: milliseconds since the Unix epoch,
/// clamped to zero for clocks set before it.  The value depends on the
/// clock, so nothing is promised of it.
#[verifier::external_body]
pub(crate) fn now_unix_millis() -> (r: u64) {
    let ms = chrono::Utc::now().timestamp_millis();
    if ms <= 0 {
        0
    } else {
        ms as u64
    }
}

/// Relies on `chrono::Utc::now().to_rfc3339()`: the current UTC time in a
/// sortable textual form.  The value depends on the clock, so nothing is
/// promised of it.
#[verifier::external_body]
pub(crate) fn now_rfc3339() -> (r: String) {
    chrono::Utc::now().to_rfc3339()
}

} // verus!
