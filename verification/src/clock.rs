//! The one place the real clock is read. Every other function takes the
//! reading as a plain millisecond value, so all time-dependent logic is
//! verified for every possible reading.

use vstd::prelude::*;

verus! {

/// Relies on std::time::SystemTime: the system clock, read once, as whole
/// milliseconds since the Unix epoch (zero if the clock sits before it).
/// Nothing is promised of the value: the system clock may jump either way,
/// and every caller is verified for every possible reading.
#[verifier::external_body]
pub fn now_ms() -> u64 {
    match std::time::SystemTime::now().duration_since(std::time::UNIX_EPOCH) {
        Ok(d) => d.as_millis() as u64,
        Err(_) => 0,
    }
}

} // verus!
