//! The current time, read once at the edge and passed into the engine as
//! a plain value, so that everything downstream is deterministic.

use vstd::prelude::*;

verus! {

/// Relies on std::time::SystemTime::now and duration_since(UNIX_EPOCH):
/// the wall clock's seconds since the Unix epoch, or nothing when the
/// clock sits before the epoch. Nothing can be promised of a clock
/// reading, so nothing is.
#[verifier::external_body]
fn system_seconds() -> Option<u64> {
    match std::time::SystemTime::now().duration_since(std::time::UNIX_EPOCH) {
        Ok(d) => Some(d.as_secs()),
        Err(_) => None,
    }
}

/// The current Unix time in whole seconds, taken as zero should the
/// system clock sit before the epoch.
pub fn now() -> u64 {
    match system_seconds() {
        Some(t) => t,
        None => 0,
    }
}

} // verus!
