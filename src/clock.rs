//! Wall-clock time and randomness, the two inputs that come from outside.

use vstd::prelude::*;

verus! {

pub assume_specification<T>[ rand::random::<T> ]() -> (r: T)
    where
        rand::distributions::Standard: rand::distributions::Distribution<T>,
;

/// Relies on `web_time::SystemTime::elapsed`, taken of the Unix epoch: the current wall-clock
/// time in milliseconds, or 0 where the clock stands before the epoch. Nothing is promised of
/// the value.
#[verifier::external_body]
pub(crate) fn now_millis() -> u64 {
    match web_time::UNIX_EPOCH.elapsed() {
        Ok(d) => d.as_millis() as u64,
        Err(_) => 0,
    }
}

/// A random 64-bit value.
pub(crate) fn random_u64() -> u64 {
    rand::random::<u64>()
}

} // verus!
