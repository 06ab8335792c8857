//! Monotonic time for the caches that expire entries. Time is handed to the verified
//! logic as nanoseconds elapsed since an `Instant` taken when the structure was created.
use vstd::prelude::*;

use std::time::{Duration, Instant};

verus! {

#[verifier::external_type_specification]
#[verifier::external_body]
pub struct ExInstant(Instant);

/// Calls `Instant::now`. The value depends on the clock, so nothing is stated of it.
#[verifier::external_body]
pub(crate) fn instant_now() -> Instant {
    Instant::now()
}

/// Calls `Instant::elapsed`. The value depends on the clock, so nothing is stated of it.
#[verifier::external_body]
pub(crate) fn instant_elapsed(epoch: &Instant) -> Duration {
    epoch.elapsed()
}

/// Calls `Duration::as_nanos`. `Duration` is opaque here, so nothing is stated of the result.
#[verifier::external_body]
pub(crate) fn duration_as_nanos(d: &Duration) -> u128 {
    d.as_nanos()
}

/// A nanosecond count narrowed to `u64`: counts past `u64::MAX` give `u64::MAX`.
pub open spec fn saturated_nanos(n: u128) -> u64 {
    if n > u64::MAX as u128 {
        u64::MAX
    } else {
        n as u64
    }
}

/// Narrows a nanosecond count to `u64`, saturating at `u64::MAX`.
pub fn saturate_nanos(n: u128) -> (r: u64)
    ensures
        r == saturated_nanos(n),
{
    if n > 0xFFFF_FFFF_FFFF_FFFF {
        0xFFFF_FFFF_FFFF_FFFF
    } else {
        n as u64
    }
}

/// Nanoseconds elapsed since `epoch`, saturated to `u64`. The elapsed time comes from
/// the clock, so every `u64` is a possible result; the narrowing is `saturate_nanos`.
pub fn nanos_since(epoch: &Instant) -> u64 {
    let d = instant_elapsed(epoch);
    let n: u128 = duration_as_nanos(&d);
    saturate_nanos(n)
}

} // verus!
