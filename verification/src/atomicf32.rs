//! A process-wide floating-point accumulator carried as atomic bits.
//!
//! The total thread length is summed across parallel runs without locks.
//! No native atomic floating addition exists, so the value lives as its bit
//! pattern in an atomic 32-bit integer, and the addition happens in a
//! compare-and-swap retry loop owned by the caller: the library offers the
//! bit-level load and compare-exchange, and keeps no claim about the float
//! arithmetic done outside.
use vstd::prelude::*;

use core::sync::atomic::{AtomicU32, Ordering};

verus! {

/// Relies on core::sync::atomic::AtomicU32::compare_exchange (the strong
/// form, which never fails spuriously): on success the value found — and
/// returned — was `current` and `new` was stored; on failure the returned
/// value is the differing value found.  Which branch is taken depends on
/// concurrent writers, so only the returned value's relation to `current`
/// is stated.
#[verifier::external_body]
fn atomic_u32_compare_exchange(a: &AtomicU32, current: u32, new: u32) -> (r: Result<u32, u32>)
    ensures
        r is Ok ==> r->Ok_0 == current,
        r is Err ==> r->Err_0 != current,
{
    a.compare_exchange(current, new, Ordering::Relaxed, Ordering::Relaxed)
}

/// An atomic accumulator holding a 32-bit float as its bit pattern.
pub struct AtomicF32(AtomicU32);

impl AtomicF32 {
    /// A fresh accumulator: the zero bit pattern, which encodes zero.
    pub fn new() -> AtomicF32 {
        let v = AtomicU32::new(0);
        AtomicF32(v)
    }

    /// The current bit pattern.
    pub fn load_bits(&self) -> u32 {
        self.0.load(Ordering::Relaxed)
    }

    /// Publishes `new` if the accumulator still holds `current`; hands back
    /// the bit pattern found there, which on success is `current` itself
    /// and on failure differs from it.  A caller adding to the total
    /// retries until this succeeds.
    pub fn compare_exchange_bits(&self, current: u32, new: u32) -> (r: Result<u32, u32>)
        ensures
            r is Ok ==> r->Ok_0 == current,
            r is Err ==> r->Err_0 != current,
    {
        atomic_u32_compare_exchange(&self.0, current, new)
    }
}

} // verus!
