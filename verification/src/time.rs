//! Lengths of time, in whole nanoseconds.

use vstd::prelude::*;

verus! {

/// A length of time. The longest is five centuries, and a longer one is that
/// long.
#[derive(Debug, Clone, Copy, PartialEq, Eq, PartialOrd, Ord, Hash, Structural)]
pub struct Duration {
    nanos: u64,
}

impl View for Duration {
    type V = nat;

    closed spec fn view(&self) -> nat {
        self.nanos as nat
    }
}

/// A number of nanoseconds, or the largest there is.
pub open spec fn capped(nanos: nat) -> nat {
    if nanos > u64::MAX {
        u64::MAX as nat
    } else {
        nanos
    }
}

/// So many times a number of nanoseconds, or the largest there is.
fn times(count: u64, nanos: u64) -> (r: u64)
    requires
        nanos > 0,
    ensures
        r == capped(count as nat * nanos as nat),
{
    assert(count as nat * nanos as nat <= u64::MAX * u64::MAX) by (nonlinear_arith)
        requires
            count <= u64::MAX,
            nanos <= u64::MAX,
    ;
    let product: u128 = count as u128 * nanos as u128;
    if product > u64::MAX as u128 {
        u64::MAX
    } else {
        product as u64
    }
}

impl Duration {
    pub fn from_nanos(nanos: u64) -> (r: Self)
        ensures
            r@ == nanos,
    {
        Duration { nanos }
    }

    pub fn from_micros(micros: u64) -> (r: Self)
        ensures
            r@ == capped(micros as nat * 1_000),
    {
        Duration { nanos: times(micros, 1_000) }
    }

    pub fn from_millis(millis: u64) -> (r: Self)
        ensures
            r@ == capped(millis as nat * 1_000_000),
    {
        Duration { nanos: times(millis, 1_000_000) }
    }

    pub fn from_secs(secs: u64) -> (r: Self)
        ensures
            r@ == capped(secs as nat * 1_000_000_000),
    {
        Duration { nanos: times(secs, 1_000_000_000) }
    }

    pub fn as_nanos(&self) -> (r: u64)
        ensures
            r == self@,
    {
        self.nanos
    }

    /// Whole milliseconds.
    pub fn as_millis(&self) -> (r: u64)
        ensures
            r == self@ / 1_000_000,
    {
        self.nanos / 1_000_000
    }

    /// Two lengths of time, one after the other.
    pub fn plus(&self, other: Duration) -> (r: Self)
        ensures
            r@ == capped(self@ + other@),
    {
        Duration { nanos: self.nanos.saturating_add(other.nanos) }
    }
}

/// A length of time is one that can be counted.
pub proof fn lemma_durations_fit(d: Duration)
    ensures
        d@ <= u64::MAX,
{
}

} // verus!
