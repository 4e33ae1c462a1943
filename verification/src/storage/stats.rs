//! Which tail statistic a row is allowed to publish, and which samples a
//! bootstrap draws.
//!
//! A nearest-rank p99 of 64 samples is the maximum wearing a percentile's name.
//! So nothing under [`P99_MIN_SAMPLES`] samples is called a p99: it is the
//! maximum, under the name `max`.

pub use crate::storage::splitmix::Splitmix;

use crate::storage::splitmix::{advanced, mixed};
use vstd::prelude::*;

verus! {

/// Below this many samples a row publishes `max`, never `p99`.
pub const P99_MIN_SAMPLES: usize = 100;

/// Resamples in the percentile bootstrap of the median.
pub const BOOTSTRAP_RESAMPLES: usize = 2000;

/// Which tail statistic a sample set earned.
#[derive(Debug, Clone, Copy, PartialEq, Eq, Structural)]
pub enum TailKind {
    P99,
    Max,
}

/// The name the document publishes: a maximum is labelled `max`.
pub open spec fn tail_name(k: TailKind) -> Seq<char> {
    match k {
        TailKind::P99 => "p99"@,
        TailKind::Max => "max"@,
    }
}

impl TailKind {
    /// The name the document publishes: a maximum is labelled `max`.
    pub fn as_str(self) -> (out: &'static str)
        ensures
            out@ == tail_name(self),
    {
        match self {
            TailKind::P99 => "p99",
            TailKind::Max => "max",
        }
    }
}

/// The tail statistic that a set of `n` samples earns, where it has any.
pub open spec fn tail_of(n: nat) -> Option<TailKind> {
    if n == 0 {
        None
    } else if n < P99_MIN_SAMPLES {
        Some(TailKind::Max)
    } else {
        Some(TailKind::P99)
    }
}

/// The tail statistic that a set of `n` samples earns, where it has any.
pub fn tail_kind(n: usize) -> (kind: Option<TailKind>)
    ensures
        kind == tail_of(n as nat),
{
    if n == 0 {
        None
    } else if n < P99_MIN_SAMPLES {
        Some(TailKind::Max)
    } else {
        Some(TailKind::P99)
    }
}

/// The first `k` of the indices below `n` that the walk draws.
pub open spec fn drawn(state: u64, n: int, k: int) -> Seq<int>
    decreases k,
{
    if k <= 0 {
        Seq::empty()
    } else {
        drawn(state, n, k - 1).push(mixed(state_at(state, k)) as int % n)
    }
}

/// The state of the walk after `k` numbers.
pub open spec fn state_at(state: u64, k: int) -> u64
    decreases k,
{
    if k <= 0 {
        state
    } else {
        advanced(state_at(state, k - 1))
    }
}

/// One resample of a bootstrap: as many indices as there are samples, each drawn
/// from all of them.
pub fn resample(rng: &mut Splitmix, n: usize) -> (out: Vec<usize>)
    requires
        n > 0,
    ensures
        crate::text::as_ints(out@) == drawn(old(rng)@, n as int, n as int),
        final(rng)@ == state_at(old(rng)@, n as int),
        forall|i: int| 0 <= i < out@.len() ==> (#[trigger] out@[i]) < n,
{
    let mut out: Vec<usize> = Vec::new();
    assert(crate::text::as_ints(out@) =~= drawn(rng@, n as int, 0));
    while out.len() < n
        invariant
            n > 0,
            out@.len() <= n,
            rng@ == state_at(old(rng)@, out@.len() as int),
            crate::text::as_ints(out@) == drawn(old(rng)@, n as int, out@.len() as int),
            forall|i: int| 0 <= i < out@.len() ==> (#[trigger] out@[i]) < n,
        decreases n - out@.len(),
    {
        let ghost before = out@;
        let i: usize = rng.below(n);
        out.push(i);
        assert(crate::text::as_ints(out@) =~= crate::text::as_ints(before).push(i as int));
    }
    out
}

} // verus!
