//! A seeded walk over 64-bit numbers, and the shuffle it drives.
//!
//! One generator, written down, because a random walk whose order moves between
//! runs is a different amount of work each time.

use vstd::prelude::*;

verus! {

/// `splitmix64`.
#[derive(Debug, Clone, Copy)]
pub struct Splitmix {
    state: u64,
}

/// The state after one more number.
pub open spec fn advanced(state: u64) -> u64 {
    state.wrapping_add(0x9E37_79B9_7F4A_7C15)
}

/// The number that a state gives.
pub open spec fn mixed(state: u64) -> u64 {
    let a = (state ^ (state >> 30)).wrapping_mul(0xBF58_476D_1CE4_E5B9);
    let b = (a ^ (a >> 27)).wrapping_mul(0x94D0_49BB_1331_11EB);
    b ^ (b >> 31)
}

impl View for Splitmix {
    type V = u64;

    closed spec fn view(&self) -> u64 {
        self.state
    }
}

impl Splitmix {
    pub fn new(seed: u64) -> (rng: Splitmix)
        ensures
            rng@ == seed,
    {
        Splitmix { state: seed }
    }

    /// The next number of the walk.
    pub fn next_u64(&mut self) -> (n: u64)
        ensures
            final(self)@ == advanced(old(self)@),
            n == mixed(advanced(old(self)@)),
    {
        self.state = self.state.wrapping_add(0x9E37_79B9_7F4A_7C15);
        let z: u64 = self.state;
        let a: u64 = (z ^ (z >> 30)).wrapping_mul(0xBF58_476D_1CE4_E5B9);
        let b: u64 = (a ^ (a >> 27)).wrapping_mul(0x94D0_49BB_1331_11EB);
        b ^ (b >> 31)
    }

    /// The next number of the walk, reduced below `bound`; zero, and no step,
    /// where the bound is zero.
    pub fn below(&mut self, bound: usize) -> (n: usize)
        ensures
            bound == 0 ==> n == 0 && final(self)@ == old(self)@,
            bound > 0 ==> n < bound && n == mixed(advanced(old(self)@)) as int % bound as int
                && final(self)@ == advanced(old(self)@),
    {
        if bound == 0 {
            return 0;
        }
        (self.next_u64() % bound as u64) as usize
    }
}

/// `s` with two places exchanged.
pub open spec fn swapped<T>(s: Seq<T>, i: int, j: int) -> Seq<T> {
    s.update(i, s[j]).update(j, s[i])
}

/// `s` shuffled from the place `i` down: each place is exchanged with one that
/// the walk picks among those up to it.
pub open spec fn shuffled_from<T>(s: Seq<T>, state: u64, i: int) -> Seq<T>
    decreases i,
{
    if i < 1 {
        s
    } else {
        let next = advanced(state);
        shuffled_from(swapped(s, i, mixed(next) as int % (i + 1)), next, i - 1)
    }
}

/// `s` in the order that a seed gives it.
pub open spec fn shuffled<T>(s: Seq<T>, seed: u64) -> Seq<T> {
    shuffled_from(s, seed, s.len() - 1)
}

/// The same items in a seeded shuffle.
pub fn shuffle<T: Copy>(items: &Vec<T>, seed: u64) -> (out: Vec<T>)
    ensures
        out@ == shuffled(items@, seed),
{
    let mut out: Vec<T> = Vec::new();
    let mut k: usize = 0;
    while k < items.len()
        invariant
            k <= items@.len(),
            out@ == items@.take(k as int),
        decreases items@.len() - k,
    {
        out.push(items[k]);
        k = k + 1;
        assert(out@ =~= items@.take(k as int));
    }
    assert(out@ =~= items@);
    if out.len() < 2 {
        return out;
    }
    let mut rng = Splitmix::new(seed);
    let mut i: usize = out.len() - 1;
    while i >= 1
        invariant
            i < out.len(),
            shuffled(items@, seed) == shuffled_from(out@, rng@, i as int),
        decreases i,
    {
        let j: usize = rng.below(i + 1);
        let a: T = out[i];
        let b: T = out[j];
        let ghost before = out@;
        out.set(i, b);
        out.set(j, a);
        assert(out@ =~= swapped(before, i as int, j as int));
        i = i - 1;
    }
    out
}

/// Exchanging two places keeps every item as often as it was there.
proof fn lemma_swap_keeps_items<T>(s: Seq<T>, i: int, j: int)
    requires
        0 <= i < s.len(),
        0 <= j < s.len(),
    ensures
        swapped(s, i, j).to_multiset() == s.to_multiset(),
{
    broadcast use vstd::seq_lib::group_to_multiset_ensures;

    assert(swapped(s, i, j).to_multiset() =~= s.to_multiset());
}

/// A shuffle keeps every item as often as it was there.
pub proof fn law_shuffle_keeps_items<T>(s: Seq<T>, seed: u64)
    ensures
        shuffled(s, seed).to_multiset() == s.to_multiset(),
        shuffled(s, seed).len() == s.len(),
{
    lemma_shuffle_keeps_items(s, seed, s.len() - 1);
}

/// A shuffle from a place down keeps every item as often as it was there.
proof fn lemma_shuffle_keeps_items<T>(s: Seq<T>, state: u64, i: int)
    requires
        i < s.len(),
    ensures
        shuffled_from(s, state, i).to_multiset() == s.to_multiset(),
        shuffled_from(s, state, i).len() == s.len(),
    decreases i,
{
    if i >= 1 {
        let next = advanced(state);
        let j = mixed(next) as int % (i + 1);
        lemma_swap_keeps_items(s, i, j);
        lemma_shuffle_keeps_items(swapped(s, i, j), next, i - 1);
    }
}

} // verus!
