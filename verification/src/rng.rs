//! A small deterministic pseudo-random generator (SplitMix64): the same seed
//! always gives the same sequence, which makes whole games reproducible.

use vstd::prelude::*;
use vstd::wrapping::u64_specs::{wrapping_add, wrapping_mul};

verus! {

pub open spec fn rng_advance(s: u64) -> u64 {
    wrapping_add(s, 0x9E37_79B9_7F4A_7C15u64)
}

/// The output that SplitMix64 derives from an (advanced) state.
pub open spec fn rng_mix(z: u64) -> u64 {
    let z1 = wrapping_mul(z ^ (z >> 30u64), 0xBF58_476D_1CE4_E5B9u64);
    let z2 = wrapping_mul(z1 ^ (z1 >> 27u64), 0x94D0_49BB_1331_11EBu64);
    z2 ^ (z2 >> 31u64)
}

/// `(value, next state)` of one draw from state `s`.
pub open spec fn rng_next(s: u64) -> (u64, u64) {
    (rng_mix(rng_advance(s)), rng_advance(s))
}

/// `(value below n, next state)` of one bounded draw from state `s`.
pub open spec fn rng_below(s: u64, n: usize) -> (usize, u64) {
    (((rng_next(s).0 % (n as u64)) as usize), rng_next(s).1)
}

/// The sequence `s` after a Fisher-Yates pass over indices `i` down to 1, and
/// the generator state afterwards.
pub open spec fn shuffle_from(s: Seq<String>, st: u64, i: nat) -> (Seq<String>, u64)
    decreases i,
{
    if i == 0 || i >= s.len() {
        (s, st)
    } else {
        let (j, st2) = rng_below(st, (i + 1) as usize);
        let t = s.update(i as int, s[j as int]).update(j as int, s[i as int]);
        shuffle_from(t, st2, (i - 1) as nat)
    }
}

/// `(shuffled sequence, next state)` of a full shuffle of `s` from state `st`.
pub open spec fn rng_shuffle(s: Seq<String>, st: u64) -> (Seq<String>, u64) {
    if s.len() <= 1 {
        (s, st)
    } else {
        shuffle_from(s, st, (s.len() - 1) as nat)
    }
}

/// Deterministic seeded generator.
#[derive(Debug, Clone, Copy, PartialEq, Eq, Structural)]
pub struct Rng {
    pub state: u64,
}

impl Rng {
    pub fn new(seed: u64) -> (r: Self)
        ensures
            r.state == seed,
    {
        Rng { state: seed }
    }

    pub fn next_u64(&mut self) -> (r: u64)
        ensures
            (r, final(self).state) == rng_next(old(self).state),
    {
        self.state = self.state.wrapping_add(0x9E37_79B9_7F4A_7C15u64);
        let z = self.state;
        let z1 = (z ^ (z >> 30u64)).wrapping_mul(0xBF58_476D_1CE4_E5B9u64);
        let z2 = (z1 ^ (z1 >> 27u64)).wrapping_mul(0x94D0_49BB_1331_11EBu64);
        z2 ^ (z2 >> 31u64)
    }

    /// A value in `0..n`.
    pub fn below(&mut self, n: usize) -> (r: usize)
        requires
            n > 0,
        ensures
            (r, final(self).state) == rng_below(old(self).state, n),
            r < n,
    {
        let x = self.next_u64();
        (x % (n as u64)) as usize
    }

    /// Fisher-Yates shuffle in place.
    pub fn shuffle(&mut self, v: &mut Vec<String>)
        ensures
            (final(v)@, final(self).state) == rng_shuffle(old(v)@, old(self).state),
    {
        let n = v.len();
        if n <= 1 {
            return;
        }
        let mut i: usize = n - 1;
        while i > 0
            invariant
                v@.len() == n,
                i < n,
                rng_shuffle(old(v)@, old(self).state) == shuffle_from(v@, self.state, i as nat),
            decreases i,
        {
            let j = self.below(i + 1);
            let a = v[i].clone();
            let b = v[j].clone();
            v.set(i, b);
            v.set(j, a);
            i = i - 1;
        }
    }
}

/// A shuffle only reorders: it keeps every card, as many times as before.
pub proof fn law_shuffle_is_permutation(s: Seq<String>, st: u64)
    requires
        s.len() <= usize::MAX,
    ensures
        rng_shuffle(s, st).0.to_multiset() == s.to_multiset(),
        rng_shuffle(s, st).0.len() == s.len(),
{
    if s.len() > 1 {
        lemma_shuffle_from_perm(s, st, (s.len() - 1) as nat);
    }
}

proof fn lemma_swap_perm(s: Seq<String>, i: int, j: int)
    requires
        0 <= i < s.len(),
        0 <= j < s.len(),
    ensures
        s.update(i, s[j]).update(j, s[i]).to_multiset() == s.to_multiset(),
{
    broadcast use vstd::seq_lib::group_to_multiset_ensures;
    broadcast use vstd::multiset::group_multiset_axioms;

    if i != j {
        let t = s.update(i, s[j]).update(j, s[i]);
        // remove both positions from each side and compare
        let (lo, hi) = if i < j {
            (i, j)
        } else {
            (j, i)
        };
        assert(s.remove(hi).remove(lo) =~= t.remove(hi).remove(lo));
        assert(s.remove(hi).to_multiset() == s.to_multiset().remove(s[hi]));
        assert(t.remove(hi).to_multiset() == t.to_multiset().remove(t[hi]));
        assert(s.remove(hi)[lo] == s[lo]);
        assert(t.remove(hi)[lo] == t[lo]);
        assert(s.remove(hi).remove(lo).to_multiset() == s.remove(hi).to_multiset().remove(s[lo]));
        assert(t.remove(hi).remove(lo).to_multiset() == t.remove(hi).to_multiset().remove(t[lo]));
        assert(s.to_multiset() =~= s.remove(hi).remove(lo).to_multiset().insert(s[lo]).insert(
            s[hi],
        ));
        assert(t.to_multiset() =~= t.remove(hi).remove(lo).to_multiset().insert(t[lo]).insert(
            t[hi],
        ));
    } else {
        assert(s.update(i, s[j]).update(j, s[i]) =~= s);
    }
}

proof fn lemma_shuffle_from_perm(s: Seq<String>, st: u64, i: nat)
    requires
        s.len() <= usize::MAX,
    ensures
        shuffle_from(s, st, i).0.to_multiset() == s.to_multiset(),
        shuffle_from(s, st, i).0.len() == s.len(),
    decreases i,
{
    if i == 0 || i >= s.len() {
    } else {
        let (j, st2) = rng_below(st, (i + 1) as usize);
        let m = (i + 1) as u64;
        assert(m == i + 1);
        assert(j < i + 1) by {
            assert(rng_next(st).0 % m < m);
        }
        let t = s.update(i as int, s[j as int]).update(j as int, s[i as int]);
        lemma_swap_perm(s, i as int, j as int);
        lemma_shuffle_from_perm(t, st2, (i - 1) as nat);
    }
}

} // verus!
