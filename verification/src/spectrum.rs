//! Transform plans: lengths, the bins of a spectrum, and one plan per length.
//!
//! A plan's length is its draw count as well: one phase realisation draws as many normal
//! deviates as the transform has points. So a length is a numerical decision, never a buffer
//! size.

use std::collections::HashMap;

use vstd::arithmetic::power2::*;
use vstd::prelude::*;

use crate::fft;
use crate::fft::good_length;
use crate::fort;
use crate::fort::count_of;
use crate::reals::Single;

verus! {

broadcast use vstd::std_specs::hash::group_hash_axioms;

/// The shape of one transform.
#[derive(Clone, Copy, Debug, PartialEq, Eq, Structural)]
pub struct SpectrumPlan {
    /// The number of points.
    pub np2: usize,
    /// The number of bins from zero frequency to Nyquist, both with it.
    pub fold_count: usize,
}

/// Whether `np2` points can be mirrored about a Nyquist bin.
pub open spec fn mirrors(np2: int) -> bool {
    np2 >= 2 && np2 % 2 == 0
}

/// The plan for `np2` points.
pub open spec fn plan_for(np2: int) -> SpectrumPlan {
    SpectrumPlan { np2: np2 as usize, fold_count: (np2 / 2 + 1) as usize }
}

/// The bin that bin `bin` is the conjugate of.
pub open spec fn conjugate_bin(np2: int, bin: int) -> int {
    if bin == 0 {
        0
    } else {
        np2 - bin
    }
}

/// The radiation gain that applies to bin `bin`: its own up to Nyquist, that of its conjugate
/// beyond.
pub open spec fn gain_bin(np2: int, bin: int) -> int {
    if bin <= np2 / 2 {
        bin
    } else {
        np2 - bin
    }
}

impl SpectrumPlan {
    /// The transform length for a window: `points` is twice the window over the sample interval,
    /// and is cut to whole samples.
    pub fn length_for(points: Single) -> (np2: usize)
        requires
            fort::counted(points) <= usize::MAX as int / 2 + 1,
        ensures
            fft::is_good_length(fort::counted(points) as int, np2 as int),
            mirrors(np2 as int),
    {
        let samples: usize = count_of(points);
        let np2 = good_length(samples);
        proof {
            fft::a_good_length_is_even(samples as int, np2 as int);
        }
        np2
    }

    /// The plan for `np2` points.
    pub fn new(np2: usize) -> (p: Self)
        requires
            mirrors(np2 as int),
        ensures
            p == plan_for(np2 as int),
    {
        SpectrumPlan { np2, fold_count: np2 / 2 + 1 }
    }

    /// The bin that a bin beyond Nyquist is the conjugate of.
    pub fn mirror_of(&self, bin: usize) -> (source: usize)
        requires
            mirrors(self.np2 as int),
            self.np2 / 2 < bin < self.np2,
        ensures
            source == conjugate_bin(self.np2 as int, bin as int),
            1 <= source < self.np2 / 2,
    {
        self.np2 - bin
    }

    /// Which entry of a gain curve over the bins up to Nyquist applies to a bin.
    pub fn gain_of(&self, bin: usize) -> (entry: usize)
        requires
            *self == plan_for(self.np2 as int),
            mirrors(self.np2 as int),
            bin < self.np2,
        ensures
            entry == gain_bin(self.np2 as int, bin as int),
            entry < self.fold_count,
    {
        if bin <= self.np2 / 2 {
            bin
        } else {
            self.np2 - bin
        }
    }

    /// Where the closing taper starts: it covers the last tenth of the samples.
    pub fn taper_start(&self) -> (start: usize)
        ensures
            start == self.np2 - self.np2 / 10,
    {
        self.np2 - self.np2 / 10
    }
}

/// Conjugation pairs the bins: doing it twice changes nothing, it keeps every bin in the
/// spectrum, and only zero frequency and Nyquist are their own conjugates. A bin and its
/// conjugate take the same gain.
pub proof fn bins_come_in_pairs(np2: int, bin: int)
    requires
        mirrors(np2),
        np2 <= usize::MAX,
        0 <= bin < np2,
    ensures
        0 <= conjugate_bin(np2, bin) < np2,
        conjugate_bin(np2, conjugate_bin(np2, bin)) == bin,
        conjugate_bin(np2, bin) == bin <==> bin == 0 || bin == np2 / 2,
        gain_bin(np2, conjugate_bin(np2, bin)) == gain_bin(np2, bin),
        0 <= gain_bin(np2, bin) < plan_for(np2).fold_count,
{
}

// ---------------------------------------------------------------------------
// The cache
// ---------------------------------------------------------------------------

/// The plans that a station needs, one per length, built on demand.
pub struct PlanCache {
    plans: HashMap<usize, SpectrumPlan>,
}

impl PlanCache {
    /// The lengths that have been built.
    pub closed spec fn lengths(self) -> Set<usize> {
        self.plans@.dom()
    }

    /// Every plan that is held is the plan for its length.
    pub closed spec fn well_formed(self) -> bool {
        &&& self.plans@.dom().finite()
        &&& forall|np2: usize| #[trigger]
            self.plans@.contains_key(np2) ==> self.plans@[np2] == plan_for(np2 as int)
    }

    /// An empty cache.
    pub fn new() -> (c: Self)
        ensures
            c.well_formed(),
            c.lengths() == Set::<usize>::empty(),
    {
        PlanCache { plans: HashMap::new() }
    }

    /// The plan for a window, as [`SpectrumPlan::length_for`] has its length.
    pub fn for_window(&mut self, points: Single) -> (p: SpectrumPlan)
        requires
            old(self).well_formed(),
            fort::counted(points) <= usize::MAX as int / 2 + 1,
        ensures
            final(self).well_formed(),
            fft::is_good_length(fort::counted(points) as int, p.np2 as int),
            p == plan_for(p.np2 as int),
            final(self).lengths() == old(self).lengths().insert(p.np2),
    {
        let np2 = SpectrumPlan::length_for(points);
        self.for_length(np2)
    }

    /// The plan for `np2` points.
    pub fn for_length(&mut self, np2: usize) -> (p: SpectrumPlan)
        requires
            old(self).well_formed(),
            mirrors(np2 as int),
        ensures
            final(self).well_formed(),
            p == plan_for(np2 as int),
            final(self).lengths() == old(self).lengths().insert(np2),
    {
        match self.plans.get(&np2) {
            Some(plan) => {
                let p: SpectrumPlan = *plan;
                assert(self.plans@.contains_key(np2));
                assert(old(self).lengths() =~= old(self).lengths().insert(np2));
                p
            },
            None => {
                let p = SpectrumPlan::new(np2);
                self.plans.insert(np2, p);
                p
            },
        }
    }

    /// How many lengths have been built.
    pub fn len(&self) -> (n: usize)
        requires
            self.well_formed(),
        ensures
            n == self.lengths().len(),
    {
        self.plans.len()
    }

    /// Whether nothing has been built yet.
    pub fn is_empty(&self) -> (b: bool)
        requires
            self.well_formed(),
        ensures
            b == (self.lengths().len() == 0),
    {
        self.plans.len() == 0
    }
}

/// One plan per length, not one per request: asking for a length again builds nothing, and
/// asking for a new one builds one plan.
pub proof fn one_plan_per_length(lengths: Set<usize>, np2: usize)
    requires
        lengths.finite(),
    ensures
        lengths.contains(np2) ==> lengths.insert(np2) == lengths,
        !lengths.contains(np2) ==> lengths.insert(np2).len() == lengths.len() + 1,
{
    if lengths.contains(np2) {
        assert(lengths.insert(np2) =~= lengths);
    }
}

// ---------------------------------------------------------------------------
// Powers of two
// ---------------------------------------------------------------------------

/// Whether `n` is the smallest power of two, from two on, that is no smaller than `at_least`.
pub open spec fn is_power_length(at_least: int, n: int) -> bool {
    exists|a: nat|
        a >= 1 && n == #[trigger] pow2(a) && n >= at_least && (a == 1 || pow2((a - 1) as nat)
            < at_least)
}

/// The smallest power of two, from two on, that holds `at_least` points; `None` where that is
/// over `limit`.
pub fn power_length(at_least: usize, limit: usize) -> (r: Option<usize>)
    requires
        limit >= 2,
        limit <= usize::MAX / 2,
    ensures
        match r {
            Some(n) => is_power_length(at_least as int, n as int) && n <= limit,
            None => forall|n: int| #[trigger] is_power_length(at_least as int, n) ==> n > limit,
        },
{
    let mut n: usize = 2;
    let ghost mut a: nat = 1;
    proof {
        lemma2_to64();
    }
    while n < at_least && n <= limit
        invariant
            a >= 1,
            n == pow2(a),
            a == 1 || pow2((a - 1) as nat) < at_least,
            n <= 2 * limit,
            limit <= usize::MAX / 2,
        decreases 2 * limit - n + 1,
    {
        proof {
            lemma_pow2_unfold(a + 1);
            lemma_pow2_pos(a);
            a = a + 1;
        }
        n = n * 2;
    }
    if n > limit {
        proof {
            assert forall|o: int| #[trigger] is_power_length(at_least as int, o) implies o
                > limit by {
                let b = choose|b: nat|
                    b >= 1 && o == #[trigger] pow2(b) && o >= at_least && (b == 1 || pow2(
                        (b - 1) as nat,
                    ) < at_least);
                if b < a {
                    // A smaller power that holds the points would have ended the search.
                    if b < a - 1 {
                        lemma_pow2_strictly_increases(b, (a - 1) as nat);
                    }
                } else if a < b {
                    lemma_pow2_strictly_increases(a, b);
                }
            }
        }
        None
    } else {
        Some(n)
    }
}

/// A power length holds what it is for, and half of it would not: it is a power of two from two
/// on, and no other is one for the same points. More points never have a shorter one.
pub proof fn power_lengths_are_least(at_least: int, n: int, more: int, m: int)
    requires
        is_power_length(at_least, n),
        is_power_length(more, m),
        at_least <= more,
    ensures
        at_least <= n,
        n == 2 || n < 2 * at_least,
        n >= 2 && n % 2 == 0,
        n <= m,
        at_least == more ==> n == m,
{
    let a = choose|a: nat|
        a >= 1 && n == #[trigger] pow2(a) && n >= at_least && (a == 1 || pow2((a - 1) as nat)
            < at_least);
    let b = choose|b: nat|
        b >= 1 && m == #[trigger] pow2(b) && m >= more && (b == 1 || pow2((b - 1) as nat) < more);
    lemma2_to64();
    lemma_pow2_unfold(a);
    lemma_pow2_unfold(b);
    lemma_pow2_pos((a - 1) as nat);
    if b < a {
        if b < a - 1 {
            lemma_pow2_strictly_increases(b, (a - 1) as nat);
        }
        assert(false);
    } else if a < b {
        lemma_pow2_strictly_increases(a, b);
        if a < b - 1 {
            lemma_pow2_strictly_increases(a, (b - 1) as nat);
        }
    }
}

/// A bin and the one that it is the conjugate of stand for a frequency and its negative: together
/// they make up whole turns.
pub proof fn conjugates_are_negative_frequencies(np2: int, bin: int)
    requires
        0 <= bin < np2,
    ensures
        (bin + conjugate_bin(np2, bin)) % np2 == 0,
        gain_bin(np2, bin) <= np2 - gain_bin(np2, bin),
        gain_bin(np2, bin) == bin || gain_bin(np2, bin) == np2 - bin,
{
    assert(0int % np2 == 0 && np2 % np2 == 0) by (nonlinear_arith)
        requires
            np2 > 0,
    ;
}

} // verus!
