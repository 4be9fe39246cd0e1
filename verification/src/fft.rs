//! Transform lengths.
//!
//! A transform length is even, because spectra are mirrored about their Nyquist bin, and it is a
//! rung of a ladder: a small odd number times a power of two. The ladder has four rungs per
//! octave, so few distinct lengths occur and none is much longer than asked for.

use vstd::arithmetic::power2::*;
use vstd::prelude::*;

verus! {

/// Whether `n` is `m * 2^a` with at least one factor of two.
pub open spec fn is_even_multiple(m: nat, n: int) -> bool {
    exists|a: nat| a >= 1 && n == m * #[trigger] pow2(a)
}

/// Whether `n` is a rung: an even number of the form `m * 2^a`, with `m` one of 1, 3, 5 and 7.
pub open spec fn is_rung(n: int) -> bool {
    ||| is_even_multiple(1, n)
    ||| is_even_multiple(3, n)
    ||| is_even_multiple(5, n)
    ||| is_even_multiple(7, n)
}

/// Whether `n` is the smallest even multiple of `m`, by a power of two, that is no smaller than
/// `at_least`.
pub open spec fn is_smallest_multiple(m: nat, at_least: int, n: int) -> bool {
    &&& n >= at_least
    &&& is_even_multiple(m, n)
    &&& forall|o: int| o >= at_least && #[trigger] is_even_multiple(m, o) ==> n <= o
}

/// Whether `n` is the smallest rung that is no smaller than `at_least`, and than two.
pub open spec fn is_good_length(at_least: int, n: int) -> bool {
    &&& n >= 2
    &&& n >= at_least
    &&& is_rung(n)
    &&& forall|o: int| o >= 2 && o >= at_least && #[trigger] is_rung(o) ==> n <= o
}

/// Powers of two ascend.
proof fn powers_ascend(a: nat, b: nat)
    requires
        a <= b,
    ensures
        pow2(a) <= pow2(b),
{
    if a < b {
        lemma_pow2_strictly_increases(a, b);
    }
}

/// The smallest even multiple of `multiplier`, by a power of two, from `at_least` on.
fn smallest_multiple(multiplier: usize, at_least: usize) -> (n: usize)
    requires
        2 <= at_least <= usize::MAX as int / 2 + 1,
        1 <= multiplier <= 7,
        multiplier % 2 == 1,
    ensures
        is_smallest_multiple(multiplier as nat, at_least as int, n as int),
{
    let mut candidate: usize = multiplier;
    let ghost mut a: nat = 0;
    proof {
        lemma2_to64();
    }
    while candidate < at_least || candidate % 2 != 0
        invariant
            2 <= at_least <= usize::MAX as int / 2 + 1,
            1 <= multiplier <= 7,
            candidate == multiplier * pow2(a),
            a == 0 ==> candidate == multiplier && candidate % 2 == 1,
            a >= 1 ==> candidate % 2 == 0,
            a >= 2 ==> multiplier * pow2((a - 1) as nat) < at_least,
            1 <= candidate <= 2 * at_least + 16,
        decreases 2 * at_least + 16 - candidate,
    {
        proof {
            lemma_pow2_unfold(a + 1);
            let p = pow2(a) as int;
            assert(multiplier * (2 * p) == 2 * (multiplier * p)) by (nonlinear_arith);
            a = a + 1;
        }
        candidate = candidate * 2;
    }
    proof {
        assert(a >= 1);
        let m = multiplier as nat;
        assert forall|o: int| o >= at_least && #[trigger] is_even_multiple(m, o) implies candidate
            <= o by {
            let b = choose|b: nat| b >= 1 && o == m * #[trigger] pow2(b);
            if b < a {
                powers_ascend(b, (a - 1) as nat);
                assert(m * pow2(b) <= m * pow2((a - 1) as nat)) by (nonlinear_arith)
                    requires
                        pow2(b) <= pow2((a - 1) as nat),
                ;
            } else {
                powers_ascend(a, b);
                assert(m * pow2(a) <= m * pow2(b)) by (nonlinear_arith)
                    requires
                        pow2(a) <= pow2(b),
                ;
            }
        }
        assert(candidate == m * pow2(a));
    }
    candidate
}

/// The transform length for a signal of at least `at_least` samples: the smallest rung that
/// holds it, and two at the least.
pub fn good_length(at_least: usize) -> (n: usize)
    requires
        at_least <= usize::MAX as int / 2 + 1,
    ensures
        is_good_length(at_least as int, n as int),
{
    let wanted: usize = if at_least < 2 { 2 } else { at_least };
    let mut best: usize = smallest_multiple(1, wanted);
    let three: usize = smallest_multiple(3, wanted);
    if three < best {
        best = three;
    }
    let five: usize = smallest_multiple(5, wanted);
    if five < best {
        best = five;
    }
    let seven: usize = smallest_multiple(7, wanted);
    if seven < best {
        best = seven;
    }
    best
}

// ---------------------------------------------------------------------------
// Laws
// ---------------------------------------------------------------------------

/// A signal has one good length.
pub proof fn a_good_length_is_unique(at_least: int, a: int, b: int)
    requires
        is_good_length(at_least, a),
        is_good_length(at_least, b),
    ensures
        a == b,
{
    assert(is_rung(a) && is_rung(b));
}

/// A longer signal never has a shorter good length.
pub proof fn good_lengths_ascend(short: int, long: int, a: int, b: int)
    requires
        short <= long,
        is_good_length(short, a),
        is_good_length(long, b),
    ensures
        a <= b,
{
    assert(is_rung(b));
}

/// A good length is even, and its odd part is 1, 3, 5 or 7.
pub proof fn a_good_length_is_even(at_least: int, n: int)
    requires
        is_good_length(at_least, n),
    ensures
        n % 2 == 0,
        exists|m: nat, a: nat|
            (m == 1 || m == 3 || m == 5 || m == 7) && n == m * #[trigger] pow2(a) && a >= 1
                && #[trigger] is_even_multiple(m, n),
{
    let m: nat = if is_even_multiple(1, n) {
        1
    } else if is_even_multiple(3, n) {
        3
    } else if is_even_multiple(5, n) {
        5
    } else {
        7
    };
    assert(is_even_multiple(m, n));
    let a = choose|a: nat| a >= 1 && n == m * #[trigger] pow2(a);
    lemma_pow2_unfold(a);
    let p = pow2((a - 1) as nat) as int;
    assert(m * (2 * p) == 2 * (m * p)) by (nonlinear_arith);
}

/// A good length never exceeds a power of two that is long enough.
pub proof fn a_good_length_is_within_the_power_of_two(at_least: int, n: int, a: nat)
    requires
        is_good_length(at_least, n),
        a >= 1,
        pow2(a) >= at_least,
    ensures
        n <= pow2(a),
{
    let p = pow2(a) as int;
    assert(p == 1 * pow2(a));
    assert(is_even_multiple(1, p));
    assert(is_rung(p));
    lemma_pow2_unfold(a);
    lemma_pow2_pos((a - 1) as nat);
}

/// The octave that `n` is in: the power of two at or below it.
proof fn octave_of(n: int) -> (k: nat)
    requires
        n >= 1,
    ensures
        pow2(k) <= n < pow2(k + 1),
    decreases n,
{
    lemma2_to64();
    if n == 1 {
        0
    } else {
        let k = octave_of(n / 2);
        lemma_pow2_unfold(k + 1);
        lemma_pow2_unfold(k + 2);
        k + 1
    }
}

/// From eight on, the quarter points of an octave are rungs.
proof fn quarters_are_rungs(k: nat)
    requires
        k >= 3,
    ensures
        ({
            let q = pow2((k - 2) as nat) as int;
            &&& q >= 2
            &&& pow2(k) == 4 * q
            &&& pow2(k + 1) == 8 * q
            &&& is_rung(4 * q)
            &&& is_rung(5 * q)
            &&& is_rung(6 * q)
            &&& is_rung(7 * q)
            &&& is_rung(8 * q)
        }),
{
    let q = pow2((k - 2) as nat) as int;
    lemma_pow2_unfold((k - 2) as nat);
    lemma_pow2_unfold((k - 1) as nat);
    lemma_pow2_unfold(k);
    lemma_pow2_unfold(k + 1);
    lemma_pow2_pos((k - 3) as nat);
    assert(4 * q == 1 * pow2(k));
    assert(is_even_multiple(1, 4 * q));
    assert(5 * q == 5 * pow2((k - 2) as nat));
    assert(is_even_multiple(5, 5 * q));
    assert(6 * q == 3 * pow2((k - 1) as nat));
    assert(is_even_multiple(3, 6 * q));
    assert(7 * q == 7 * pow2((k - 2) as nat));
    assert(is_even_multiple(7, 7 * q));
    assert(8 * q == 1 * pow2(k + 1));
    assert(is_even_multiple(1, 8 * q));
}

/// The ladder overshoots by a quarter at most. The one exception is a signal of three samples,
/// which takes four.
pub proof fn the_overshoot_is_at_most_a_quarter(at_least: int, n: int)
    requires
        at_least >= 2,
        at_least != 3,
        is_good_length(at_least, n),
    ensures
        4 * n <= 5 * at_least,
{
    lemma2_to64();
    if at_least < 8 {
        assert(2 == 1 * pow2(1) && 4 == 1 * pow2(2) && 8 == 1 * pow2(3) && 6 == 3 * pow2(1));
        assert(is_even_multiple(1, 2) && is_even_multiple(1, 4) && is_even_multiple(1, 8));
        assert(is_even_multiple(3, 6));
        assert(is_rung(2) && is_rung(4) && is_rung(6) && is_rung(8));
    } else {
        let k = octave_of(at_least);
        if k < 3 {
            powers_ascend(k + 1, 3);
        }
        quarters_are_rungs(k);
    }
}

/// From eight on, an octave has four rungs and the next octave's first: no other number in it is
/// one.
pub proof fn the_ladder_has_four_rungs_per_octave(k: nat, n: int)
    requires
        k >= 3,
        pow2(k) <= n <= pow2(k + 1),
    ensures
        ({
            let q = pow2((k - 2) as nat);
            is_rung(n) <==> n == 4 * q || n == 5 * q || n == 6 * q || n == 7 * q || n == 8 * q
        }),
{
    quarters_are_rungs(k);
    let q = pow2((k - 2) as nat) as int;
    if is_rung(n) {
        let m: nat = if is_even_multiple(1, n) {
            1
        } else if is_even_multiple(3, n) {
            3
        } else if is_even_multiple(5, n) {
            5
        } else {
            7
        };
        let a = choose|a: nat| a >= 1 && n == m * #[trigger] pow2(a);
        lemma_pow2_unfold((k - 1) as nat);
        if a + 3 <= k {
            // Even seven times this power is below the octave.
            powers_ascend(a, (k - 3) as nat);
            lemma_pow2_unfold((k - 2) as nat);
            assert(m * pow2(a) <= 7 * pow2((k - 3) as nat)) by (nonlinear_arith)
                requires
                    m <= 7,
                    pow2(a) <= pow2((k - 3) as nat),
            ;
        } else if a > k + 1 {
            lemma_pow2_strictly_increases(k + 1, a);
            assert(m * pow2(a) >= pow2(a)) by (nonlinear_arith)
                requires
                    m >= 1,
            ;
        } else {
            assert(a == k - 2 || a == k - 1 || a == k || a == k + 1);
        }
    }
}

/// A window of up to `7 * 2^28` samples has a transform no longer than that, which is the longest
/// rung that an `i32` holds.
pub proof fn the_longest_window_fits(at_least: int, n: int)
    requires
        at_least <= 1_879_048_192,
        is_good_length(at_least, n),
    ensures
        n <= 1_879_048_192,
{
    lemma2_to64();
    assert(pow2(28) == 268_435_456);
    assert(is_even_multiple(7, 7 * pow2(28) as int));
    assert(is_rung(1_879_048_192));
}

} // verus!
