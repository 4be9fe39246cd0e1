//! Real numbers that the library carries and compares but never computes with.
//!
//! A [`Single`] and a [`Double`] hold the IEEE 754 bit pattern of a number. The arithmetic on
//! them is the caller's; what the library needs is their order, and that is an order on bit
//! patterns: sign and magnitude, with the two zeros equal and what is not a number unordered.

use vstd::arithmetic::div_mod::*;
use vstd::arithmetic::power2::*;
use vstd::prelude::*;

verus! {

/// A single-precision number, as its bit pattern.
///
/// The derived `==` compares bit patterns. [`Single::equals`] is the numeric comparison.
#[derive(Clone, Copy, Debug, PartialEq, Eq, Structural)]
pub struct Single(pub u32);

/// A double-precision number, as its bit pattern.
///
/// The derived `==` compares bit patterns. [`Double::equals`] is the numeric comparison.
#[derive(Clone, Copy, Debug, PartialEq, Eq, Structural)]
pub struct Double(pub u64);

impl Single {
    /// The pattern without its sign bit.
    pub open spec fn magnitude(self) -> int {
        if self.0 >= 0x8000_0000 {
            self.0 - 0x8000_0000
        } else {
            self.0 as int
        }
    }

    /// Whether this is a number: its magnitude is at most that of infinity.
    pub open spec fn ordered(self) -> bool {
        self.magnitude() <= 0x7f80_0000
    }

    /// Where the number stands among all numbers.
    pub open spec fn rank(self) -> int {
        if self.0 >= 0x8000_0000 {
            -self.magnitude()
        } else {
            self.magnitude()
        }
    }

    /// `self < other`, as numbers.
    pub open spec fn below(self, other: Single) -> bool {
        self.ordered() && other.ordered() && self.rank() < other.rank()
    }

    /// `self <= other`, as numbers.
    pub open spec fn at_most(self, other: Single) -> bool {
        self.ordered() && other.ordered() && self.rank() <= other.rank()
    }

    /// `self == other`, as numbers.
    pub open spec fn same(self, other: Single) -> bool {
        self.ordered() && other.ordered() && self.rank() == other.rank()
    }

    /// The magnitude, and whether the sign bit is set.
    fn parts(self) -> (r: (u32, bool))
        ensures
            r.0 == self.magnitude(),
            r.1 == (self.0 >= 0x8000_0000),
    {
        if self.0 >= 0x8000_0000 {
            (self.0 - 0x8000_0000, true)
        } else {
            (self.0, false)
        }
    }

    /// Whether `self < other`.
    pub fn is_below(self, other: Single) -> (b: bool)
        ensures
            b == self.below(other),
    {
        let (a, a_negative) = self.parts();
        let (b, b_negative) = other.parts();
        if a > 0x7f80_0000 || b > 0x7f80_0000 {
            false
        } else if a_negative && b_negative {
            b < a
        } else if a_negative {
            a > 0 || b > 0
        } else if b_negative {
            false
        } else {
            a < b
        }
    }

    /// Whether `self == other`.
    pub fn equals(self, other: Single) -> (b: bool)
        ensures
            b == self.same(other),
    {
        let (a, a_negative) = self.parts();
        let (b, b_negative) = other.parts();
        if a > 0x7f80_0000 || b > 0x7f80_0000 {
            false
        } else {
            a == b && (a_negative == b_negative || a == 0)
        }
    }

    /// Whether `self <= other`.
    pub fn is_at_most(self, other: Single) -> (b: bool)
        ensures
            b == self.at_most(other),
    {
        self.is_below(other) || self.equals(other)
    }
}

impl Double {
    /// The pattern without its sign bit.
    pub open spec fn magnitude(self) -> int {
        if self.0 >= 0x8000_0000_0000_0000 {
            self.0 - 0x8000_0000_0000_0000
        } else {
            self.0 as int
        }
    }

    /// Whether this is a number: its magnitude is at most that of infinity.
    pub open spec fn ordered(self) -> bool {
        self.magnitude() <= 0x7ff0_0000_0000_0000
    }

    /// Where the number stands among all numbers.
    pub open spec fn rank(self) -> int {
        if self.0 >= 0x8000_0000_0000_0000 {
            -self.magnitude()
        } else {
            self.magnitude()
        }
    }

    /// `self < other`, as numbers.
    pub open spec fn below(self, other: Double) -> bool {
        self.ordered() && other.ordered() && self.rank() < other.rank()
    }

    /// `self <= other`, as numbers.
    pub open spec fn at_most(self, other: Double) -> bool {
        self.ordered() && other.ordered() && self.rank() <= other.rank()
    }

    /// `self == other`, as numbers.
    pub open spec fn same(self, other: Double) -> bool {
        self.ordered() && other.ordered() && self.rank() == other.rank()
    }

    /// The magnitude, and whether the sign bit is set.
    fn parts(self) -> (r: (u64, bool))
        ensures
            r.0 == self.magnitude(),
            r.1 == (self.0 >= 0x8000_0000_0000_0000),
    {
        if self.0 >= 0x8000_0000_0000_0000 {
            (self.0 - 0x8000_0000_0000_0000, true)
        } else {
            (self.0, false)
        }
    }

    /// Whether `self < other`.
    pub fn is_below(self, other: Double) -> (b: bool)
        ensures
            b == self.below(other),
    {
        let (a, a_negative) = self.parts();
        let (b, b_negative) = other.parts();
        if a > 0x7ff0_0000_0000_0000 || b > 0x7ff0_0000_0000_0000 {
            false
        } else if a_negative && b_negative {
            b < a
        } else if a_negative {
            a > 0 || b > 0
        } else if b_negative {
            false
        } else {
            a < b
        }
    }

    /// Whether `self == other`.
    pub fn equals(self, other: Double) -> (b: bool)
        ensures
            b == self.same(other),
    {
        let (a, a_negative) = self.parts();
        let (b, b_negative) = other.parts();
        if a > 0x7ff0_0000_0000_0000 || b > 0x7ff0_0000_0000_0000 {
            false
        } else {
            a == b && (a_negative == b_negative || a == 0)
        }
    }

    /// Whether `self <= other`.
    pub fn is_at_most(self, other: Double) -> (b: bool)
        ensures
            b == self.at_most(other),
    {
        self.is_below(other) || self.equals(other)
    }
}

// ---------------------------------------------------------------------------
// Dyadic fractions
// ---------------------------------------------------------------------------

/// Whether `s` is the number `n / 2^shift`.
///
/// A normal single with exponent field `e` and fraction field `f` is `(2^23 + f) * 2^(e - 150)`,
/// so `n * 2^(150 - shift - e) == 2^23 + f` says that the two are equal.
pub open spec fn is_dyadic(s: Single, n: u32, shift: int) -> bool {
    if n == 0 {
        s.0 == 0
    } else {
        let (e, f) = (s.0 / 0x80_0000, s.0 % 0x80_0000);
        1 <= e <= 150 - shift && n * pow2((150 - shift - e) as nat) == 0x80_0000 + f
    }
}

/// `n / 2^shift`, without rounding: `n` has no more bits than a single holds.
pub fn dyadic(n: u32, shift: u32) -> (s: Single)
    requires
        n < 0x100_0000,
        shift <= 24,
    ensures
        is_dyadic(s, n, shift as int),
{
    if n == 0 {
        return Single(0);
    }
    let top: u32 = 150 - shift;
    let mut m: u32 = n;
    let mut e: u32 = top;
    proof {
        lemma2_to64();
        assert(n * pow2(0) == n) by (nonlinear_arith)
            requires
                pow2(0) == 1,
        ;
    }
    while m < 0x80_0000
        invariant
            0 < n < 0x100_0000,
            126 <= top <= 150,
            top - 23 <= e <= top,
            m < 0x100_0000,
            m == n * pow2((top - e) as nat),
            m < 0x80_0000 ==> e > top - 23,
        decreases e,
    {
        proof {
            lemma_pow2_unfold((top - e + 1) as nat);
            lemma_pow2_pos((top - e) as nat);
            let p = pow2((top - e) as nat) as int;
            assert(n * (2 * p) == 2 * (n * p)) by (nonlinear_arith);
        }
        m = m * 2;
        e = e - 1;
        proof {
            if e == top - 23 {
                lemma2_to64();
                assert(m >= 0x80_0000) by (nonlinear_arith)
                    requires
                        m == n * pow2(23),
                        pow2(23) == 0x80_0000,
                        n >= 1,
                ;
            }
        }
    }
    let s = Single(e * 0x80_0000 + (m - 0x80_0000));
    assert(s.0 / 0x80_0000 == e && s.0 % 0x80_0000 == m - 0x80_0000) by (nonlinear_arith)
        requires
            s.0 == e * 0x80_0000 + (m - 0x80_0000),
            0x80_0000 <= m < 0x100_0000,
    ;
    s
}

/// A dyadic fraction is a number, no smaller than zero, and a smaller one than `2^(24 - shift)`.
pub proof fn dyadic_bounds(s: Single, n: u32, shift: int)
    requires
        is_dyadic(s, n, shift),
        n < 0x100_0000,
        0 <= shift <= 24,
    ensures
        s.ordered(),
        0 <= s.rank() < (151 - shift) * 0x80_0000,
{
    if n > 0 {
        let e = s.0 / 0x80_0000;
        assert(s.0 < (e + 1) * 0x80_0000 <= (151 - shift) * 0x80_0000) by (nonlinear_arith)
            requires
                e == s.0 / 0x80_0000,
                e <= 150 - shift,
        ;
    }
}

/// A larger numerator is a larger number.
proof fn dyadics_ascend(a: Single, b: Single, m: u32, n: u32, shift: int)
    requires
        is_dyadic(a, m, shift),
        is_dyadic(b, n, shift),
        m < n < 0x100_0000,
        0 <= shift <= 24,
    ensures
        a.below(b),
{
    dyadic_bounds(a, m, shift);
    dyadic_bounds(b, n, shift);
    if m > 0 {
        let top = 150 - shift;
        let (d, f) = (a.0 / 0x80_0000, a.0 % 0x80_0000);
        let (e, g) = (b.0 / 0x80_0000, b.0 % 0x80_0000);
        if d > e {
            // `n` has the smaller exponent, so it would be the smaller number.
            let (p, q) = (pow2((top - d) as nat) as int, pow2((top - e) as nat) as int);
            lemma_pow2_adds((top - d) as nat, (d - e) as nat);
            lemma_pow2_unfold((d - e) as nat);
            lemma_pow2_pos((d - e - 1) as nat);
            lemma_pow2_pos((top - d) as nat);
            let r = pow2((d - e) as nat) as int;
            assert(q == p * r);
            assert(n * q >= 2 * (m * p)) by (nonlinear_arith)
                requires
                    q == p * r,
                    r >= 2,
                    p >= 1,
                    n > m,
                    m > 0,
            ;
        } else if d == e {
            let p = pow2((top - d) as nat) as int;
            lemma_pow2_pos((top - d) as nat);
            assert(n * p > m * p) by (nonlinear_arith)
                requires
                    n > m,
                    p >= 1,
            ;
        }
    }
}

/// Only one exponent normalises a numerator.
proof fn exponents_agree(m: u32, low: nat, high: nat, top: nat)
    requires
        0 < m,
        low < high <= top,
        0x80_0000 <= m * pow2((top - high) as nat),
    ensures
        m * pow2((top - low) as nat) >= 0x100_0000,
{
    let p = pow2((top - high) as nat) as int;
    let r = pow2((high - low) as nat) as int;
    lemma_pow2_adds((top - high) as nat, (high - low) as nat);
    lemma_pow2_unfold((high - low) as nat);
    lemma_pow2_pos((high - low - 1) as nat);
    assert(m * (p * r) >= 2 * (m * p)) by (nonlinear_arith)
        requires
            r >= 2,
            p >= 0,
            m > 0,
    ;
}

/// Dyadic fractions over one power of two are ordered as their numerators, and one numerator is
/// one bit pattern.
pub proof fn dyadics_keep_order(a: Single, b: Single, m: u32, n: u32, shift: int)
    requires
        is_dyadic(a, m, shift),
        is_dyadic(b, n, shift),
        m < 0x100_0000,
        n < 0x100_0000,
        0 <= shift <= 24,
    ensures
        a.below(b) <==> m < n,
        a.same(b) <==> m == n,
        m == n ==> a == b,
{
    dyadic_bounds(a, m, shift);
    if m < n {
        dyadics_ascend(a, b, m, n, shift);
    } else if n < m {
        dyadics_ascend(b, a, n, m, shift);
    } else if m > 0 {
        let (d, e) = (a.0 / 0x80_0000, b.0 / 0x80_0000);
        if d < e {
            exponents_agree(m, d as nat, e as nat, (150 - shift) as nat);
        } else if e < d {
            exponents_agree(m, e as nat, d as nat, (150 - shift) as nat);
        }
    }
}

/// Every numerator that fits has its bit pattern.
pub proof fn dyadics_exist(n: u32, shift: int) -> (s: Single)
    requires
        n < 0x100_0000,
        0 <= shift <= 24,
    ensures
        is_dyadic(s, n, shift),
{
    if n == 0 {
        Single(0)
    } else {
        lemma2_to64();
        assert(n * pow2(0) == n) by (nonlinear_arith)
            requires
                pow2(0) == 1,
        ;
        normalised_dyadic(n, n as int, 0, shift)
    }
}

/// Doubling a numerator up to the leading bit gives the bit pattern.
proof fn normalised_dyadic(n: u32, m: int, doubled: nat, shift: int) -> (s: Single)
    requires
        0 < n <= m < 0x100_0000,
        0 <= shift <= 24,
        m == n * pow2(doubled),
        doubled <= 23,
    ensures
        is_dyadic(s, n, shift),
    decreases 0x100_0000 - m,
{
    if m >= 0x80_0000 {
        let e = 150 - shift - doubled;
        let bits = e * 0x80_0000 + (m - 0x80_0000);
        assert(0 <= bits < 0x8000_0000) by (nonlinear_arith)
            requires
                bits == e * 0x80_0000 + (m - 0x80_0000),
                1 <= e <= 150,
                0x80_0000 <= m < 0x100_0000,
        ;
        let s = Single(bits as u32);
        assert(s.0 / 0x80_0000 == e && s.0 % 0x80_0000 == m - 0x80_0000) by (nonlinear_arith)
            requires
                s.0 == e * 0x80_0000 + (m - 0x80_0000),
                0x80_0000 <= m < 0x100_0000,
        ;
        s
    } else {
        lemma_pow2_unfold(doubled + 1);
        let p = pow2(doubled) as int;
        assert(n * (2 * p) == 2 * (n * p)) by (nonlinear_arith);
        if doubled == 23 {
            lemma2_to64();
            assert(m >= 0x80_0000) by (nonlinear_arith)
                requires
                    m == n * pow2(23),
                    pow2(23) == 0x80_0000,
                    n >= 1,
            ;
        }
        normalised_dyadic(n, 2 * m, doubled + 1, shift)
    }
}

// ---------------------------------------------------------------------------
// Values
// ---------------------------------------------------------------------------

/// The significand and the exponent of a single: the number is `significand * 2^exponent`.
pub open spec fn single_parts(x: Single) -> (nat, int) {
    let (e, f) = (x.magnitude() / 0x80_0000, x.magnitude() % 0x80_0000);
    if e == 0 {
        (f as nat, -149)
    } else {
        ((0x80_0000 + f) as nat, e - 150)
    }
}

/// The significand and the exponent of a double: the number is `significand * 2^exponent`.
pub open spec fn double_parts(x: Double) -> (nat, int) {
    let (e, f) = (x.magnitude() / 0x10_0000_0000_0000, x.magnitude() % 0x10_0000_0000_0000);
    if e == 0 {
        (f as nat, -1074)
    } else {
        ((0x10_0000_0000_0000 + f) as nat, e - 1075)
    }
}

/// The whole part of `m * 2^e`.
pub open spec fn scaled(m: nat, e: int) -> nat {
    if e >= 0 {
        m * pow2(e as nat)
    } else {
        m / pow2((-e) as nat)
    }
}

/// The parts of a finite single.
pub fn parts_of(x: Single) -> (r: (u64, i32, bool))
    requires
        x.magnitude() < 0x7f80_0000,
    ensures
        (r.0 as nat, r.1 as int) == single_parts(x),
        r.2 == (x.0 >= 0x8000_0000),
        r.0 < 0x100_0000,
        -149 <= r.1 <= 104,
{
    let negative: bool = x.0 >= 0x8000_0000;
    let bits: u32 = if negative { x.0 - 0x8000_0000 } else { x.0 };
    let e: u32 = bits / 0x80_0000;
    let f: u32 = bits % 0x80_0000;
    if e == 0 {
        (f as u64, -149, negative)
    } else {
        ((0x80_0000 + f) as u64, e as i32 - 150, negative)
    }
}

/// The parts of a finite double.
pub fn parts_of64(x: Double) -> (r: (u64, i32, bool))
    requires
        x.magnitude() < 0x7ff0_0000_0000_0000,
    ensures
        (r.0 as nat, r.1 as int) == double_parts(x),
        r.2 == (x.0 >= 0x8000_0000_0000_0000),
        r.0 < 0x20_0000_0000_0000,
        -1074 <= r.1 <= 971,
{
    let negative: bool = x.0 >= 0x8000_0000_0000_0000;
    let bits: u64 = if negative { x.0 - 0x8000_0000_0000_0000 } else { x.0 };
    let e: u64 = bits / 0x10_0000_0000_0000;
    let f: u64 = bits % 0x10_0000_0000_0000;
    if e == 0 {
        (f, -1074, negative)
    } else {
        (0x10_0000_0000_0000 + f, e as i32 - 1075, negative)
    }
}

/// Halving a quotient is dividing by twice as much.
proof fn halves(m: nat, k: nat)
    ensures
        m / pow2(k) / 2 == m / pow2(k + 1),
{
    lemma_pow2_pos(k);
    lemma_pow2_unfold(k + 1);
    lemma_div_denominator(m as int, pow2(k) as int, 2);
    assert(pow2(k) * 2 == pow2(k + 1));
}

/// [`scaled`], as far as it stays below `2^65`: from there on, some number that large.
pub fn scaled_whole(m: u64, e: i32) -> (n: u128)
    requires
        m < 0x40_0000_0000_0000,
        e >= -2000,
    ensures
        n < 0x2_0000_0000_0000_0000 ==> n == scaled(m as nat, e as int),
        n >= 0x2_0000_0000_0000_0000 ==> scaled(m as nat, e as int) >= 0x2_0000_0000_0000_0000,
{
    proof {
        lemma2_to64();
    }
    let mut n: u128 = m as u128;
    if e < 0 {
        let mut k: i32 = 0;
        assert(m as nat / pow2(0) == m);
        while k > e
            invariant
                -2000 <= e <= k <= 0,
                n == m as nat / pow2((-k) as nat),
            decreases k - e,
        {
            proof {
                halves(m as nat, (-k) as nat);
            }
            n = n / 2;
            k -= 1;
        }
        return n;
    }
    let mut k: i32 = 0;
    assert(m * pow2(0) == m) by (nonlinear_arith)
        requires
            pow2(0) == 1,
    ;
    while k < e && n < 0x2_0000_0000_0000_0000 && n > 0
        invariant
            0 <= k <= e,
            n < 0x4_0000_0000_0000_0000,
            n == m * pow2(k as nat),
        decreases e - k,
    {
        proof {
            lemma_pow2_unfold((k + 1) as nat);
            let p = pow2(k as nat) as int;
            assert(m * (2 * p) == 2 * (m * p)) by (nonlinear_arith);
        }
        n = n * 2;
        k += 1;
    }
    proof {
        lemma_pow2_adds(k as nat, (e - k) as nat);
        lemma_pow2_pos((e - k) as nat);
        lemma_pow2_pos(k as nat);
        let (p, q) = (pow2(k as nat) as int, pow2((e - k) as nat) as int);
        assert(m * (p * q) == (m * p) * q) by (nonlinear_arith);
        assert((m * p) * q >= m * p) by (nonlinear_arith)
            requires
                m >= 0,
                p >= 1,
                q >= 1,
        ;
        if n == 0 {
            assert(0 * q == 0);
        }
        if k == e {
            lemma2_to64();
            assert((m * p) * q == m * p) by (nonlinear_arith)
                requires
                    q == 1,
            ;
        }
    }
    n
}

/// A larger significand has a larger whole part.
proof fn scaled_ascends(m: nat, n: nat, e: int)
    requires
        m <= n,
    ensures
        scaled(m, e) <= scaled(n, e),
{
    if e >= 0 {
        assert(m * pow2(e as nat) <= n * pow2(e as nat)) by (nonlinear_arith)
            requires
                m <= n,
        ;
    } else {
        lemma_pow2_pos((-e) as nat);
        lemma_div_is_ordered(m as int, n as int, pow2((-e) as nat) as int);
    }
}

/// A larger exponent has a larger whole part, and one more doubles the significand.
proof fn scaled_doubles(m: nat, e: int, f: int)
    requires
        e <= f,
    ensures
        scaled(2 * m, e) == scaled(m, e + 1),
        scaled(m, e) <= scaled(m, f),
    decreases f - e,
{
    lemma2_to64();
    if e >= 0 {
        lemma_pow2_unfold((e + 1) as nat);
        let p = pow2(e as nat) as int;
        assert(m * (2 * p) == (2 * m) * p) by (nonlinear_arith);
    } else {
        let k = (-e - 1) as nat;
        lemma_pow2_pos(k);
        lemma_pow2_unfold((-e) as nat);
        let p = pow2(k) as int;
        lemma_div_denominator(2 * m as int, 2, p);
        assert((2 * m) as int / 2 == m);
        assert(pow2((-e) as nat) == 2 * p);
        if e + 1 == 0 {
            assert(p == 1);
            assert(m * pow2(0) == m) by (nonlinear_arith)
                requires
                    pow2(0) == 1,
            ;
            assert(m as int / 1 == m);
        }
    }
    if e < f {
        scaled_ascends(m, 2 * m, e);
        scaled_doubles(m, e + 1, f);
    }
}

/// Cutting to whole numbers keeps order: of two finite magnitudes the larger has the larger whole
/// part.
pub proof fn whole_parts_keep_order(a: Single, b: Single)
    requires
        a.magnitude() <= b.magnitude() < 0x7f80_0000,
    ensures
        ({
            let ((m, e), (n, f)) = (single_parts(a), single_parts(b));
            scaled(m, e) <= scaled(n, f)
        }),
{
    let ((m, e), (n, f)) = (single_parts(a), single_parts(b));
    let (d, g) = (a.magnitude() / 0x80_0000, b.magnitude() / 0x80_0000);
    if d == g {
        scaled_ascends(m, n, e);
    } else if d == 0 && g == 1 {
        scaled_ascends(m, n, e);
    } else {
        assert(d < g);
        assert(m <= 0x100_0000 && n >= 0x80_0000 && e + 1 <= f);
        scaled_ascends(m, 2 * 0x80_0000, e);
        scaled_doubles(0x80_0000, e, e);
        scaled_ascends(0x80_0000, n, e + 1);
        scaled_doubles(n, e + 1, f);
    }
}

/// Nothing, however scaled, has no whole part.
pub proof fn zero_is_whole()
    ensures
        scaled(0, -149) == 0,
{
    lemma_pow2_pos(149);
    lemma_div_basics_1(pow2(149) as int);
}

// ---------------------------------------------------------------------------
// Widening
// ---------------------------------------------------------------------------

/// Whether `d` is the same number as `s`.
pub open spec fn same_number(s: Single, d: Double) -> bool {
    &&& (s.0 >= 0x8000_0000) == (d.0 >= 0x8000_0000_0000_0000)
    &&& if !s.ordered() {
        !d.ordered()
    } else if s.magnitude() == 0x7f80_0000 {
        d.magnitude() == 0x7ff0_0000_0000_0000
    } else if s.magnitude() == 0 {
        d.magnitude() == 0
    } else {
        let ((m, e), (n, f)) = (single_parts(s), double_parts(d));
        d.magnitude() < 0x7ff0_0000_0000_0000 && f <= e && n == m * pow2((e - f) as nat)
    }
}

/// The double that is the same number as a single.
pub fn widen(s: Single) -> (d: Double)
    ensures
        same_number(s, d),
{
    let negative: bool = s.0 >= 0x8000_0000;
    let bits: u32 = if negative { s.0 - 0x8000_0000 } else { s.0 };
    let sign: u64 = if negative { 0x8000_0000_0000_0000 } else { 0 };
    if bits > 0x7f80_0000 {
        return Double(sign + 0x7ff8_0000_0000_0000);
    }
    if bits == 0x7f80_0000 {
        return Double(sign + 0x7ff0_0000_0000_0000);
    }
    if bits == 0 {
        return Double(sign);
    }
    let (m, e, _) = parts_of(s);
    let mut n: u64 = m;
    let mut f: i32 = e;
    proof {
        lemma2_to64();
        assert(m * pow2(0) == m) by (nonlinear_arith)
            requires
                pow2(0) == 1,
        ;
    }
    while n < 0x10_0000_0000_0000
        invariant
            0 < m < 0x100_0000,
            m <= n < 0x20_0000_0000_0000,
            -149 <= e <= 104,
            e - 52 <= f <= e,
            n == m * pow2((e - f) as nat),
        decreases 0x20_0000_0000_0000 - n,
    {
        proof {
            lemma_pow2_unfold((e - f + 1) as nat);
            let p = pow2((e - f) as nat) as int;
            assert(m * (2 * p) == 2 * (m * p)) by (nonlinear_arith);
            if f == e - 52 {
                lemma2_to64();
                lemma2_to64_rest();
                assert(n >= 0x10_0000_0000_0000) by (nonlinear_arith)
                    requires
                        n == m * pow2(52),
                        pow2(52) == 0x10_0000_0000_0000,
                        m >= 1,
                ;
            }
        }
        n = n * 2;
        f = f - 1;
    }
    let field: u64 = (f + 1075) as u64;
    assert(field * 0x10_0000_0000_0000 <= 1179 * 0x10_0000_0000_0000) by (nonlinear_arith)
        requires
            field <= 1179,
    ;
    let low: u64 = field * 0x10_0000_0000_0000 + (n - 0x10_0000_0000_0000);
    proof {
        assert(low / 0x10_0000_0000_0000 == field && low % 0x10_0000_0000_0000 == n
            - 0x10_0000_0000_0000) by (nonlinear_arith)
            requires
                low == field * 0x10_0000_0000_0000 + (n - 0x10_0000_0000_0000),
                0x10_0000_0000_0000 <= n < 0x20_0000_0000_0000,
        ;
    }
    Double(sign + low)
}

/// A single is the same number as one double, up to what is not a number.
pub proof fn widening_is_unique(s: Single, a: Double, b: Double)
    requires
        same_number(s, a),
        same_number(s, b),
    ensures
        a.ordered() == s.ordered(),
        s.ordered() ==> a == b,
{
    if s.magnitude() < 0x7f80_0000 && s.magnitude() > 0 {
        let (m, e) = single_parts(s);
        doubles_are_normal(s, a);
        doubles_are_normal(s, b);
        let (i, j) = (double_parts(a).1, double_parts(b).1);
        if i < j {
            powers_differ(m, (e - j) as nat, (e - i) as nat);
        } else if j < i {
            powers_differ(m, (e - i) as nat, (e - j) as nat);
        }
    }
}

/// The double of a finite single that is not zero has a leading bit.
proof fn doubles_are_normal(s: Single, d: Double)
    requires
        same_number(s, d),
        0 < s.magnitude() < 0x7f80_0000,
    ensures
        0x10_0000_0000_0000 <= double_parts(d).0 < 0x20_0000_0000_0000,
{
    let ((m, e), (n, f)) = (single_parts(s), double_parts(d));
    if d.magnitude() / 0x10_0000_0000_0000 == 0 {
        lemma2_to64();
        lemma2_to64_rest();
        lemma_pow2_strictly_increases(52, (e - f) as nat);
        assert(m * pow2((e - f) as nat) >= 0x10_0000_0000_0000) by (nonlinear_arith)
            requires
                m >= 1,
                pow2((e - f) as nat) > 0x10_0000_0000_0000,
        ;
    }
}

/// One more doubling leaves the range of a leading bit.
proof fn powers_differ(m: nat, low: nat, high: nat)
    requires
        low < high,
        m * pow2(low) >= 0x10_0000_0000_0000,
    ensures
        m * pow2(high) >= 0x20_0000_0000_0000,
{
    let (p, r) = (pow2(low) as int, pow2((high - low) as nat) as int);
    lemma_pow2_adds(low, (high - low) as nat);
    lemma_pow2_unfold((high - low) as nat);
    lemma_pow2_pos((high - low - 1) as nat);
    assert(m * (p * r) >= 2 * (m * p)) by (nonlinear_arith)
        requires
            r >= 2,
            m * p >= 0,
    ;
}

// ---------------------------------------------------------------------------
// Selection
// ---------------------------------------------------------------------------

/// The largest of the first `n` values, and zero at the least. What is not a number is passed
/// over.
pub open spec fn largest(values: Seq<Single>, n: nat) -> Single
    decreases n,
{
    if n == 0 {
        Single(0)
    } else {
        let before = largest(values, (n - 1) as nat);
        if before.below(values[n - 1]) {
            values[n - 1]
        } else {
            before
        }
    }
}

/// The largest of some values, and zero at the least.
pub fn largest_of(values: &Vec<Single>) -> (r: Single)
    ensures
        r == largest(values@, values@.len()),
{
    let mut r: Single = Single(0);
    let mut i: usize = 0;
    while i < values.len()
        invariant
            i <= values.len(),
            r == largest(values@, i as nat),
        decreases values.len() - i,
    {
        let v: Single = values[i];
        if r.is_below(v) {
            r = v;
        }
        i += 1;
    }
    r
}

/// The largest is a number, no smaller than zero and than any of the values that is a number,
/// and it is zero or one of them.
pub proof fn the_largest_is_no_smaller(values: Seq<Single>, n: nat, i: int)
    requires
        n <= values.len(),
    ensures
        largest(values, n).ordered(),
        largest(values, n).rank() >= 0,
        0 <= i < n && values[i].ordered() ==> values[i].at_most(largest(values, n)),
        largest(values, n) == Single(0) || exists|j: int|
            0 <= j < n && #[trigger] values[j] == largest(values, n),
    decreases n,
{
    if n > 0 {
        the_largest_is_no_smaller(values, (n - 1) as nat, i);
    }
}

// ---------------------------------------------------------------------------
// Order and value
// ---------------------------------------------------------------------------

/// How many of the smallest steps a magnitude is, in a format whose fraction field counts to
/// `size`: `2^-149` is the smallest step of a single, `2^-1074` that of a double.
pub open spec fn steps(magnitude: int, size: int) -> int {
    let (e, f) = (magnitude / size, magnitude % size);
    if e == 0 {
        f
    } else {
        (size + f) * pow2((e - 1) as nat)
    }
}

impl Single {
    /// The number, in steps of `2^-149`. Infinity is as many as the next power of two would be.
    pub open spec fn value(self) -> int {
        if self.0 >= 0x8000_0000 {
            -steps(self.magnitude(), 0x80_0000)
        } else {
            steps(self.magnitude(), 0x80_0000)
        }
    }
}

impl Double {
    /// The number, in steps of `2^-1074`. Infinity is as many as the next power of two would be.
    pub open spec fn value(self) -> int {
        if self.0 >= 0x8000_0000_0000_0000 {
            -steps(self.magnitude(), 0x10_0000_0000_0000)
        } else {
            steps(self.magnitude(), 0x10_0000_0000_0000)
        }
    }
}

/// A larger magnitude is more steps.
proof fn steps_ascend(a: int, b: int, size: int)
    requires
        0 <= a < b,
        size > 0,
    ensures
        0 <= steps(a, size) < steps(b, size),
{
    let (d, f) = (a / size, a % size);
    let (e, g) = (b / size, b % size);
    lemma_fundamental_div_mod(a, size);
    lemma_fundamental_div_mod(b, size);
    lemma_mod_bound(a, size);
    lemma_mod_bound(b, size);
    lemma_div_is_ordered(a, b, size);
    lemma_div_pos_is_pos(a, size);
    if d == e {
        assert(f < g);
        if d > 0 {
            let p = pow2((d - 1) as nat) as int;
            lemma_pow2_pos((d - 1) as nat);
            assert(0 <= (size + f) * p < (size + g) * p) by (nonlinear_arith)
                requires
                    0 <= f < g,
                    p > 0,
                    size > 0,
            ;
        }
    } else {
        let q = pow2((e - 1) as nat) as int;
        lemma_pow2_pos((e - 1) as nat);
        if d == 0 {
            assert((size + g) * q >= size) by (nonlinear_arith)
                requires
                    q >= 1,
                    g >= 0,
                    size > 0,
            ;
        } else {
            let p = pow2((d - 1) as nat) as int;
            lemma_pow2_pos((d - 1) as nat);
            lemma_pow2_unfold(d as nat);
            if d < e - 1 {
                lemma_pow2_strictly_increases(d as nat, (e - 1) as nat);
            }
            assert(q >= 2 * p);
            assert(0 <= (size + f) * p < (size + g) * q) by (nonlinear_arith)
                requires
                    0 <= f < size,
                    g >= 0,
                    p > 0,
                    q >= 2 * p,
            ;
        }
    }
}

/// The steps of nothing.
proof fn no_steps(size: int)
    requires
        size > 0,
    ensures
        steps(0, size) == 0,
{
    lemma_div_basics_1(size);
    lemma_small_mod(0, size as nat);
}

/// Singles are compared as numbers: by their values, whatever their signs, with what is not a
/// number neither below, nor above, nor the same as anything.
pub proof fn singles_are_ordered_by_value(a: Single, b: Single)
    ensures
        a.ordered() && b.ordered() ==> {
            &&& a.below(b) <==> a.value() < b.value()
            &&& a.at_most(b) <==> a.value() <= b.value()
            &&& a.same(b) <==> a.value() == b.value()
        },
        !a.ordered() || !b.ordered() ==> !a.below(b) && !a.at_most(b) && !a.same(b),
{
    let (m, n) = (a.magnitude(), b.magnitude());
    let size: int = 0x80_0000;
    no_steps(size);
    if m > 0 {
        steps_ascend(0, m, size);
    }
    if n > 0 {
        steps_ascend(0, n, size);
    }
    if m < n {
        steps_ascend(m, n, size);
    } else if n < m {
        steps_ascend(n, m, size);
    }
}

/// Doubles are compared as numbers: by their values, whatever their signs, with what is not a
/// number neither below, nor above, nor the same as anything.
pub proof fn doubles_are_ordered_by_value(a: Double, b: Double)
    ensures
        a.ordered() && b.ordered() ==> {
            &&& a.below(b) <==> a.value() < b.value()
            &&& a.at_most(b) <==> a.value() <= b.value()
            &&& a.same(b) <==> a.value() == b.value()
        },
        !a.ordered() || !b.ordered() ==> !a.below(b) && !a.at_most(b) && !a.same(b),
{
    let (m, n) = (a.magnitude(), b.magnitude());
    let size: int = 0x10_0000_0000_0000;
    no_steps(size);
    if m > 0 {
        steps_ascend(0, m, size);
    }
    if n > 0 {
        steps_ascend(0, n, size);
    }
    if m < n {
        steps_ascend(m, n, size);
    } else if n < m {
        steps_ascend(n, m, size);
    }
}

/// A number and its double are the same number of steps, each in its own format: a step of a
/// single is `2^925` steps of a double.
pub proof fn widening_keeps_the_value(s: Single, d: Double)
    requires
        same_number(s, d),
        s.magnitude() < 0x7f80_0000,
    ensures
        d.value() == s.value() * pow2(925),
{
    if s.magnitude() == 0 {
        no_steps(0x80_0000);
        no_steps(0x10_0000_0000_0000);
        assert(0 * pow2(925) == 0);
    } else {
        let ((m, e), (n, f)) = (single_parts(s), double_parts(d));
        doubles_are_normal(s, d);
        let p = pow2((e - f) as nat) as int;
        let q = pow2((f + 1074) as nat) as int;
        let r = pow2((e + 149) as nat) as int;
        lemma2_to64();
        assert(steps(s.magnitude(), 0x80_0000) == m * r) by {
            if e == -149 {
                assert(m * 1 == m) by (nonlinear_arith);
            }
        }
        assert(steps(d.magnitude(), 0x10_0000_0000_0000) == n * q) by {
            if f == -1074 {
                assert(n * 1 == n) by (nonlinear_arith);
            }
        }
        lemma_pow2_adds((e - f) as nat, (f + 1074) as nat);
        lemma_pow2_adds((e + 149) as nat, 925);
        let w = pow2(925) as int;
        assert((m * p) * q == (m * r) * w) by (nonlinear_arith)
            requires
                p * q == r * w,
        ;
        assert((-(m * r)) * w == -((m * r) * w)) by (nonlinear_arith);
    }
}

/// Whether a positive single below `2^24` is the one nearest to `num / den`: no other is closer
/// than half the spacing there.
pub open spec fn is_nearest_single(x: Single, num: nat, den: nat) -> bool {
    let (m, e) = single_parts(x);
    &&& x.0 < 0x8000_0000
    &&& m >= 0x80_0000
    &&& e <= 0
    &&& den > 0
    &&& -(den as int) <= 2 * (m * den - num * pow2((-e) as nat)) <= den
}

/// Whether a positive double below `2^53` is the one nearest to `num / den`.
pub open spec fn is_nearest_double(x: Double, num: nat, den: nat) -> bool {
    let (m, e) = double_parts(x);
    &&& x.0 < 0x8000_0000_0000_0000
    &&& m >= 0x10_0000_0000_0000
    &&& e <= 0
    &&& den > 0
    &&& -(den as int) <= 2 * (m * den - num * pow2((-e) as nat)) <= den
}

/// A dyadic fraction has the value that it is said to have: `n / 2^shift` is `n` times `2^(149 -
/// shift)` of the smallest steps.
pub proof fn dyadics_have_their_value(s: Single, n: u32, shift: int)
    requires
        is_dyadic(s, n, shift),
        n < 0x100_0000,
        0 <= shift <= 24,
    ensures
        s.value() == n * pow2((149 - shift) as nat),
{
    if n == 0 {
        no_steps(0x80_0000);
        assert(0 * pow2((149 - shift) as nat) == 0);
    } else {
        dyadic_bounds(s, n, shift);
        let e = s.0 as int / 0x80_0000;
        let (p, q) = (pow2((150 - shift - e) as nat) as int, pow2((e - 1) as nat) as int);
        lemma_pow2_adds((150 - shift - e) as nat, (e - 1) as nat);
        assert((n * p) * q == n * (p * q)) by (nonlinear_arith);
    }
}

} // verus!
