//! One-based arrays, complex pairs, and the integer intrinsics that go with them.

use vstd::arithmetic::div_mod::*;
use vstd::arithmetic::power2::*;
use vstd::prelude::*;

use crate::number;
use crate::reals;
use crate::reals::{parts_of, parts_of64, scaled_whole, Double, Single};

verus! {

// ---------------------------------------------------------------------------
// Arrays
// ---------------------------------------------------------------------------

/// A one-dimensional array whose indices run from one.
#[derive(Debug)]
pub struct Array1<T> {
    data: Vec<T>,
}

impl<T: Copy> View for Array1<T> {
    type V = Seq<T>;

    closed spec fn view(&self) -> Seq<T> {
        self.data@
    }
}

impl<T: Copy> Array1<T> {
    /// `n` default elements.
    pub fn new(n: usize) -> (a: Self)
        where
            T: Default,

        ensures
            a@.len() == n,
            forall|i: int| 0 <= i < n ==> call_ensures(T::default, (), #[trigger] a@[i]),
    {
        let mut data: Vec<T> = Vec::new();
        let mut i: usize = 0;
        while i < n
            invariant
                i <= n,
                data.len() == i,
                forall|j: int| 0 <= j < i ==> call_ensures(T::default, (), #[trigger] data@[j]),
            decreases n - i,
        {
            data.push(T::default());
            i += 1;
        }
        Array1 { data }
    }

    /// `n` elements that all hold `value`.
    pub fn filled(n: usize, value: T) -> (a: Self)
        ensures
            a@ == Seq::new(n as nat, |i: int| value),
    {
        let mut data: Vec<T> = Vec::new();
        let mut i: usize = 0;
        while i < n
            invariant
                i <= n,
                data@ == Seq::new(i as nat, |j: int| value),
            decreases n - i,
        {
            data.push(value);
            assert(Seq::new(i as nat, |j: int| value).push(value) =~= Seq::new(
                (i + 1) as nat,
                |j: int| value,
            ));
            i += 1;
        }
        Array1 { data }
    }

    /// The number of elements.
    pub fn len(&self) -> (n: usize)
        ensures
            n == self@.len(),
    {
        self.data.len()
    }

    /// Whether there are none.
    pub fn is_empty(&self) -> (b: bool)
        ensures
            b == (self@.len() == 0),
    {
        self.data.len() == 0
    }

    /// The elements from the first on, as a slice that counts from zero.
    pub fn as_slice(&self) -> (s: &[T])
        ensures
            s@ == self@,
    {
        self.data.as_slice()
    }

    /// The elements from the first on, as a mutable slice that counts from zero.
    pub fn as_mut_slice(&mut self) -> (s: &mut [T])
        ensures
            s@ == old(self)@,
            final(self)@ == final(s)@,
    {
        self.data.as_mut_slice()
    }

    /// Set every element to `value`.
    pub fn fill(&mut self, value: T)
        ensures
            final(self)@ == Seq::new(old(self)@.len(), |i: int| value),
    {
        let n: usize = self.data.len();
        let mut i: usize = 0;
        while i < n
            invariant
                i <= n,
                n == old(self)@.len(),
                self.data.len() == n,
                forall|j: int| 0 <= j < i ==> #[trigger] self.data@[j] == value,
            decreases n - i,
        {
            self.data.set(i, value);
            i += 1;
        }
        assert(self@ =~= Seq::new(old(self)@.len(), |i: int| value));
    }

    /// Element `i`, counted from one.
    pub fn at(&self, i: usize) -> (v: T)
        requires
            1 <= i <= self@.len(),
        ensures
            v == self@[i - 1],
    {
        self.data[i - 1]
    }

    /// Set element `i`, counted from one.
    pub fn set(&mut self, i: usize, value: T)
        requires
            1 <= i <= old(self)@.len(),
        ensures
            final(self)@ == old(self)@.update(i - 1, value),
    {
        self.data.set(i - 1, value);
    }
}

/// A two-dimensional array whose indices run from one, stored column by column.
#[derive(Debug)]
pub struct Array2<T> {
    data: Vec<T>,
    rows: usize,
    cols: usize,
}

/// Where element `(i, j)` stands in storage.
pub open spec fn column_major(rows: int, i: int, j: int) -> int {
    (j - 1) * rows + (i - 1)
}

/// Two elements of an array never share a place, and every place is within storage.
pub proof fn places_are_distinct(rows: int, cols: int, i: int, j: int, k: int, l: int)
    requires
        1 <= i <= rows,
        1 <= j <= cols,
        1 <= k <= rows,
        1 <= l <= cols,
    ensures
        0 <= column_major(rows, i, j) < rows * cols,
        column_major(rows, i, j) == column_major(rows, k, l) <==> i == k && j == l,
{
    assert(0 <= (j - 1) * rows) by (nonlinear_arith)
        requires
            j >= 1,
            rows >= 1,
    ;
    assert((j - 1) * rows + rows <= rows * cols) by (nonlinear_arith)
        requires
            j <= cols,
            rows >= 1,
    ;
    lemma_fundamental_div_mod_converse(column_major(rows, i, j), rows, j - 1, i - 1);
    lemma_fundamental_div_mod_converse(column_major(rows, k, l), rows, l - 1, k - 1);
}

impl<T: Copy> View for Array2<T> {
    type V = Seq<T>;

    closed spec fn view(&self) -> Seq<T> {
        self.data@
    }
}

impl<T: Copy> Array2<T> {
    /// The number of rows.
    pub closed spec fn row_count(self) -> int {
        self.rows as int
    }

    /// The number of columns.
    pub closed spec fn col_count(self) -> int {
        self.cols as int
    }

    /// Whether storage holds every column.
    pub open spec fn well_formed(self) -> bool {
        self@.len() == self.row_count() * self.col_count()
    }

    /// `rows` by `cols` default elements.
    pub fn new(rows: usize, cols: usize) -> (a: Self)
        where
            T: Default,

        requires
            rows * cols <= usize::MAX,
        ensures
            a.well_formed(),
            a.row_count() == rows,
            a.col_count() == cols,
            forall|i: int| 0 <= i < rows * cols ==> call_ensures(T::default, (), #[trigger] a@[i]),
    {
        let data = Array1::<T>::new(rows * cols).data;
        Array2 { data, rows, cols }
    }

    /// The number of rows.
    pub fn rows(&self) -> (n: usize)
        ensures
            n == self.row_count(),
    {
        self.rows
    }

    /// The number of columns.
    pub fn cols(&self) -> (n: usize)
        ensures
            n == self.col_count(),
    {
        self.cols
    }

    /// The elements column by column.
    pub fn as_slice(&self) -> (s: &[T])
        ensures
            s@ == self@,
    {
        self.data.as_slice()
    }

    /// Set every element to `value`.
    pub fn fill(&mut self, value: T)
        requires
            old(self).well_formed(),
        ensures
            final(self).well_formed(),
            final(self).row_count() == old(self).row_count(),
            final(self).col_count() == old(self).col_count(),
            final(self)@ == Seq::new(old(self)@.len(), |i: int| value),
    {
        let n: usize = self.data.len();
        let mut i: usize = 0;
        while i < n
            invariant
                i <= n,
                n == old(self)@.len(),
                self.data.len() == n,
                self.rows == old(self).rows,
                self.cols == old(self).cols,
                forall|j: int| 0 <= j < i ==> #[trigger] self.data@[j] == value,
            decreases n - i,
        {
            self.data.set(i, value);
            i += 1;
        }
        assert(self@ =~= Seq::new(old(self)@.len(), |i: int| value));
    }

    /// Element `(i, j)`.
    pub fn at(&self, i: usize, j: usize) -> (v: T)
        requires
            self.well_formed(),
            1 <= i <= self.row_count(),
            1 <= j <= self.col_count(),
        ensures
            v == self@[column_major(self.row_count(), i as int, j as int)],
    {
        proof {
            let (r, c) = (self.row_count(), self.col_count());
            assert(self@.len() == self.data.len());
            places_are_distinct(r, c, i as int, j as int, i as int, j as int);
            assert(0 <= (j - 1) * r) by (nonlinear_arith)
                requires
                    j >= 1,
                    r >= 1,
            ;
        }
        self.data[(j - 1) * self.rows + (i - 1)]
    }

    /// Set element `(i, j)`.
    pub fn set(&mut self, i: usize, j: usize, value: T)
        requires
            old(self).well_formed(),
            1 <= i <= old(self).row_count(),
            1 <= j <= old(self).col_count(),
        ensures
            final(self).well_formed(),
            final(self).row_count() == old(self).row_count(),
            final(self).col_count() == old(self).col_count(),
            final(self)@ == old(self)@.update(
                column_major(old(self).row_count(), i as int, j as int),
                value,
            ),
    {
        proof {
            let (r, c) = (self.row_count(), self.col_count());
            assert(self@.len() == self.data.len());
            places_are_distinct(r, c, i as int, j as int, i as int, j as int);
            assert(0 <= (j - 1) * r) by (nonlinear_arith)
                requires
                    j >= 1,
                    r >= 1,
            ;
        }
        let place: usize = (j - 1) * self.rows + (i - 1);
        self.data.set(place, value);
    }
}

// ---------------------------------------------------------------------------
// Complex pairs
// ---------------------------------------------------------------------------

/// A complex number, as its two parts.
#[derive(Clone, Copy, Debug, PartialEq, Eq)]
pub struct Complex<T> {
    pub re: T,
    pub im: T,
}

impl<T> Complex<T> {
    /// The number with these parts.
    pub fn new(re: T, im: T) -> (z: Self)
        ensures
            z.re == re,
            z.im == im,
    {
        Complex { re, im }
    }
}

// ---------------------------------------------------------------------------
// Intrinsics
// ---------------------------------------------------------------------------

/// The remainder of `a` by `b` that takes the sign of `a`.
pub open spec fn signed_remainder(a: int, b: int) -> int {
    if a >= 0 {
        a % b
    } else {
        -((-a) % b)
    }
}

/// The remainder of `a` by `b`, with the sign of `a`.
pub fn imod(a: i32, b: i32) -> (r: i32)
    requires
        b != 0,
        !(a == i32::MIN && b == -1),
    ensures
        r == signed_remainder(a as int, b as int),
{
    a % b
}

/// `n` with a sign, held to the range of an `i32`.
fn hold_to_i32(is_negative: bool, n: u128) -> (r: i32)
    ensures
        r == number::held_to_i32(is_negative, n as nat),
{
    if is_negative {
        if n >= 0x8000_0000 {
            i32::MIN
        } else {
            -(n as i32)
        }
    } else if n > 0x7fff_ffff {
        i32::MAX
    } else {
        n as i32
    }
}

/// A single cut toward zero and held to the range of an `i32`; what is not a number is zero.
pub open spec fn cut(x: Single) -> int {
    if !x.ordered() {
        0
    } else if x.magnitude() == 0x7f80_0000 {
        if x.0 >= 0x8000_0000 {
            i32::MIN as int
        } else {
            i32::MAX as int
        }
    } else {
        let (m, e) = reals::single_parts(x);
        number::held_to_i32(x.0 >= 0x8000_0000, reals::scaled(m, e))
    }
}

/// A double cut toward zero and held to the range of an `i32`; what is not a number is zero.
pub open spec fn cut64(x: Double) -> int {
    if !x.ordered() {
        0
    } else if x.magnitude() == 0x7ff0_0000_0000_0000 {
        if x.0 >= 0x8000_0000_0000_0000 {
            i32::MIN as int
        } else {
            i32::MAX as int
        }
    } else {
        let (m, e) = reals::double_parts(x);
        number::held_to_i32(x.0 >= 0x8000_0000_0000_0000, reals::scaled(m, e))
    }
}

/// A single rounded to the nearest whole number, halves away from zero, and held to the range of
/// an `i32`; what is not a number is zero. The whole part of twice a number, one more, halved, is
/// the number rounded.
pub open spec fn rounded(x: Single) -> int {
    if !x.ordered() {
        0
    } else if x.magnitude() == 0x7f80_0000 {
        if x.0 >= 0x8000_0000 {
            i32::MIN as int
        } else {
            i32::MAX as int
        }
    } else {
        let (m, e) = reals::single_parts(x);
        number::held_to_i32(x.0 >= 0x8000_0000, (reals::scaled(2 * m, e) + 1) / 2)
    }
}

/// A double rounded to the nearest whole number, as [`rounded`] has it.
pub open spec fn rounded64(x: Double) -> int {
    if !x.ordered() {
        0
    } else if x.magnitude() == 0x7ff0_0000_0000_0000 {
        if x.0 >= 0x8000_0000_0000_0000 {
            i32::MIN as int
        } else {
            i32::MAX as int
        }
    } else {
        let (m, e) = reals::double_parts(x);
        number::held_to_i32(x.0 >= 0x8000_0000_0000_0000, (reals::scaled(2 * m, e) + 1) / 2)
    }
}

/// Cut a single toward zero.
pub fn int_trunc(x: Single) -> (r: i32)
    ensures
        r == cut(x),
{
    let bits: u32 = if x.0 >= 0x8000_0000 { x.0 - 0x8000_0000 } else { x.0 };
    if bits > 0x7f80_0000 {
        return 0;
    }
    if bits == 0x7f80_0000 {
        return if x.0 >= 0x8000_0000 { i32::MIN } else { i32::MAX };
    }
    let (m, e, negative) = parts_of(x);
    hold_to_i32(negative, scaled_whole(m, e))
}

/// Cut a double toward zero.
pub fn int_trunc64(x: Double) -> (r: i32)
    ensures
        r == cut64(x),
{
    let bits: u64 = if x.0 >= 0x8000_0000_0000_0000 { x.0 - 0x8000_0000_0000_0000 } else { x.0 };
    if bits > 0x7ff0_0000_0000_0000 {
        return 0;
    }
    if bits == 0x7ff0_0000_0000_0000 {
        return if x.0 >= 0x8000_0000_0000_0000 { i32::MIN } else { i32::MAX };
    }
    let (m, e, negative) = parts_of64(x);
    hold_to_i32(negative, scaled_whole(m, e))
}

/// Round a single to the nearest whole number, halves away from zero.
pub fn nint(x: Single) -> (r: i32)
    ensures
        r == rounded(x),
{
    let bits: u32 = if x.0 >= 0x8000_0000 { x.0 - 0x8000_0000 } else { x.0 };
    if bits > 0x7f80_0000 {
        return 0;
    }
    if bits == 0x7f80_0000 {
        return if x.0 >= 0x8000_0000 { i32::MIN } else { i32::MAX };
    }
    let (m, e, negative) = parts_of(x);
    let twice: u128 = scaled_whole(2 * m, e);
    if twice >= 0x2_0000_0000 {
        return if negative { i32::MIN } else { i32::MAX };
    }
    hold_to_i32(negative, (twice + 1) / 2)
}

/// Round a double to the nearest whole number, halves away from zero.
pub fn nint64(x: Double) -> (r: i32)
    ensures
        r == rounded64(x),
{
    let bits: u64 = if x.0 >= 0x8000_0000_0000_0000 { x.0 - 0x8000_0000_0000_0000 } else { x.0 };
    if bits > 0x7ff0_0000_0000_0000 {
        return 0;
    }
    if bits == 0x7ff0_0000_0000_0000 {
        return if x.0 >= 0x8000_0000_0000_0000 { i32::MIN } else { i32::MAX };
    }
    let (m, e, negative) = parts_of64(x);
    let twice: u128 = scaled_whole(2 * m, e);
    if twice >= 0x2_0000_0000 {
        return if negative { i32::MIN } else { i32::MAX };
    }
    hold_to_i32(negative, (twice + 1) / 2)
}

/// The magnitude of `a` with the sign of `b`. Zero counts as positive, whatever its sign bit.
pub fn sign(a: Single, b: Single) -> (r: Single)
    ensures
        r.magnitude() == a.magnitude(),
        (r.0 >= 0x8000_0000) == !Single(0).at_most(b),
{
    let bits: u32 = if a.0 >= 0x8000_0000 { a.0 - 0x8000_0000 } else { a.0 };
    if Single(0).is_at_most(b) {
        Single(bits)
    } else {
        Single(bits + 0x8000_0000)
    }
}

/// A single cut toward zero and held to the range of a `usize`; what is not a number is zero.
pub open spec fn counted(x: Single) -> nat {
    if !x.ordered() || x.0 >= 0x8000_0000 {
        0
    } else if x.magnitude() == 0x7f80_0000 {
        usize::MAX as nat
    } else {
        let (m, e) = reals::single_parts(x);
        if reals::scaled(m, e) > usize::MAX {
            usize::MAX as nat
        } else {
            reals::scaled(m, e)
        }
    }
}

/// Cut a single toward zero, to a count.
pub fn count_of(x: Single) -> (n: usize)
    ensures
        n == counted(x),
{
    if x.0 > 0x7f80_0000 {
        return 0;
    }
    if x.0 == 0x7f80_0000 {
        return usize::MAX;
    }
    let (m, e, negative) = parts_of(x);
    let n: u128 = scaled_whole(m, e);
    if n > usize::MAX as u128 {
        usize::MAX
    } else {
        n as usize
    }
}

/// Cutting toward zero keeps order, so that a bound on a number is a bound on its cut.
pub proof fn cutting_keeps_order(a: Single, b: Single)
    requires
        a.at_most(b),
    ensures
        cut(a) <= cut(b),
{
    let (a_low, b_low) = (a.0 >= 0x8000_0000, b.0 >= 0x8000_0000);
    if a.magnitude() < 0x7f80_0000 && b.magnitude() < 0x7f80_0000 {
        if !a_low && !b_low {
            reals::whole_parts_keep_order(a, b);
        } else if a_low && b_low {
            reals::whole_parts_keep_order(b, a);
        } else if !a_low && b_low {
            // Both are zeros.
            assert(a.magnitude() == 0 && b.magnitude() == 0);
            reals::zero_is_whole();
        }
    }
}

// ---------------------------------------------------------------------------
// Laws
// ---------------------------------------------------------------------------

/// A remainder has the sign of what is divided, is smaller than the divisor, and leaves a
/// multiple of it.
pub proof fn remainders_take_the_sign_of_the_dividend(a: int, b: int)
    requires
        b != 0,
    ensures
        ({
            let r = signed_remainder(a, b);
            &&& a >= 0 ==> r >= 0
            &&& a <= 0 ==> r <= 0
            &&& if b > 0 {
                -b < r < b
            } else {
                b < r < -b
            }
            &&& ((a - r) / b) * b == a - r
        }),
{
    let m = if a >= 0 {
        a
    } else {
        -a
    };
    let r = signed_remainder(a, b);
    assert(0 <= m % b && (b > 0 ==> m % b < b) && (b < 0 ==> m % b < -b)) by (nonlinear_arith)
        requires
            b != 0,
    ;
    let q = m / b;
    assert(q * b + m % b == m) by (nonlinear_arith)
        requires
            b != 0,
            q == m / b,
    ;
    assert(0int % b == 0) by (nonlinear_arith)
        requires
            b != 0,
    ;
    let k = if a >= 0 {
        q
    } else {
        -q
    };
    assert((-q) * b == -(q * b)) by (nonlinear_arith);
    assert(a - r == k * b);
    assert((k * b) / b == k) by (nonlinear_arith)
        requires
            b != 0,
    ;
}

/// The whole part of a number, in steps: no more than the number, and less than one below it.
proof fn whole_of_steps(m: nat, e: int, places: nat)
    requires
        e + places >= 0,
    ensures
        reals::scaled(m, e) * pow2(places) <= m * pow2((e + places) as nat) < (reals::scaled(m, e)
            + 1) * pow2(places),
{
    let one = pow2(places) as int;
    lemma_pow2_pos(places);
    let whole = reals::scaled(m, e) as int;
    assert((whole + 1) * one == whole * one + one) by (nonlinear_arith);
    if e >= 0 {
        let p = pow2(e as nat) as int;
        lemma_pow2_adds(e as nat, places);
        assert((m * p) * one == m * (p * one)) by (nonlinear_arith);
    } else {
        let d = pow2((-e) as nat) as int;
        let r = pow2((e + places) as nat) as int;
        lemma_pow2_pos((-e) as nat);
        lemma_pow2_pos((e + places) as nat);
        lemma_pow2_adds((-e) as nat, (e + places) as nat);
        lemma_fundamental_div_mod(m as int, d);
        lemma_mod_bound(m as int, d);
        assert(whole * (d * r) <= m * r < (whole + 1) * (d * r)) by (nonlinear_arith)
            requires
                d * whole <= m < d * whole + d,
                r > 0,
        ;
    }
}

/// What a whole part says of the number beside the ends of an `i32`.
proof fn held_by_steps(whole: int, steps: int, one: int)
    requires
        one > 0,
        whole >= 0,
        whole * one <= steps < (whole + 1) * one,
    ensures
        steps < 0x8000_0000 * one <==> whole < 0x8000_0000,
        steps <= 0x8000_0000 * one ==> whole <= 0x8000_0000,
        steps > 0x8000_0000 * one ==> whole >= 0x8000_0000,
        steps >= 0,
{
    assert(whole >= 0x8000_0000 ==> steps >= 0x8000_0000 * one) by (nonlinear_arith)
        requires
            one > 0,
            whole * one <= steps,
    ;
    assert(whole < 0x8000_0000 ==> steps < 0x8000_0000 * one) by (nonlinear_arith)
        requires
            one > 0,
            steps < (whole + 1) * one,
    ;
    assert(whole > 0x8000_0000 ==> steps > 0x8000_0000 * one) by (nonlinear_arith)
        requires
            one > 0,
            whole * one <= steps,
    ;
    assert(steps >= 0) by (nonlinear_arith)
        requires
            one > 0,
            whole >= 0,
            whole * one <= steps,
    ;
}

/// A whole part with a sign, beside the number that it was cut from.
proof fn cut_by_steps(negative: bool, whole: nat, size: int, one: int)
    requires
        one > 0,
        whole * one <= size < (whole + 1) * one,
    ensures
        ({
            let v = if negative {
                -size
            } else {
                size
            };
            let n = number::held_to_i32(negative, whole);
            &&& 0 <= v < 0x8000_0000 * one ==> n * one <= v < (n + 1) * one
            &&& -0x8000_0000 * one <= v < 0 ==> (n - 1) * one < v <= n * one
            &&& v >= 0x8000_0000 * one ==> n == i32::MAX
            &&& v < -0x8000_0000 * one ==> n == i32::MIN
        }),
{
    held_by_steps(whole as int, size, one);
    if negative {
        let n = number::held_to_i32(negative, whole);
        assert((-0x8000_0000) * one == -(0x8000_0000 * one)) by (nonlinear_arith);
        if size <= 0x8000_0000 * one {
            assert(n == -whole);
            assert(n * one == -(whole * one)) by (nonlinear_arith)
                requires
                    n == -whole,
            ;
            assert((n - 1) * one == -((whole + 1) * one)) by (nonlinear_arith)
                requires
                    n == -whole,
            ;
            assert(size == 0 ==> whole == 0) by (nonlinear_arith)
                requires
                    whole * one <= size,
                    one > 0,
                    whole >= 0,
            ;
            assert((n + 1) * one == n * one + one) by (nonlinear_arith);
        }
    }
}

/// A rounded whole number with a sign, beside the number that it was rounded from: `twice` is the
/// whole part of twice that number.
proof fn rounded_by_steps(negative: bool, twice: nat, size: int, one: int)
    requires
        one > 0,
        twice * one <= size < (twice + 1) * one,
    ensures
        ({
            let v = if negative {
                -size
            } else {
                size
            };
            let n = number::held_to_i32(negative, ((twice + 1) / 2) as nat);
            &&& 0 <= v < 0xffff_ffff * one ==> (2 * n - 1) * one <= v < (2 * n + 1) * one
            &&& -0xffff_ffff * one < v < 0 ==> (2 * n - 1) * one < v <= (2 * n + 1) * one
            &&& v >= 0xffff_ffff * one ==> n == i32::MAX
            &&& v <= -0xffff_ffff * one ==> n == i32::MIN
        }),
{
    let w = ((twice + 1) / 2) as int;
    let n = number::held_to_i32(negative, w as nat);
    assert((2 * w - 1) * one <= size < (2 * w + 1) * one) by (nonlinear_arith)
        requires
            2 * w - 1 <= twice <= 2 * w,
            twice * one <= size < (twice + 1) * one,
            one > 0,
    ;
    assert(size >= 0xffff_ffff * one ==> twice >= 0xffff_ffff) by (nonlinear_arith)
        requires
            size < (twice + 1) * one,
            one > 0,
    ;
    assert(size < 0xffff_ffff * one ==> twice < 0xffff_ffff) by (nonlinear_arith)
        requires
            twice * one <= size,
            one > 0,
    ;
    assert(size >= 0) by (nonlinear_arith)
        requires
            twice * one <= size,
            one > 0,
            twice >= 0,
    ;
    assert((-0xffff_ffff) * one == -(0xffff_ffff * one)) by (nonlinear_arith);
    if negative && size < 0xffff_ffff * one {
        assert(n == -w);
        assert((2 * n - 1) * one == -((2 * w + 1) * one)) by (nonlinear_arith)
            requires
                n == -w,
        ;
        assert((2 * n + 1) * one == -((2 * w - 1) * one)) by (nonlinear_arith)
            requires
                n == -w,
        ;
        assert(size == 0 ==> twice == 0) by (nonlinear_arith)
            requires
                twice * one <= size,
                one > 0,
                twice >= 0,
        ;
    }
}

/// Cutting a single is toward zero: what is cut off is less than one, and the sign is kept. What is
/// beyond an `i32` is held to its end.
pub proof fn cutting_is_toward_zero(x: Single)
    requires
        x.magnitude() < 0x7f80_0000,
    ensures
        ({
            let (v, n, one) = (x.value(), cut(x), pow2(149) as int);
            &&& 0 <= v < 0x8000_0000 * one ==> n * one <= v < (n + 1) * one
            &&& -0x8000_0000 * one <= v < 0 ==> (n - 1) * one < v <= n * one
            &&& v >= 0x8000_0000 * one ==> n == i32::MAX
            &&& v < -0x8000_0000 * one ==> n == i32::MIN
        }),
{
    let (m, e) = reals::single_parts(x);
    let (one, whole) = (pow2(149) as int, reals::scaled(m, e) as int);
    single_steps(x);
    whole_of_steps(m, e, 149);
    lemma_pow2_pos(149);
    cut_by_steps(x.0 >= 0x8000_0000, whole as nat, (m * pow2((e + 149) as nat)) as int, one);
}

/// Rounding a single is to the nearest whole number, and half way between two it is away from zero.
pub proof fn rounding_is_to_the_nearest(x: Single)
    requires
        x.magnitude() < 0x7f80_0000,
    ensures
        ({
            let (v, n, one) = (x.value(), rounded(x), pow2(149) as int);
            &&& 0 <= 2 * v < 0xffff_ffff * one ==> (2 * n - 1) * one <= 2 * v < (2 * n + 1) * one
            &&& -0xffff_ffff * one < 2 * v < 0 ==> (2 * n - 1) * one < 2 * v <= (2 * n + 1) * one
            &&& 2 * v >= 0xffff_ffff * one ==> n == i32::MAX
            &&& 2 * v <= -0xffff_ffff * one ==> n == i32::MIN
        }),
{
    let (m, e) = reals::single_parts(x);
    let (one, twice) = (pow2(149) as int, reals::scaled(2 * m, e) as int);
    single_steps(x);
    whole_of_steps(2 * m, e, 149);
    lemma_pow2_pos(149);
    let r = pow2((e + 149) as nat) as int;
    assert((2 * m) * r == 2 * (m * r)) by (nonlinear_arith);
    rounded_by_steps(x.0 >= 0x8000_0000, twice as nat, 2 * (m * r), one);
}

/// The steps of a finite single, over its parts.
proof fn single_steps(x: Single)
    ensures
        ({
            let (m, e) = reals::single_parts(x);
            &&& e + 149 >= 0
            &&& reals::steps(x.magnitude(), 0x80_0000) == m * pow2((e + 149) as nat)
        }),
{
    let (m, e) = reals::single_parts(x);
    lemma2_to64();
    if x.magnitude() / 0x80_0000 == 0 {
        assert(m * 1 == m) by (nonlinear_arith);
    }
}

/// Cutting a double is toward zero: what is cut off is less than one, and the sign is kept. What is
/// beyond an `i32` is held to its end.
pub proof fn cutting_doubles_is_toward_zero(x: Double)
    requires
        x.magnitude() < 0x7ff0_0000_0000_0000,
    ensures
        ({
            let (v, n, one) = (x.value(), cut64(x), pow2(1074) as int);
            &&& 0 <= v < 0x8000_0000 * one ==> n * one <= v < (n + 1) * one
            &&& -0x8000_0000 * one <= v < 0 ==> (n - 1) * one < v <= n * one
            &&& v >= 0x8000_0000 * one ==> n == i32::MAX
            &&& v < -0x8000_0000 * one ==> n == i32::MIN
        }),
{
    let (m, e) = reals::double_parts(x);
    let (one, whole) = (pow2(1074) as int, reals::scaled(m, e) as int);
    double_steps(x);
    whole_of_steps(m, e, 1074);
    lemma_pow2_pos(1074);
    cut_by_steps(x.0 >= 0x8000_0000_0000_0000, whole as nat, (m * pow2((e + 1074) as nat)) as int, one);
}

/// Rounding a double is to the nearest whole number, and half way between two it is away from zero.
pub proof fn rounding_doubles_is_to_the_nearest(x: Double)
    requires
        x.magnitude() < 0x7ff0_0000_0000_0000,
    ensures
        ({
            let (v, n, one) = (x.value(), rounded64(x), pow2(1074) as int);
            &&& 0 <= 2 * v < 0xffff_ffff * one ==> (2 * n - 1) * one <= 2 * v < (2 * n + 1) * one
            &&& -0xffff_ffff * one < 2 * v < 0 ==> (2 * n - 1) * one < 2 * v <= (2 * n + 1) * one
            &&& 2 * v >= 0xffff_ffff * one ==> n == i32::MAX
            &&& 2 * v <= -0xffff_ffff * one ==> n == i32::MIN
        }),
{
    let (m, e) = reals::double_parts(x);
    let (one, twice) = (pow2(1074) as int, reals::scaled(2 * m, e) as int);
    double_steps(x);
    whole_of_steps(2 * m, e, 1074);
    lemma_pow2_pos(1074);
    let r = pow2((e + 1074) as nat) as int;
    assert((2 * m) * r == 2 * (m * r)) by (nonlinear_arith);
    rounded_by_steps(x.0 >= 0x8000_0000_0000_0000, twice as nat, 2 * (m * r), one);
}

/// The steps of a finite double, over its parts.
proof fn double_steps(x: Double)
    ensures
        ({
            let (m, e) = reals::double_parts(x);
            &&& e + 1074 >= 0
            &&& reals::steps(x.magnitude(), 0x10_0000_0000_0000) == m * pow2((e + 1074) as nat)
        }),
{
    let (m, e) = reals::double_parts(x);
    lemma2_to64();
    if x.magnitude() / 0x10_0000_0000_0000 == 0 {
        assert(m * 1 == m) by (nonlinear_arith);
    }
}

/// A count is a number cut toward zero: what is cut off is less than one, what is negative counts
/// nothing.
pub proof fn counts_are_cut_toward_zero(x: Single)
    requires
        x.magnitude() < 0x7f80_0000,
    ensures
        ({
            let (v, n, one) = (x.value(), counted(x) as int, pow2(149) as int);
            &&& v <= 0 ==> n == 0
            &&& v >= 0 && n < usize::MAX ==> n * one <= v < (n + 1) * one
            &&& n == usize::MAX ==> usize::MAX * one <= v
        }),
{
    let (m, e) = reals::single_parts(x);
    let (one, whole) = (pow2(149) as int, reals::scaled(m, e) as int);
    single_steps(x);
    whole_of_steps(m, e, 149);
    lemma_pow2_pos(149);
    let v = x.value();
    let size = m * pow2((e + 149) as nat);
    assert(size == 0 ==> whole == 0) by (nonlinear_arith)
        requires
            whole * one <= size,
            one > 0,
            whole >= 0,
    ;
    assert(whole >= usize::MAX ==> size >= usize::MAX * one) by (nonlinear_arith)
        requires
            whole * one <= size,
            one > 0,
    ;
    assert(whole * one >= 0) by (nonlinear_arith)
        requires
            whole >= 0,
            one > 0,
    ;
}

} // verus!
