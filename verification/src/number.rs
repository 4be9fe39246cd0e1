//! Numeric literals of a list-directed read.
//!
//! A literal is first put into the form a plain decimal parser takes ([`normalised`]), then read
//! as a sign and a [`Magnitude`]. An integer item accepts a real literal too: it is rounded to
//! the nearest double, and the double is cut toward zero ([`whole_part`]).

use vstd::arithmetic::power::*;
use vstd::arithmetic::power2::*;
use vstd::prelude::*;

use crate::text;
use crate::text::{find, find_either, slice_of, trim};

verus! {

// ---------------------------------------------------------------------------
// Exponent markers
// ---------------------------------------------------------------------------

/// `0` to `9`.
pub open spec fn digit(c: char) -> bool {
    '0' <= c && c <= '9'
}

/// What character `i` of a literal becomes: the markers `d` and `q` become `e`, and a sign that
/// directly follows a digit or a point gets the marker it omits.
pub open spec fn normalised_at(s: Seq<char>, i: int) -> Seq<char> {
    let c = s[i];
    if c == 'd' || c == 'D' || c == 'q' || c == 'Q' {
        seq!['e']
    } else if (c == '+' || c == '-') && i > 0 && (digit(s[i - 1]) || s[i - 1] == '.') {
        seq!['e', c]
    } else {
        seq![c]
    }
}

/// The first `n` characters of `s`, each as [`normalised_at`] has it.
pub open spec fn normalised_to(s: Seq<char>, n: nat) -> Seq<char>
    decreases n,
{
    if n == 0 {
        Seq::empty()
    } else {
        normalised_to(s, (n - 1) as nat) + normalised_at(s, n - 1)
    }
}

/// A token as a decimal parser takes it: trimmed, with `e` as its exponent marker.
pub open spec fn normalised(token: Seq<char>) -> Seq<char> {
    normalised_to(text::trimmed(token), text::trimmed(token).len())
}

/// [`normalised`], character by character.
pub fn normalize_number(token: &str) -> (v: Vec<char>)
    ensures
        v@ == normalised(token@),
{
    let t = trim(token);
    let mut v: Vec<char> = Vec::new();
    let mut i: usize = 0;
    while i < t.len()
        invariant
            i <= t.len(),
            v@ == normalised_to(t@, i as nat),
        decreases t.len() - i,
    {
        let c: char = t[i];
        if c == 'd' || c == 'D' || c == 'q' || c == 'Q' {
            v.push('e');
        } else if (c == '+' || c == '-') && i > 0 && (is_digit(t[i - 1]) || t[i - 1] == '.') {
            v.push('e');
            v.push(c);
        } else {
            v.push(c);
        }
        i += 1;
    }
    v
}

/// Whether `c` is `0` to `9`.
pub fn is_digit(c: char) -> (b: bool)
    ensures
        b == digit(c),
{
    '0' <= c && c <= '9'
}

// ---------------------------------------------------------------------------
// The grammar
// ---------------------------------------------------------------------------

/// Nothing but digits.
pub open spec fn all_digits(s: Seq<char>) -> bool {
    forall|i: int| 0 <= i < s.len() ==> digit(#[trigger] s[i])
}

/// The number that a digit string writes.
pub open spec fn natural(s: Seq<char>) -> nat
    decreases s.len(),
{
    if s.len() == 0 {
        0
    } else {
        (natural(s.drop_last()) * 10 + (s.last() as nat - '0' as nat)) as nat
    }
}

/// Whether `s` starts with a sign.
pub open spec fn signed(s: Seq<char>) -> bool {
    s.len() > 0 && (s[0] == '+' || s[0] == '-')
}

/// `s` after its sign, if it has one.
pub open spec fn unsigned(s: Seq<char>) -> Seq<char> {
    if signed(s) {
        s.skip(1)
    } else {
        s
    }
}

/// Whether `s` starts with a minus.
pub open spec fn negative(s: Seq<char>) -> bool {
    s.len() > 0 && s[0] == '-'
}

/// What follows an exponent marker: an optional sign and at least one digit.
pub open spec fn exponent_value(s: Seq<char>) -> Option<int> {
    let u = unsigned(s);
    if u.len() > 0 && all_digits(u) {
        Some(if negative(s) { -(natural(u) as int) } else { natural(u) as int })
    } else {
        None
    }
}

/// The letters of `s`, lower case.
pub open spec fn lower(c: char) -> char {
    if 'A' <= c && c <= 'Z' {
        ((c as u32 + 32) as u32) as char
    } else {
        c
    }
}

/// Whether `s` is the word `w`, in letters of either case.
pub open spec fn spells(s: Seq<char>, w: Seq<char>) -> bool {
    s.len() == w.len() && forall|i: int| 0 <= i < s.len() ==> lower(#[trigger] s[i]) == w[i]
}

/// What a literal writes, its sign apart.
pub enum Magnitude {
    /// The word `nan`.
    NotANumber,
    /// The words `inf` and `infinity`.
    Infinite,
    /// `digits * 10^scale`.
    Finite { digits: nat, scale: int },
}

/// Where the exponent marker stands, or the end.
pub open spec fn marker(s: Seq<char>) -> int {
    text::first_of(s, set!['e', 'E'], 0)
}

/// The digits before the point.
pub open spec fn before_point(s: Seq<char>) -> Seq<char> {
    let body = s.take(marker(s));
    body.take(text::first_of(body, set!['.'], 0))
}

/// The digits after the point; none where there is no point.
pub open spec fn after_point(s: Seq<char>) -> Seq<char> {
    let body = s.take(marker(s));
    let point = text::first_of(body, set!['.'], 0);
    if point < body.len() {
        body.skip(point + 1)
    } else {
        Seq::empty()
    }
}

/// The exponent: zero where there is no marker.
pub open spec fn exponent_of(s: Seq<char>) -> Option<int> {
    if marker(s) < s.len() {
        exponent_value(s.skip(marker(s) + 1))
    } else {
        Some(0)
    }
}

/// An unsigned decimal literal: digits, at most one point among them, at least one digit, and an
/// optional exponent.
pub open spec fn decimal(s: Seq<char>) -> Option<Magnitude> {
    let (whole, part) = (before_point(s), after_point(s));
    match exponent_of(s) {
        Some(e) if all_digits(whole) && all_digits(part) && whole.len() + part.len() > 0 => Some(
            Magnitude::Finite { digits: natural(whole + part), scale: e - part.len() },
        ),
        _ => None,
    }
}

/// What an unsigned literal writes, if it is one.
pub open spec fn magnitude(s: Seq<char>) -> Option<Magnitude> {
    if spells(s, seq!['n', 'a', 'n']) {
        Some(Magnitude::NotANumber)
    } else if spells(s, seq!['i', 'n', 'f']) || spells(
        s,
        seq!['i', 'n', 'f', 'i', 'n', 'i', 't', 'y'],
    ) {
        Some(Magnitude::Infinite)
    } else {
        decimal(s)
    }
}

/// Whether a normalised token is a real literal: an optional sign before a magnitude.
pub open spec fn is_real(s: Seq<char>) -> bool {
    magnitude(unsigned(s)) is Some
}

// ---------------------------------------------------------------------------
// Reading a literal
// ---------------------------------------------------------------------------

/// Beyond this an exponent decides the value by its sign alone: no digit string is as long.
pub const EXPONENT_LIMIT: i128 = 1208925819614629174706176;

/// `e`, held to [`EXPONENT_LIMIT`] on either side.
pub open spec fn held(e: int) -> int {
    if e > EXPONENT_LIMIT {
        EXPONENT_LIMIT as int
    } else if e < -EXPONENT_LIMIT {
        -EXPONENT_LIMIT
    } else {
        e
    }
}

/// A magnitude taken apart: the digits, how many of them precede the point, and the exponent.
pub enum Parts {
    NotANumber,
    Infinite,
    Finite { digits: Vec<char>, point: usize, exponent: i128 },
}

impl Parts {
    /// Whether these are the parts of `m`.
    pub open spec fn of(self, m: Magnitude) -> bool {
        match (self, m) {
            (Parts::NotANumber, Magnitude::NotANumber) => true,
            (Parts::Infinite, Magnitude::Infinite) => true,
            (
                Parts::Finite { digits, point, exponent },
                Magnitude::Finite { digits: written, scale },
            ) => {
                &&& all_digits(digits@)
                &&& point <= digits@.len()
                &&& written == natural(digits@)
                &&& exponent == held(scale + digits@.len() - point)
            },
            _ => false,
        }
    }
}

/// Whether `s` holds nothing but digits.
fn only_digits(s: &Vec<char>) -> (b: bool)
    ensures
        b == all_digits(s@),
{
    let mut i: usize = 0;
    while i < s.len()
        invariant
            i <= s.len(),
            forall|j: int| 0 <= j < i ==> digit(#[trigger] s@[j]),
        decreases s.len() - i,
    {
        if !is_digit(s[i]) {
            return false;
        }
        i += 1;
    }
    true
}

/// Whether `s` is the word `w`, in letters of either case.
fn is_word(s: &Vec<char>, w: &Vec<char>) -> (b: bool)
    ensures
        b == spells(s@, w@),
{
    if s.len() != w.len() {
        return false;
    }
    let mut i: usize = 0;
    while i < s.len()
        invariant
            s.len() == w.len(),
            i <= s.len(),
            forall|j: int| 0 <= j < i ==> lower(#[trigger] s@[j]) == w@[j],
        decreases s.len() - i,
    {
        let c: char = s[i];
        let l: char = if 'A' <= c && c <= 'Z' { ((c as u8) + 32) as char } else { c };
        assert(l == lower(c));
        if l != w[i] {
            return false;
        }
        i += 1;
    }
    true
}

/// The value of a digit string, held to [`EXPONENT_LIMIT`].
fn held_natural(s: &Vec<char>) -> (n: i128)
    requires
        all_digits(s@),
    ensures
        n == held(natural(s@) as int),
        n >= 0,
{
    let mut n: i128 = 0;
    let mut i: usize = 0;
    while i < s.len()
        invariant
            i <= s.len(),
            all_digits(s@),
            0 <= n <= EXPONENT_LIMIT,
            n == held(natural(s@.take(i as int)) as int),
        decreases s.len() - i,
    {
        proof {
            assert(s@.take(i + 1).drop_last() == s@.take(i as int));
            assert(digit(s@[i as int]));
        }
        let d: i128 = s[i] as u32 as i128 - 48;
        let next: i128 = n * 10 + d;
        n = if next > EXPONENT_LIMIT { EXPONENT_LIMIT } else { next };
        i += 1;
    }
    assert(s@.take(s.len() as int) == s@);
    n
}

/// The exponent that `s` writes, held to [`EXPONENT_LIMIT`]; `None` where it writes none.
fn read_exponent(s: &Vec<char>) -> (e: Option<i128>)
    ensures
        match exponent_value(s@) {
            Some(v) => e == Some(held(v) as i128),
            None => e is None,
        },
{
    let u = without_sign(s);
    if u.len() == 0 || !only_digits(&u) {
        return None;
    }
    let n = held_natural(&u);
    if s.len() > 0 && s[0] == '-' {
        Some(-n)
    } else {
        Some(n)
    }
}

/// Take an unsigned decimal literal apart.
fn read_decimal(s: &Vec<char>) -> (p: Option<Parts>)
    ensures
        match decimal(s@) {
            Some(m) => p is Some && p->0.of(m),
            None => p is None,
        },
{
    let mark = find_either(s, 'e', 'E', 0);
    let body = slice_of(s, 0, mark);
    proof {
        text::first_of_is_first(s@, set!['e', 'E'], 0);
        assert(body@ == s@.take(marker(s@)));
    }
    let at = find(&body, '.', 0);
    proof {
        text::first_of_is_first(body@, set!['.'], 0);
    }
    let mut digits = slice_of(&body, 0, at);
    assert(digits@ == before_point(s@));
    let tail = if at < body.len() {
        slice_of(&body, at + 1, body.len())
    } else {
        Vec::new()
    };
    assert(tail@ == after_point(s@));
    let exponent: i128 = if mark < s.len() {
        let text = slice_of(s, mark + 1, s.len());
        assert(text@ == s@.skip(marker(s@) + 1));
        match read_exponent(&text) {
            Some(e) => e,
            None => {
                return None;
            },
        }
    } else {
        0
    };
    if !only_digits(&digits) || !only_digits(&tail) || (digits.len() == 0 && tail.len() == 0) {
        return None;
    }
    let point = digits.len();
    let mut rest = tail;
    digits.append(&mut rest);
    assert(digits@ == before_point(s@) + after_point(s@));
    Some(Parts::Finite { digits, point, exponent })
}

/// Take an unsigned literal apart; `None` where it is none.
fn read_magnitude(s: &Vec<char>) -> (p: Option<Parts>)
    ensures
        match magnitude(s@) {
            Some(m) => p is Some && p->0.of(m),
            None => p is None,
        },
{
    let nan = vec!['n', 'a', 'n'];
    let inf = vec!['i', 'n', 'f'];
    let infinity = vec!['i', 'n', 'f', 'i', 'n', 'i', 't', 'y'];
    assert(nan@ == seq!['n', 'a', 'n']);
    assert(inf@ == seq!['i', 'n', 'f']);
    assert(infinity@ == seq!['i', 'n', 'f', 'i', 'n', 'i', 't', 'y']);
    if is_word(s, &nan) {
        Some(Parts::NotANumber)
    } else if is_word(s, &inf) || is_word(s, &infinity) {
        Some(Parts::Infinite)
    } else {
        read_decimal(s)
    }
}

/// The characters of a normalised token after its sign.
fn without_sign(s: &Vec<char>) -> (u: Vec<char>)
    ensures
        u@ == unsigned(s@),
{
    let start: usize = if s.len() > 0 && (s[0] == '+' || s[0] == '-') { 1 } else { 0 };
    slice_of(s, start, s.len())
}

/// Whether a normalised token is a real literal.
pub fn check_real(s: &Vec<char>) -> (b: bool)
    ensures
        b == is_real(s@),
{
    read_magnitude(&without_sign(s)).is_some()
}

// ---------------------------------------------------------------------------
// The whole part of a real
// ---------------------------------------------------------------------------

/// How many binary digits `n` has; none for zero.
pub open spec fn bit_length(n: nat) -> nat
    decreases n,
{
    if n == 0 {
        0
    } else {
        1 + bit_length(n / 2)
    }
}

/// Whether `num / den` lies within half a double's spacing below `n + 1`, where `n` is its whole
/// part. Just below `n + 1` doubles are `2^(bit_length(n) - 53)` apart, so the nearest double to
/// such a number is `n + 1` itself; half way is a tie, and `n + 1` is the even neighbour.
pub open spec fn rounds_to_next(num: nat, den: nat, n: nat) -> bool {
    let half = pow2((54 - bit_length(n)) as nat);
    ((n + 1) * half - 1) * den <= num * half
}

/// The whole part of the double nearest to `num / den`. From `2^31` on every integer item is
/// held to its range, so the whole part of the fraction itself stands for it.
pub open spec fn nearest_whole(num: nat, den: nat) -> nat {
    let n = num / den;
    if n < 0x8000_0000 && rounds_to_next(num, den, n) {
        n + 1
    } else {
        n
    }
}

/// The whole part of the double nearest to `digits * 10^scale`, as [`nearest_whole`] has it.
pub open spec fn whole_part(digits: nat, scale: int) -> nat {
    if scale >= 0 {
        nearest_whole((digits * pow(10, scale as nat)) as nat, 1)
    } else {
        nearest_whole(digits, pow(10, (-scale) as nat) as nat)
    }
}

/// `n` with a sign, held to the range of an `i32`.
pub open spec fn held_to_i32(is_negative: bool, n: nat) -> int {
    if is_negative {
        if n > 0x8000_0000 {
            i32::MIN as int
        } else {
            -(n as int)
        }
    } else if n > i32::MAX {
        i32::MAX as int
    } else {
        n as int
    }
}

/// The integer that a normalised token writes: a real is rounded to a double, cut toward zero
/// and held to the range of an `i32`; what is not a number is zero.
pub open spec fn integer_value(s: Seq<char>) -> Option<int> {
    match magnitude(unsigned(s)) {
        Some(Magnitude::NotANumber) => Some(0),
        Some(Magnitude::Infinite) => Some(
            if negative(s) {
                i32::MIN as int
            } else {
                i32::MAX as int
            },
        ),
        Some(Magnitude::Finite { digits, scale }) => Some(
            held_to_i32(negative(s), whole_part(digits, scale)),
        ),
        None => None,
    }
}

/// Cutting a digit string in two: the head carries the place value of the tail's length.
proof fn natural_splits(s: Seq<char>, k: int)
    requires
        0 <= k <= s.len(),
        all_digits(s),
    ensures
        natural(s) == natural(s.take(k)) * pow(10, (s.len() - k) as nat) + natural(s.skip(k)),
        natural(s.skip(k)) < pow(10, (s.len() - k) as nat),
    decreases s.len() - k,
{
    if k == s.len() {
        assert(s.take(k) == s);
        assert(natural(s.skip(k)) == 0);
        lemma_pow0(10);
    } else {
        let head = s.drop_last();
        assert forall|i: int| 0 <= i < head.len() implies digit(#[trigger] head[i]) by {
            assert(head[i] == s[i]);
        }
        natural_splits(head, k);
        assert(head.take(k) == s.take(k));
        assert(s.skip(k).drop_last() == head.skip(k));
        assert(s.skip(k).last() == s.last());
        assert(digit(s[s.len() - 1]));
        let p = pow(10, (head.len() - k) as nat);
        lemma_pow_adds(10, 1, (head.len() - k) as nat);
        lemma_pow1(10);
        assert(pow(10, (s.len() - k) as nat) == 10 * p);
        let a = natural(s.take(k)) as int;
        assert((a * p) * 10 == a * (10 * p)) by (nonlinear_arith);
    }
}

/// `2^b`, for a shift that leaves room for one more decimal digit.
fn power_of_two(b: u32) -> (p: u64)
    requires
        b <= 54,
    ensures
        p == pow2(b as nat),
        1 <= p <= 0x40_0000_0000_0000,
{
    let mut p: u64 = 1;
    let mut i: u32 = 0;
    proof {
        lemma2_to64();
        lemma2_to64_rest();
    }
    while i < b
        invariant
            i <= b <= 54,
            p == pow2(i as nat),
            pow2(54) == 0x40_0000_0000_0000,
        decreases b - i,
    {
        proof {
            lemma_pow2_unfold((i + 1) as nat);
            if i + 1 < 54 {
                lemma_pow2_strictly_increases((i + 1) as nat, 54);
            }
        }
        p = p * 2;
        i += 1;
    }
    proof {
        lemma_pow2_pos(b as nat);
        if b < 54 {
            lemma_pow2_strictly_increases(b as nat, 54);
        }
    }
    p
}

/// A number below `2^k` has at most `k` binary digits.
proof fn bit_length_bound(n: nat, k: nat)
    requires
        n < pow2(k),
    ensures
        bit_length(n) <= k,
    decreases k,
{
    if k == 0 {
        lemma2_to64();
    } else {
        lemma_pow2_unfold(k);
        if n > 0 {
            bit_length_bound(n / 2, (k - 1) as nat);
        }
    }
}

/// How many binary digits `n` has.
fn count_bits(n: u64) -> (b: u32)
    requires
        n < 0x8000_0000,
    ensures
        b == bit_length(n as nat),
        b <= 31,
{
    let mut rest: u64 = n;
    let mut b: u32 = 0;
    proof {
        lemma2_to64();
        bit_length_bound(n as nat, 31);
    }
    while rest > 0
        invariant
            b + bit_length(rest as nat) == bit_length(n as nat),
            bit_length(rest as nat) <= 31 - b,
            b <= 31,
        decreases rest,
    {
        rest = rest / 2;
        b += 1;
    }
    b
}

/// Whether the fraction `0.d...`, whose digits are `digits[k..]`, is at least `1 - 2^-b`.
///
/// The digits of `1 - 2^-b` come one at a time from `carry`, the numerator over `2^b` that is
/// still to be written; the first digit that differs decides.
fn fraction_reaches(digits: &Vec<char>, k: usize, b: u32) -> (r: bool)
    requires
        k <= digits.len(),
        b <= 54,
        all_digits(digits@),
    ensures
        r == ((pow2(b as nat) - 1) * pow(10, (digits.len() - k) as nat) <= natural(
            digits@.skip(k as int),
        ) * pow2(b as nat)),
{
    let p: u64 = power_of_two(b);
    let mut carry: u64 = p - 1;
    let mut i: usize = k;
    let ghost tail = digits@.skip(k as int);
    proof {
        lemma_pow0(10);
        assert(tail.take(0) == Seq::<char>::empty());
        assert(natural(tail.take(0)) * p + carry == (p - 1) * pow(10, 0)) by (nonlinear_arith)
            requires
                natural(tail.take(0)) == 0,
                carry == p - 1,
                pow(10, 0) == 1,
        ;
        assert(all_digits(tail)) by {
            assert forall|j: int| 0 <= j < tail.len() implies digit(#[trigger] tail[j]) by {
                assert(tail[j] == digits@[k + j]);
            }
        }
    }
    while i < digits.len()
        invariant
            k <= i <= digits.len(),
            all_digits(digits@),
            tail == digits@.skip(k as int),
            all_digits(tail),
            p == pow2(b as nat),
            carry < p <= 0x40_0000_0000_0000,
            natural(tail.take(i - k)) * p + carry == (p - 1) * pow(10, (i - k) as nat),
        decreases digits.len() - i,
    {
        let ghost head = natural(tail.take(i - k)) as int;
        let ghost unit = pow(10, (i - k) as nat);
        let ghost rest = pow(10, (digits.len() - i - 1) as nat);
        let ghost last = tail.take(i - k + 1);
        let d: u64 = digits[i] as u32 as u64 - 48;
        let c: u64 = carry * 10 / p;
        let left: u64 = carry * 10 % p;
        proof {
            assert(digit(tail[i - k]));
            assert(last.drop_last() == tail.take(i - k));
            assert(last.last() == digits@[i as int]);
            assert(natural(last) == head * 10 + d);
            assert(carry * 10 == c * p + left) by (nonlinear_arith)
                requires
                    p > 0,
                    c == (carry * 10) / p as int,
                    left == (carry * 10) % p as int,
            ;
            lemma_pow_adds(10, 1, (i - k) as nat);
            lemma_pow1(10);
            assert(pow(10, (i - k + 1) as nat) == 10 * unit);
            assert((head * 10 + c) * p + left == (p - 1) * (10 * unit)) by (nonlinear_arith)
                requires
                    head * p + carry == (p - 1) * unit,
                    carry * 10 == c * p + left,
            ;
            natural_splits(tail, i - k + 1);
            lemma_pow_adds(10, (i - k + 1) as nat, (digits.len() - i - 1) as nat);
            lemma_pow_positive(10, (digits.len() - i - 1) as nat);
        }
        let ghost whole = natural(tail) as int;
        let ghost below = natural(tail.skip(i - k + 1)) as int;
        if d > c {
            proof {
                let u = (p - 1) * (10 * unit);
                let a = natural(last) as int;
                assert(a * p >= u) by (nonlinear_arith)
                    requires
                        a >= head * 10 + c + 1,
                        (head * 10 + c) * p + left == u,
                        left < p,
                        p > 0,
                ;
                assert((p - 1) * ((10 * unit) * rest) <= whole * p) by (nonlinear_arith)
                    requires
                        whole == a * rest + below,
                        below >= 0,
                        rest > 0,
                        p > 0,
                        a * p >= (p - 1) * (10 * unit),
                ;
            }
            return true;
        }
        if d < c {
            proof {
                let a = natural(last) as int;
                assert((a + 1) * p <= (p - 1) * (10 * unit)) by (nonlinear_arith)
                    requires
                        a + 1 <= head * 10 + c,
                        (head * 10 + c) * p + left == (p - 1) * (10 * unit),
                        left >= 0,
                        p > 0,
                ;
                assert((p - 1) * ((10 * unit) * rest) > whole * p) by (nonlinear_arith)
                    requires
                        whole == a * rest + below,
                        below < rest,
                        rest > 0,
                        p > 0,
                        (a + 1) * p <= (p - 1) * (10 * unit),
                ;
            }
            return false;
        }
        carry = left;
        i += 1;
    }
    proof {
        assert(tail.take(digits.len() - k) == tail);
    }
    carry == 0
}

/// The whole part, as far as it stays below `10^10`: from there on, some number that large.
fn whole_digits(digits: &Vec<char>, k: usize) -> (n: u64)
    requires
        k <= digits.len(),
        all_digits(digits@),
    ensures
        n < 10_000_000_000 ==> n == natural(digits@.take(k as int)),
        n >= 10_000_000_000 ==> natural(digits@.take(k as int)) >= 10_000_000_000,
        n < 100_000_000_000,
{
    let mut n: u64 = 0;
    let mut i: usize = 0;
    assert(digits@.take(0) == Seq::<char>::empty());
    while i < k
        invariant
            i <= k <= digits.len(),
            all_digits(digits@),
            n < 10_000_000_000,
            n == natural(digits@.take(i as int)),
        decreases k - i,
    {
        proof {
            assert(digits@.take(i + 1).drop_last() == digits@.take(i as int));
            assert(digit(digits@[i as int]));
        }
        n = n * 10 + (digits[i] as u32 as u64 - 48);
        i += 1;
        if n >= 10_000_000_000 {
            proof {
                let s = digits@.take(k as int);
                assert forall|j: int| 0 <= j < s.len() implies digit(#[trigger] s[j]) by {
                    assert(s[j] == digits@[j]);
                }
                natural_splits(s, i as int);
                assert(s.take(i as int) == digits@.take(i as int));
                lemma_pow_positive(10, (k - i) as nat);
                let a = natural(digits@.take(i as int)) as int;
                let q = pow(10, (k - i) as nat);
                assert(a * q >= a) by (nonlinear_arith)
                    requires
                        a >= 0,
                        q >= 1,
                ;
            }
            return n;
        }
    }
    n
}

/// Splitting off the whole part: with `num = n * den + part`, the rounding test looks at `part`
/// alone.
proof fn rounding_of_the_part(num: nat, den: nat, n: nat, part: nat)
    requires
        den > 0,
        part < den,
        num == n * den + part,
        n < 0x8000_0000,
    ensures
        num / den == n,
        rounds_to_next(num, den, n) == ({
            let half = pow2((54 - bit_length(n)) as nat);
            (half - 1) * den <= part * half
        }),
{
    assert(num / den == n) by (nonlinear_arith)
        requires
            den > 0,
            part < den,
            num == n * den + part,
    ;
    let half = pow2((54 - bit_length(n)) as nat) as int;
    assert(((n + 1) * half - 1) * den == (n * den) * half + (half - 1) * den) by (nonlinear_arith);
    assert((n * den + part) * half == (n * den) * half + part * half) by (nonlinear_arith);
}

/// A whole number below `2^31` is a double already.
proof fn whole_stays(n: nat)
    requires
        n < 0x8000_0000,
    ensures
        !rounds_to_next(n, 1, n),
{
    lemma2_to64();
    bit_length_bound(n, 31);
    let half = pow2((54 - bit_length(n)) as nat) as int;
    lemma_pow2_strictly_increases(0, (54 - bit_length(n)) as nat);
    assert(((n + 1) * half - 1) * 1 == n * half + half - 1) by (nonlinear_arith);
}

/// A fraction below a tenth has no whole part, and is not rounded up to one.
proof fn small_is_zero(num: nat, den: nat)
    requires
        10 * num < den,
    ensures
        nearest_whole(num, den) == 0,
{
    assert(num / den == 0) by (nonlinear_arith)
        requires
            num < den,
    ;
    lemma2_to64();
    lemma2_to64_rest();
    let half = pow2(54) as int;
    assert((half - 1) * den > num * half) by (nonlinear_arith)
        requires
            half >= 2,
            den >= 10 * num + 1,
            num >= 0,
    ;
    assert((0 + 1) * half - 1 == half - 1) by (nonlinear_arith);
}

/// [`whole_part`] where the point falls among the digits: `k` of them precede it.
fn whole_within(digits: &Vec<char>, k: usize) -> (n: u64)
    requires
        all_digits(digits@),
        k <= digits.len(),
    ensures
        n < 10_000_000_000 ==> n == whole_part(natural(digits@), k - digits.len()),
        n >= 10_000_000_000 ==> whole_part(natural(digits@), k - digits.len()) >= 10_000_000_000,
{
    let ghost num = natural(digits@);
    let ghost den = pow(10, (digits.len() - k) as nat) as nat;
    let ghost head = natural(digits@.take(k as int));
    let ghost part = natural(digits@.skip(k as int));
    proof {
        natural_splits(digits@, k as int);
        lemma_pow_positive(10, (digits.len() - k) as nat);
        assert(num / den == head) by (nonlinear_arith)
            requires
                den > 0,
                part < den,
                num == head * den + part,
        ;
        if k == digits.len() {
            lemma_pow0(10);
            assert(num * pow(10, 0) == num) by (nonlinear_arith)
                requires
                    pow(10, 0) == 1,
            ;
        }
        assert(whole_part(num, k - digits.len()) == nearest_whole(num, den));
    }
    let n = whole_digits(digits, k);
    if n >= 0x8000_0000 {
        return n;
    }
    let bits = count_bits(n);
    proof {
        rounding_of_the_part(num, den, head, part);
    }
    if fraction_reaches(digits, k, 54 - bits) {
        n + 1
    } else {
        n
    }
}

/// [`whole_part`] where `zeros` more places follow the digits. The digits write something, so
/// a dozen places are enough to leave every range behind.
fn whole_beyond(digits: &Vec<char>, zeros: i128, Ghost(scale): Ghost<int>) -> (n: u64)
    requires
        all_digits(digits@),
        0 < zeros,
        zeros == scale || 20 <= zeros <= scale,
        natural(digits@) > 0,
    ensures
        n < 10_000_000_000 ==> n == whole_part(natural(digits@), scale),
        n >= 10_000_000_000 ==> whole_part(natural(digits@), scale) >= 10_000_000_000,
{
    let ghost m = natural(digits@) as int;
    assert(digits@.take(digits.len() as int) == digits@);
    let mut n: u64 = whole_digits(digits, digits.len());
    let mut left: i128 = zeros;
    proof {
        lemma_pow0(10);
        assert(m * pow(10, 0) == m);
        assert(scale > 0);
        assert((m * pow(10, scale as nat)) / 1 == m * pow(10, scale as nat));
    }
    while left > 0 && n < 10_000_000_000
        invariant
            0 <= left <= zeros,
            m > 0,
            n < 10_000_000_000 ==> n == m * pow(10, (zeros - left) as nat),
            n >= 10_000_000_000 ==> m * pow(10, (zeros - left) as nat) >= 10_000_000_000,
        decreases left,
    {
        proof {
            let e = (zeros - left) as nat;
            lemma_pow_adds(10, 1, e);
            lemma_pow1(10);
            assert(m * (10 * pow(10, e)) == 10 * (m * pow(10, e))) by (nonlinear_arith);
        }
        n = n * 10;
        left -= 1;
    }
    proof {
        let done = (zeros - left) as nat;
        lemma_pow_adds(10, done, (scale - done) as nat);
        lemma_pow_positive(10, (scale - done) as nat);
        lemma_pow_positive(10, done);
        let (a, q) = (pow(10, done), pow(10, (scale - done) as nat));
        if n >= 10_000_000_000 {
            assert(m * (a * q) >= m * a) by (nonlinear_arith)
                requires
                    m > 0,
                    a > 0,
                    q >= 1,
            ;
        } else {
            if zeros != scale {
                lemma_pow_increases(10, 20, zeros as nat);
                assert(pow(10, 20) >= 10_000_000_000) by {
                    reveal(pow);
                    reveal_with_fuel(pow, 21);
                }
                assert(m * a >= a) by (nonlinear_arith)
                    requires
                        m >= 1,
                        a > 0,
                ;
            }
            lemma_pow0(10);
            if n < 0x8000_0000 {
                whole_stays(n as nat);
            }
        }
    }
    n
}

/// Whether a digit string writes zero.
fn writes_zero(digits: &Vec<char>) -> (b: bool)
    requires
        all_digits(digits@),
    ensures
        b == (natural(digits@) == 0),
{
    assert(digits@.take(digits.len() as int) == digits@);
    whole_digits(digits, digits.len()) == 0
}

/// [`whole_part`] of a taken-apart decimal, as far as it stays below `10^10`: from there on, some
/// number that large.
fn read_whole(digits: &Vec<char>, point: usize, exponent: i128, Ghost(scale): Ghost<int>) -> (n: u64)
    requires
        all_digits(digits@),
        point <= digits.len(),
        exponent == held(scale + digits.len() - point),
    ensures
        n < 10_000_000_000 ==> n == whole_part(natural(digits@), scale),
        n >= 10_000_000_000 ==> whole_part(natural(digits@), scale) >= 10_000_000_000,
{
    let ghost m = natural(digits@);
    let length: i128 = digits.len() as i128;
    let k: i128 = point as i128 + exponent;
    if writes_zero(digits) {
        proof {
            if scale >= 0 {
                assert(0 * pow(10, scale as nat) == 0);
                small_is_zero(0, 1);
            } else {
                lemma_pow_positive(10, (-scale) as nat);
                small_is_zero(0, pow(10, (-scale) as nat) as nat);
            }
        }
        return 0;
    }
    if k < 0 {
        proof {
            assert(digits@.take(0) == Seq::<char>::empty());
            natural_splits(digits@, 0);
            assert(digits@.skip(0) == digits@);
            lemma_pow_adds(10, 1, digits@.len());
            lemma_pow1(10);
            lemma_pow_increases(10, 1 + digits@.len(), (-scale) as nat);
            small_is_zero(m, pow(10, (-scale) as nat) as nat);
        }
        return 0;
    }
    if k <= length {
        return whole_within(digits, k as usize);
    }
    whole_beyond(digits, k - length, Ghost(scale))
}

/// The integer that a normalised token writes, if it is a literal.
pub fn read_integer(s: &Vec<char>) -> (v: Option<i32>)
    ensures
        match integer_value(s@) {
            Some(n) => v == Some(n as i32),
            None => v is None,
        },
{
    let minus: bool = s.len() > 0 && s[0] == '-';
    let u = without_sign(s);
    match read_magnitude(&u) {
        None => None,
        Some(Parts::NotANumber) => Some(0),
        Some(Parts::Infinite) => Some(if minus { i32::MIN } else { i32::MAX }),
        Some(Parts::Finite { digits, point, exponent }) => {
            let ghost scale = match magnitude(u@) {
                Some(Magnitude::Finite { digits, scale }) => scale,
                _ => 0,
            };
            let n = read_whole(&digits, point, exponent, Ghost(scale));
            if minus {
                if n >= 0x8000_0000 {
                    Some(i32::MIN)
                } else {
                    Some(-(n as i32))
                }
            } else if n > 0x7fff_ffff {
                Some(i32::MAX)
            } else {
                Some(n as i32)
            }
        },
    }
}

// ---------------------------------------------------------------------------
// Laws
// ---------------------------------------------------------------------------

/// The character of a decimal digit.
pub open spec fn figure(d: nat) -> char {
    if d == 0 {
        '0'
    } else if d == 1 {
        '1'
    } else if d == 2 {
        '2'
    } else if d == 3 {
        '3'
    } else if d == 4 {
        '4'
    } else if d == 5 {
        '5'
    } else if d == 6 {
        '6'
    } else if d == 7 {
        '7'
    } else if d == 8 {
        '8'
    } else {
        '9'
    }
}

/// `n` in decimal figures.
pub open spec fn numeral(n: nat) -> Seq<char>
    decreases n,
{
    if n < 10 {
        seq![figure(n)]
    } else {
        numeral(n / 10).push(figure(n % 10))
    }
}

/// `n` as it is written: a minus before a negative one.
pub open spec fn written(n: int) -> Seq<char> {
    if n < 0 {
        seq!['-'] + numeral((-n) as nat)
    } else {
        numeral(n as nat)
    }
}

/// A numeral writes its number.
pub proof fn numerals_write_their_numbers(n: nat)
    ensures
        numeral(n).len() > 0,
        all_digits(numeral(n)),
        natural(numeral(n)) == n,
    decreases n,
{
    let s = numeral(n);
    reveal_with_fuel(natural, 2);
    if n >= 10 {
        numerals_write_their_numbers(n / 10);
        assert(s.drop_last() =~= numeral(n / 10));
        assert(s.last() == figure(n % 10));
        assert forall|i: int| 0 <= i < s.len() implies digit(#[trigger] s[i]) by {
            if i < s.len() - 1 {
                assert(s[i] == numeral(n / 10)[i]);
            }
        }
    } else {
        assert(s.drop_last() =~= Seq::<char>::empty());
        assert(s.last() == figure(n));
    }
}

/// Whether a text is digits and points, with a sign before them or none.
pub open spec fn is_plain(s: Seq<char>) -> bool {
    &&& s.len() > 0
    &&& (s[0] == '+' || s[0] == '-' || digit(s[0]) || s[0] == '.')
    &&& forall|i: int| 1 <= i < s.len() ==> digit(#[trigger] s[i]) || s[i] == '.'
}

/// The first characters of a text that holds no marker and no sign but at its start are kept.
proof fn plain_prefixes_are_kept(s: Seq<char>, n: nat)
    requires
        is_plain(s),
        n <= s.len(),
    ensures
        normalised_to(s, n) == s.take(n as int),
    decreases n,
{
    if n > 0 {
        plain_prefixes_are_kept(s, (n - 1) as nat);
        assert(normalised_at(s, n - 1) == seq![s[n - 1]]);
        assert(s.take(n as int) =~= s.take(n - 1) + seq![s[n - 1]]);
    } else {
        assert(s.take(0) =~= Seq::<char>::empty());
    }
}

/// A literal that is digits and points, with a sign before them or none, is taken as it stands.
pub proof fn plain_literals_are_kept(s: Seq<char>)
    requires
        is_plain(s),
    ensures
        normalised(s) == s,
{
    assert(digit(s.last()) || s.last() == '.' || s.len() == 1);
    assert(text::trimmed(s) == s);
    plain_prefixes_are_kept(s, s.len());
    assert(s.take(s.len() as int) =~= s);
}

/// A decimal literal, part by part: what stands before the point, after it and as its exponent.
proof fn decimals_have_parts(whole: Seq<char>, pointed: bool, part: Seq<char>, tail: Seq<char>)
    requires
        all_digits(whole),
        all_digits(part),
        !pointed ==> part.len() == 0,
        whole.len() + part.len() > 0,
        tail.len() > 0 ==> tail[0] == 'e' || tail[0] == 'E',
    ensures
        ({
            let point = if pointed {
                seq!['.']
            } else {
                seq![]
            };
            let s = whole + point + part + tail;
            let e = if tail.len() > 0 {
                exponent_value(tail.skip(1))
            } else {
                Some(0)
            };
            &&& !signed(s)
            &&& unsigned(s) == s
            &&& magnitude(s) == match e {
                Some(e) => Some(
                    Magnitude::Finite { digits: natural(whole + part), scale: e - part.len() },
                ),
                None => None,
            }
        }),
{
    let point: Seq<char> = if pointed {
        seq!['.']
    } else {
        seq![]
    };
    let body = whole + point + part;
    let s = body + tail;
    assert forall|i: int| 0 <= i < body.len() implies digit(#[trigger] body[i]) || (body[i] == '.'
        && i == whole.len() && pointed) by {
        if i < whole.len() {
            assert(body[i] == whole[i]);
        } else if i >= whole.len() + point.len() {
            assert(body[i] == part[i - whole.len() - point.len()]);
        }
    }
    assert forall|i: int| 0 <= i < body.len() implies !set!['e', 'E'].contains(#[trigger] s[i]) by {
        assert(s[i] == body[i]);
    }
    assert(s[0] == body[0]);
    if tail.len() > 0 {
        assert(s[body.len() as int] == tail[0]);
    }
    text::first_of_unique(s, set!['e', 'E'], 0, body.len() as int);
    assert(s.take(body.len() as int) =~= body);
    assert(tail.len() > 0 ==> s.skip((body.len() + 1) as int) =~= tail.skip(1));
    assert forall|i: int| 0 <= i < whole.len() implies !set!['.'].contains(#[trigger] body[i]) by {
        assert(digit(body[i]) || body[i] == '.');
    }
    text::first_of_unique(body, set!['.'], 0, whole.len() as int);
    assert(body.take(whole.len() as int) =~= whole);
    if pointed {
        assert(body.skip((whole.len() + 1) as int) =~= part);
    } else {
        assert(part =~= Seq::<char>::empty());
    }
    assert(lower(s[0]) == s[0]);
    assert(!spells(s, seq!['n', 'a', 'n']));
    assert(!spells(s, seq!['i', 'n', 'f']));
    assert(!spells(s, seq!['i', 'n', 'f', 'i', 'n', 'i', 't', 'y']));
}

/// Digits alone write the whole number that they are.
proof fn digits_are_whole(s: Seq<char>)
    requires
        s.len() > 0,
        all_digits(s),
    ensures
        !signed(s),
        magnitude(s) == Some(Magnitude::Finite { digits: natural(s), scale: 0 }),
        whole_part(natural(s), 0) == natural(s),
{
    let none = Seq::<char>::empty();
    decimals_have_parts(s, false, none, none);
    assert(s + none + none + none =~= s);
    assert(s + none =~= s);
    lemma_pow0(10);
    let n = natural(s);
    assert(n * pow(10, 0) == n);
    if n < 0x8000_0000 {
        whole_stays(n);
    }
    assert(n / 1 == n);
}

/// Every integer is read back as it was written, with a plus before it or none.
pub proof fn integers_are_read_back(n: i32)
    ensures
        integer_value(normalised(written(n as int))) == Some(n as int),
        n >= 0 ==> integer_value(normalised(seq!['+'] + written(n as int))) == Some(n as int),
        is_real(normalised(written(n as int))),
{
    let m: nat = if n < 0 {
        (-(n as int)) as nat
    } else {
        n as nat
    };
    let figures = numeral(m);
    numerals_write_their_numbers(m);
    digits_are_whole(figures);
    let s = written(n as int);
    assert(digit(figures[0]));
    assert(n < 0 ==> s.skip(1) =~= figures);
    plain_literals_are_kept(s);
    let plus = seq!['+'] + s;
    assert(plus.skip(1) =~= s);
    if n >= 0 {
        plain_literals_are_kept(plus);
    }
}

/// An integer that no `i32` holds is read as the nearest one that it does hold.
pub proof fn integers_are_held_to_their_range(n: int)
    ensures
        n > i32::MAX ==> integer_value(normalised(written(n))) == Some(i32::MAX as int),
        n < i32::MIN ==> integer_value(normalised(written(n))) == Some(i32::MIN as int),
{
    let m: nat = if n < 0 {
        (-n) as nat
    } else {
        n as nat
    };
    let figures = numeral(m);
    numerals_write_their_numbers(m);
    digits_are_whole(figures);
    let s = written(n);
    assert(digit(figures[0]));
    assert(n < 0 ==> s.skip(1) =~= figures);
    plain_literals_are_kept(s);
}

/// An integer item accepts a real, and cuts it toward zero: with up to six places after the
/// point nothing is rounded up.
pub proof fn reals_are_cut_toward_zero(whole: Seq<char>, part: Seq<char>)
    requires
        all_digits(whole),
        all_digits(part),
        whole.len() + part.len() > 0,
        part.len() <= 6,
        natural(whole) <= i32::MAX,
    ensures
        integer_value(normalised(whole + seq!['.'] + part)) == Some(natural(whole) as int),
        integer_value(normalised(seq!['-'] + (whole + seq!['.'] + part))) == Some(
            -(natural(whole) as int),
        ),
{
    let none = Seq::<char>::empty();
    let s = whole + seq!['.'] + part;
    let minus = seq!['-'] + s;
    decimals_have_parts(whole, true, part, none);
    assert(s + none =~= s);
    assert forall|i: int| 0 <= i < s.len() implies digit(#[trigger] s[i]) || s[i] == '.' by {
        if i < whole.len() {
            assert(s[i] == whole[i]);
        } else if i > whole.len() {
            assert(s[i] == part[i - whole.len() - 1]);
        }
    }
    plain_literals_are_kept(s);
    assert forall|i: int| 1 <= i < minus.len() implies digit(#[trigger] minus[i]) || minus[i]
        == '.' by {
        assert(minus[i] == s[i - 1]);
    }
    plain_literals_are_kept(minus);
    assert(minus.skip(1) =~= s);
    let all = whole + part;
    assert forall|i: int| 0 <= i < all.len() implies digit(#[trigger] all[i]) by {
        if i < whole.len() {
            assert(all[i] == whole[i]);
        } else {
            assert(all[i] == part[i - whole.len()]);
        }
    }
    natural_splits(all, whole.len() as int);
    assert(all.take(whole.len() as int) =~= whole);
    assert(all.skip(whole.len() as int) =~= part);
    let n = natural(whole);
    let f = natural(part);
    if part.len() == 0 {
        lemma_pow0(10);
        assert(f == 0);
        assert(all =~= whole);
        assert(n * pow(10, 0) == n);
        whole_stays(n);
        assert(n / 1 == n);
    } else {
        let den = pow(10, part.len()) as nat;
        lemma_pow_positive(10, part.len());
        lemma_pow_increases(10, part.len(), 6);
        lemma_pow0(10);
        lemma_pow1(10);
        lemma_pow_adds(10, 1, 1);
        assert(pow(10, 2) == 100);
        lemma_pow_adds(10, 2, 2);
        assert(pow(10, 4) == 10_000);
        lemma_pow_adds(10, 2, 4);
        assert(pow(10, 6) == 1_000_000);
        rounding_of_the_part(natural(all), den, n, f);
        lemma2_to64();
        bit_length_bound(n, 31);
        let half = pow2((54 - bit_length(n)) as nat) as int;
        if 54 - bit_length(n) > 23 {
            lemma_pow2_strictly_increases(23, (54 - bit_length(n)) as nat);
        }
        assert(pow2(23) == 0x80_0000);
        assert((half - 1) * den > f * half) by (nonlinear_arith)
            requires
                half > den,
                f <= den - 1,
                den > 0,
        ;
    }
}

/// The place of a literal's point and its exponent say the same thing: a positive exponent moves
/// the point to the right.
pub proof fn exponents_move_the_point_right(whole: Seq<char>, part: Seq<char>, k: nat)
    requires
        all_digits(whole),
        all_digits(part),
        whole.len() + part.len() > 0,
        k <= part.len(),
    ensures
        magnitude(whole + seq!['.'] + part + (seq!['e'] + numeral(k))) == magnitude(
            whole + part.take(k as int) + seq!['.'] + part.skip(k as int),
        ),
        magnitude(whole + seq!['.'] + part + (seq!['e'] + numeral(k))) is Some,
{
    let none = Seq::<char>::empty();
    let tail = seq!['e'] + numeral(k);
    numerals_write_their_numbers(k);
    assert(tail.skip(1) =~= numeral(k));
    assert(digit(numeral(k)[0]));
    decimals_have_parts(whole, true, part, tail);
    let (left, right) = (whole + part.take(k as int), part.skip(k as int));
    assert forall|i: int| 0 <= i < left.len() implies digit(#[trigger] left[i]) by {
        if i < whole.len() {
            assert(left[i] == whole[i]);
        } else {
            assert(left[i] == part[i - whole.len()]);
        }
    }
    assert forall|i: int| 0 <= i < right.len() implies digit(#[trigger] right[i]) by {
        assert(right[i] == part[i + k]);
    }
    decimals_have_parts(left, true, right, none);
    assert(left + seq!['.'] + right + none =~= left + seq!['.'] + right);
    assert(left + right =~= whole + part);
}

/// A negative exponent moves the point to the left.
pub proof fn exponents_move_the_point_left(whole: Seq<char>, part: Seq<char>, k: nat)
    requires
        all_digits(whole),
        all_digits(part),
        whole.len() + part.len() > 0,
        k <= whole.len(),
    ensures
        magnitude(whole + seq!['.'] + part + (seq!['e', '-'] + numeral(k))) == magnitude(
            whole.take(whole.len() - k) + seq!['.'] + (whole.skip(whole.len() - k) + part),
        ),
        magnitude(whole + seq!['.'] + part + (seq!['e', '-'] + numeral(k))) is Some,
{
    let none = Seq::<char>::empty();
    let tail = seq!['e', '-'] + numeral(k);
    let exponent = tail.skip(1);
    numerals_write_their_numbers(k);
    assert(exponent.skip(1) =~= numeral(k));
    assert(exponent[0] == '-');
    decimals_have_parts(whole, true, part, tail);
    let (left, right) = (whole.take(whole.len() - k), whole.skip(whole.len() - k) + part);
    assert forall|i: int| 0 <= i < left.len() implies digit(#[trigger] left[i]) by {
        assert(left[i] == whole[i]);
    }
    assert forall|i: int| 0 <= i < right.len() implies digit(#[trigger] right[i]) by {
        if i < k {
            assert(right[i] == whole[i + whole.len() - k]);
        } else {
            assert(right[i] == part[i - k]);
        }
    }
    decimals_have_parts(left, true, right, none);
    assert(left + seq!['.'] + right + none =~= left + seq!['.'] + right);
    assert(left + right =~= whole + part);
}

/// A point after the last digit may be left out.
pub proof fn a_last_point_may_be_left_out(whole: Seq<char>)
    requires
        all_digits(whole),
        whole.len() > 0,
    ensures
        magnitude(whole) == magnitude(whole + seq!['.']),
        magnitude(whole) == Some(Magnitude::Finite { digits: natural(whole), scale: 0 }),
{
    let none = Seq::<char>::empty();
    digits_are_whole(whole);
    decimals_have_parts(whole, true, none, none);
    assert(whole + seq!['.'] + none + none =~= whole + seq!['.']);
    assert(whole + none =~= whole);
}

/// A prefix of a text is normalised as if nothing followed.
proof fn prefixes_are_normalised_alike(a: Seq<char>, b: Seq<char>, n: nat)
    requires
        n <= a.len(),
    ensures
        normalised_to(a + b, n) == normalised_to(a, n),
    decreases n,
{
    if n > 0 {
        prefixes_are_normalised_alike(a, b, (n - 1) as nat);
        assert((a + b)[n - 1] == a[n - 1]);
        if n > 1 {
            assert((a + b)[n - 2] == a[n - 2]);
        }
    }
}

/// What follows a letter is normalised alike after any other letter.
proof fn tails_are_normalised_alike(a: Seq<char>, b: Seq<char>, at: int, n: nat)
    requires
        0 <= at,
        a.skip(at + 1) == b.skip(at + 1),
        a.len() == b.len(),
        at < a.len(),
        at + 1 + n <= a.len(),
        !digit(a[at]) && a[at] != '.',
        !digit(b[at]) && b[at] != '.',
        normalised_to(a, at as nat) == normalised_to(b, at as nat),
    ensures
        exists|rest: Seq<char>|
            #![trigger normalised_to(a, at as nat) + normalised_at(a, at) + rest]
            normalised_to(a, (at + 1 + n) as nat) == normalised_to(a, at as nat) + normalised_at(
                a,
                at,
            ) + rest && normalised_to(b, (at + 1 + n) as nat) == normalised_to(b, at as nat)
                + normalised_at(b, at) + rest,
    decreases n,
{
    let (ha, hb) = (
        normalised_to(a, at as nat) + normalised_at(a, at),
        normalised_to(b, at as nat) + normalised_at(b, at),
    );
    let none = Seq::<char>::empty();
    if n == 0 {
        assert(ha + none =~= ha);
        assert(hb + none =~= hb);
    } else {
        tails_are_normalised_alike(a, b, at, (n - 1) as nat);
        let rest = choose|rest: Seq<char>|
            #![trigger normalised_to(a, at as nat) + normalised_at(a, at) + rest]
            normalised_to(a, (at + n) as nat) == normalised_to(a, at as nat) + normalised_at(a, at)
                + rest && normalised_to(b, (at + n) as nat) == normalised_to(b, at as nat)
                + normalised_at(b, at) + rest;
        let i = at + n;
        assert(a[i] == a.skip(at + 1)[n - 1] && b[i] == b.skip(at + 1)[n - 1]);
        if n > 1 {
            assert(a[i - 1] == a.skip(at + 1)[n - 2] && b[i - 1] == b.skip(at + 1)[n - 2]);
        }
        assert(normalised_at(a, i) == normalised_at(b, i));
        let more = rest + normalised_at(a, i);
        assert(ha + more =~= ha + rest + normalised_at(a, i));
        assert(hb + more =~= hb + rest + normalised_at(b, i));
    }
}

/// Whether `c` marks an exponent.
pub open spec fn marks_exponent(c: char) -> bool {
    c == 'e' || c == 'E' || c == 'd' || c == 'D' || c == 'q' || c == 'Q'
}

/// Two texts that differ in the case of one `e` write the same number.
proof fn markers_of_either_case(head: Seq<char>, tail: Seq<char>)
    ensures
        magnitude(head + seq!['e'] + tail) == magnitude(head + seq!['E'] + tail),
{
    let (a, b) = (head + seq!['e'] + tail, head + seq!['E'] + tail);
    let at = head.len() as int;
    assert(forall|i: int| 0 <= i < a.len() && i != at ==> #[trigger] a[i] == b[i]);
    assert(lower('e') == 'e' && lower('E') == 'e');
    assert forall|w: Seq<char>| #[trigger] spells(a, w) == spells(b, w) by {
        assert forall|i: int| 0 <= i < a.len() implies lower(#[trigger] a[i]) == lower(b[i]) by {
            if i != at {
            }
        }
        if spells(a, w) {
            assert forall|i: int| 0 <= i < b.len() implies lower(#[trigger] b[i]) == w[i] by {
                assert(lower(a[i]) == w[i]);
            }
        }
        if spells(b, w) {
            assert forall|i: int| 0 <= i < a.len() implies lower(#[trigger] a[i]) == w[i] by {
                assert(lower(b[i]) == w[i]);
            }
        }
    }
    let stops = set!['e', 'E'];
    let m = marker(a);
    text::first_of_is_first(a, stops, 0);
    assert(stops.contains(a[at]));
    assert(m <= at);
    assert forall|i: int| 0 <= i < m implies !stops.contains(#[trigger] b[i]) by {
        assert(!stops.contains(a[i]));
    }
    assert(stops.contains(b[m]));
    text::first_of_unique(b, stops, 0, m);
    assert(a.take(m) =~= b.take(m));
    if m < at {
        let (x, y) = (a.skip(m + 1), b.skip(m + 1));
        let k = at - m - 1;
        assert(x[k] == 'e' && y[k] == 'E');
        assert(exponent_value(x) is None) by {
            let u = unsigned(x);
            if signed(x) {
                assert(u[k - 1] == 'e');
                assert(!digit(u[k - 1]));
            } else {
                assert(!digit(u[k]));
            }
        }
        assert(exponent_value(y) is None) by {
            let u = unsigned(y);
            if signed(y) {
                assert(u[k - 1] == 'E');
                assert(!digit(u[k - 1]));
            } else {
                assert(!digit(u[k]));
            }
        }
    } else {
        assert(a.skip(m + 1) =~= b.skip(m + 1));
    }
}

/// Whether `s` neither starts nor ends with white space, and is something.
pub open spec fn is_trim(s: Seq<char>) -> bool {
    s.len() > 0 && !text::white_space(s[0]) && !text::white_space(s.last())
}

/// All exponent markers mean the same: `e`, `d` and `q`, in either case.
pub proof fn markers_mean_the_same(head: Seq<char>, m: char, other: char, tail: Seq<char>)
    requires
        marks_exponent(m),
        marks_exponent(other),
        is_trim(head),
        is_trim(tail),
    ensures
        integer_value(normalised(head + seq![m] + tail)) == integer_value(
            normalised(head + seq![other] + tail),
        ),
        is_real(normalised(head + seq![m] + tail)) == is_real(
            normalised(head + seq![other] + tail),
        ),
{
    markers_mean_e(head, m, tail);
    markers_mean_e(head, other, tail);
}

/// Any exponent marker means `e`.
proof fn markers_mean_e(head: Seq<char>, m: char, tail: Seq<char>)
    requires
        marks_exponent(m),
        is_trim(head),
        is_trim(tail),
    ensures
        integer_value(normalised(head + seq![m] + tail)) == integer_value(
            normalised(head + seq!['e'] + tail),
        ),
        is_real(normalised(head + seq![m] + tail)) == is_real(
            normalised(head + seq!['e'] + tail),
        ),
{
    let (a, b) = (head + seq![m] + tail, head + seq!['e'] + tail);
    let at = head.len() as int;
    assert(a[0] == head[0] && b[0] == head[0]);
    assert(a.last() == tail.last() && b.last() == tail.last());
    assert(text::trimmed(a) == a && text::trimmed(b) == b);
    assert(a =~= head + (seq![m] + tail));
    assert(b =~= head + (seq!['e'] + tail));
    prefixes_are_normalised_alike(head, seq![m] + tail, head.len());
    prefixes_are_normalised_alike(head, seq!['e'] + tail, head.len());
    assert(a.skip(at + 1) =~= tail);
    assert(b.skip(at + 1) =~= tail);
    tails_are_normalised_alike(a, b, at, tail.len());
    let h = normalised_to(head, head.len());
    let rest = choose|rest: Seq<char>|
        #![trigger normalised_to(a, at as nat) + normalised_at(a, at) + rest]
        normalised_to(a, (at + 1 + tail.len()) as nat) == normalised_to(a, at as nat)
            + normalised_at(a, at) + rest && normalised_to(b, (at + 1 + tail.len()) as nat)
            == normalised_to(b, at as nat) + normalised_at(b, at) + rest;
    assert(normalised_at(b, at) == seq!['e']);
    if m == 'E' {
        assert(normalised_at(a, at) == seq!['E']);
        let (x, y) = (h + seq!['E'] + rest, h + seq!['e'] + rest);
        first_character_stays(head);
        assert(h.len() > 0);
        assert(x[0] == h[0] && y[0] == h[0]);
        markers_of_either_case(h, rest);
        let g = h.skip(1);
        assert(x.skip(1) =~= g + seq!['E'] + rest);
        assert(y.skip(1) =~= g + seq!['e'] + rest);
        markers_of_either_case(g, rest);
    } else {
        assert(normalised_at(a, at) == seq!['e']);
    }
}

/// A normalised text is something where the text is.
proof fn first_character_stays(s: Seq<char>)
    requires
        s.len() > 0,
    ensures
        normalised_to(s, s.len()).len() > 0,
{
    assert(normalised_at(s, s.len() - 1).len() > 0);
}

/// A sign right after a digit or a point starts an exponent: the marker before it may be left
/// out.
pub proof fn markers_may_be_left_out(head: Seq<char>, sign: char, tail: Seq<char>)
    requires
        sign == '+' || sign == '-',
        is_trim(head),
        digit(head.last()) || head.last() == '.',
        is_trim(tail),
    ensures
        normalised(head + seq![sign] + tail) == normalised(head + seq!['e', sign] + tail),
{
    let (a, b) = (head + seq![sign] + tail, head + seq!['e', sign] + tail);
    let at = head.len() as int;
    assert(a[0] == head[0] && b[0] == head[0]);
    assert(a.last() == tail.last() && b.last() == tail.last());
    assert(text::trimmed(a) == a && text::trimmed(b) == b);
    assert(a =~= head + (seq![sign] + tail));
    assert(b =~= head + (seq!['e', sign] + tail));
    prefixes_are_normalised_alike(head, seq![sign] + tail, head.len());
    prefixes_are_normalised_alike(head, seq!['e', sign] + tail, head.len());
    assert(a[at] == sign && a[at - 1] == head.last());
    assert(b[at] == 'e' && b[at + 1] == sign);
    let h = normalised_to(head, head.len());
    assert(normalised_to(a, (at + 1) as nat) =~= h + seq!['e', sign]);
    assert(normalised_to(b, (at + 1) as nat) =~= h + seq!['e']);
    assert(normalised_at(b, at + 1) == seq![sign]);
    assert(normalised_to(b, (at + 2) as nat) =~= h + seq!['e', sign]);
    later_characters_are_normalised_alike(a, b, at + 1, tail.len());
}

/// Texts that go on alike are normalised alike from there on.
proof fn later_characters_are_normalised_alike(a: Seq<char>, b: Seq<char>, at: int, n: nat)
    requires
        0 < at,
        at + n <= a.len(),
        b.len() == a.len() + 1,
        forall|i: int| at - 1 <= i < a.len() ==> #[trigger] a[i] == b[i + 1],
        normalised_to(a, at as nat) == normalised_to(b, (at + 1) as nat),
    ensures
        normalised_to(a, (at + n) as nat) == normalised_to(b, (at + 1 + n) as nat),
    decreases n,
{
    if n > 0 {
        later_characters_are_normalised_alike(a, b, at, (n - 1) as nat);
        let i = at + n - 1;
        assert(a[i] == b[i + 1] && a[i - 1] == b[i]);
        assert(normalised_at(a, i) == normalised_at(b, i + 1));
    }
}

/// Whether a character can stand in a decimal literal.
pub open spec fn in_decimals(c: char) -> bool {
    digit(c) || c == '.' || c == '+' || c == '-' || c == 'e' || c == 'E'
}

/// Nothing but figures, points, signs and an exponent marker makes a number, save the words for
/// what is infinite or none: a stranger among them is refused.
pub proof fn strangers_make_no_number(s: Seq<char>, i: int)
    requires
        0 <= i < s.len(),
        !in_decimals(s[i]),
        is_real(s),
    ensures
        ({
            let u = unsigned(s);
            ||| spells(u, seq!['n', 'a', 'n'])
            ||| spells(u, seq!['i', 'n', 'f'])
            ||| spells(u, seq!['i', 'n', 'f', 'i', 'n', 'i', 't', 'y'])
        }),
{
    let u = unsigned(s);
    let k = if signed(s) {
        i - 1
    } else {
        i
    };
    assert(u[k] == s[i]);
    let m = marker(u);
    text::first_of_is_first(u, set!['e', 'E'], 0);
    let body = u.take(m);
    let point = text::first_of(body, set!['.'], 0);
    text::first_of_is_first(body, set!['.'], 0);
    if decimal(u) is Some {
        if k < m {
            assert(body[k] == u[k]);
            if k < point {
                assert(before_point(u)[k] == u[k]);
            } else if k > point {
                assert(after_point(u)[k - point - 1] == u[k]);
            } else {
                assert(set!['.'].contains(body[point]));
            }
        } else if k == m {
            assert(set!['e', 'E'].contains(u[m]));
        } else {
            let e = u.skip(m + 1);
            assert(e[k - m - 1] == u[k]);
            if signed(e) {
                if k - m - 1 > 0 {
                    assert(unsigned(e)[k - m - 2] == u[k]);
                }
            } else {
                assert(unsigned(e)[k - m - 1] == u[k]);
            }
        }
    }
}

} // verus!
