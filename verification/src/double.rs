//! Numbers of double precision, worked out in whole numbers.
//!
//! A number of double precision has 53 binary digits, and every one of them is a
//! whole multiple of 2^-1074.  Here such a number is modelled by that multiple: one
//! is `one()`.  Each operation gives the number nearest to the exact result, and of
//! two that are equally near the one whose last digit is even.
use vstd::arithmetic::div_mod::{
    lemma_div_denominator, lemma_div_multiples_vanish_quotient, lemma_fundamental_div_mod,
    lemma_fundamental_div_mod_converse, lemma_truncate_middle,
};
use vstd::arithmetic::power2::{
    lemma2_to64, lemma2_to64_rest, lemma_pow2_adds, lemma_pow2_pos, lemma_pow2_strictly_increases,
    lemma_pow2_unfold, pow2,
};
use vstd::prelude::*;

verus! {

/// The number one.
pub open spec fn one() -> int {
    pow2(1074) as int
}

/// The distance between neighbours among the numbers of double precision, at `n`.
pub open spec fn float_step(n: nat) -> nat
    decreases n,
{
    if n < 9_007_199_254_740_992 {
        1
    } else {
        2 * float_step(n / 2)
    }
}

/// A fraction, rounded to the nearest whole number; a half goes to the even one.
pub open spec fn half_to_even(num: int, den: int) -> int {
    let q = num / den;
    let r = num % den;
    if 2 * r > den || (2 * r == den && q % 2 == 1) {
        q + 1
    } else {
        q
    }
}

/// The number of double precision nearest to a fraction that is not negative.
pub open spec fn nearest_size(num: int, den: int) -> int {
    let step = float_step((num / den) as nat) as int;
    half_to_even(num, den * step) * step
}

/// The number of double precision nearest to a fraction.
pub open spec fn nearest(num: int, den: int) -> int {
    if num < 0 {
        -nearest_size(-num, den)
    } else {
        nearest_size(num, den)
    }
}

/// A whole number.
pub open spec fn whole(n: int) -> int {
    nearest(n * one(), 1)
}

pub open spec fn sum(a: int, b: int) -> int {
    nearest(a + b, 1)
}

pub open spec fn product(a: int, b: int) -> int {
    nearest(a * b, one())
}

/// One number divided by another, which is above zero.
pub open spec fn quotient(a: int, b: int) -> int {
    nearest(a * one(), b)
}

// ------------------------------------------------------------------- rounding

pub(crate) fn round_half_to_even(num: u128, den: u128) -> (q: u128)
    requires
        0 < den <= 0x8000_0000_0000_0000_0000_0000_0000_0000,
        num < 0x8000_0000_0000_0000_0000_0000_0000_0000,
    ensures
        q == half_to_even(num as int, den as int),
        q <= num / den + 1,
{
    let q: u128 = num / den;
    let r: u128 = num % den;
    proof {
        assert(num / den <= num) by (nonlinear_arith)
            requires
                den > 0,
                num >= 0,
        ;
        assert(0 <= num % den < den) by (nonlinear_arith)
            requires
                den > 0,
                num >= 0,
        ;
    }
    if r > den - r || (r == den - r && q % 2 == 1) {
        q + 1
    } else {
        q
    }
}

proof fn lemma_half_scale(num: int, den: int, c: int)
    requires
        num >= 0,
        den > 0,
        c > 0,
    ensures
        den * c > 0,
        (num * c) / (den * c) == num / den,
        half_to_even(num * c, den * c) == half_to_even(num, den),
{
    lemma_div_multiples_vanish_quotient(c, num, den);
    lemma_truncate_middle(num, c, den);
    assert(c * num == num * c && c * den == den * c) by (nonlinear_arith);
    let r = num % den;
    assert(2 * (c * r) > den * c <==> 2 * r > den) by (nonlinear_arith)
        requires
            c > 0,
    ;
    assert(2 * (c * r) == den * c <==> 2 * r == den) by (nonlinear_arith)
        requires
            c > 0,
    ;
}

/// A common factor makes no difference.
proof fn lemma_nearest_cancel(num: int, den: int, c: int)
    requires
        num >= 0,
        den > 0,
        c > 0,
    ensures
        nearest_size(num * c, den * c) == nearest_size(num, den),
{
    lemma_half_scale(num, den, c);
    let step = float_step((num / den) as nat) as int;
    lemma_step_pos((num / den) as nat);
    assert(den * step > 0) by (nonlinear_arith)
        requires
            den > 0,
            step > 0,
    ;
    lemma_half_scale(num, den * step, c);
    assert((den * step) * c == (den * c) * step) by (nonlinear_arith);
}

pub proof fn lemma_step_pos(n: nat)
    ensures
        1 <= float_step(n),
        float_step(n) <= n || float_step(n) == 1,
    decreases n,
{
    if n >= 9_007_199_254_740_992 {
        lemma_step_pos(n / 2);
    }
}

proof fn lemma_step_scale(n: nat, t: nat, r: nat)
    requires
        n >= 4_503_599_627_370_496,
        r < pow2(t),
    ensures
        float_step(n * pow2(t) + r) == pow2(t) * float_step(n),
    decreases t,
{
    lemma2_to64();
    if t == 0 {
        assert(n * pow2(t) == n) by (nonlinear_arith)
            requires
                pow2(t) == 1,
        ;
        assert(pow2(t) * float_step(n) == float_step(n)) by (nonlinear_arith)
            requires
                pow2(t) == 1,
        ;
    } else {
        let h = pow2((t - 1) as nat);
        lemma_pow2_unfold(t);
        lemma_pow2_pos((t - 1) as nat);
        lemma_step_scale(n, (t - 1) as nat, r / 2);
        let x = n * pow2(t) + r;
        assert(x == 2 * (n * h) + r) by (nonlinear_arith)
            requires
                x == n * pow2(t) + r,
                pow2(t) == 2 * h,
        ;
        assert(n * h >= n) by (nonlinear_arith)
            requires
                h >= 1,
                n >= 0,
        ;
        assert(x / 2 == n * h + r / 2);
        let s = float_step(n);
        assert(2 * (h * s) == pow2(t) * s) by (nonlinear_arith)
            requires
                pow2(t) == 2 * h,
        ;
    }
}

/// A number of at most 53 digits is its own nearest.
proof fn lemma_step_divides(n: nat, t: nat)
    requires
        n < 9_007_199_254_740_992,
    ensures
        (n * pow2(t)) % float_step(n * pow2(t)) == 0,
    decreases t,
{
    lemma2_to64();
    let x = n * pow2(t);
    if x >= 9_007_199_254_740_992 {
        if t == 0 {
            assert(n * pow2(t) == n) by (nonlinear_arith)
                requires
                    pow2(t) == 1,
            ;
        }
        lemma_pow2_unfold(t);
        let h = n * pow2((t - 1) as nat);
        assert(x == 2 * h) by (nonlinear_arith)
            requires
                x == n * pow2(t),
                h == n * pow2((t - 1) as nat),
                pow2(t) == 2 * pow2((t - 1) as nat),
        ;
        lemma_step_divides(n, (t - 1) as nat);
        let s = float_step(h) as int;
        lemma_step_pos(h);
        lemma_fundamental_div_mod(h as int, s);
        let q = h as int / s;
        assert(x as int == (2 * s) * q + 0) by (nonlinear_arith)
            requires
                x == 2 * h,
                h as int == s * q + 0,
        ;
        lemma_fundamental_div_mod_converse(x as int, 2 * s, q, 0);
    }
}

proof fn lemma_exact(n: int, t: nat)
    requires
        0 <= n < 9_007_199_254_740_992,
    ensures
        nearest_size(n * pow2(t), 1) == n * pow2(t),
{
    lemma_step_divides(n as nat, t);
    let x = n * pow2(t);
    assert(x >= 0) by (nonlinear_arith)
        requires
            x == n * pow2(t),
            n >= 0,
            pow2(t) >= 0,
    ;
    let s = float_step(x as nat) as int;
    lemma_step_pos(x as nat);
    lemma_fundamental_div_mod(x, s);
    assert(x / 1 == x);
    assert(1 * s == s);
    assert(s * (x / s) == (x / s) * s) by (nonlinear_arith);
}

/// Rounding at one scale is rounding at any.
proof fn lemma_round_scale(num: int, den: int, t: nat)
    requires
        den > 0,
        num / den >= 4_503_599_627_370_496,
    ensures
        ({
            let step = float_step((num / den) as nat) as int;
            nearest_size(num * pow2(t), den) == half_to_even(num, den * step) * step * pow2(t)
        }),
{
    let s = pow2(t) as int;
    lemma_pow2_pos(t);
    let q = num / den;
    let rem = num % den;
    let step = float_step(q as nat) as int;
    lemma_step_pos(q as nat);
    lemma_fundamental_div_mod(num, den);
    assert(num >= 0) by (nonlinear_arith)
        requires
            num == den * q + rem,
            q >= 0,
            den > 0,
            rem >= 0,
    ;
    let a = (rem * s) / den;
    let b = (rem * s) % den;
    lemma_fundamental_div_mod(rem * s, den);
    assert(0 <= a < s) by (nonlinear_arith)
        requires
            rem * s == den * a + b,
            0 <= b < den,
            0 <= rem < den,
            s > 0,
    ;
    assert(num * s == (q * s + a) * den + b) by (nonlinear_arith)
        requires
            num == den * q + rem,
            rem * s == den * a + b,
    ;
    assert((q * s + a) * den + b == den * (q * s + a) + b) by (nonlinear_arith);
    lemma_fundamental_div_mod_converse(num * s, den, q * s + a, b);
    assert(q * s >= 0) by (nonlinear_arith)
        requires
            q >= 0,
            s > 0,
    ;
    lemma_step_scale(q as nat, t, a as nat);
    assert(float_step((num * s / den) as nat) == s * step);
    assert(den * step > 0) by (nonlinear_arith)
        requires
            den > 0,
            step > 0,
    ;
    lemma_half_scale(num, den * step, s);
    let m = half_to_even(num, den * step);
    assert((den * step) * s == den * (s * step)) by (nonlinear_arith);
    assert(m * (s * step) == m * step * s) by (nonlinear_arith);
}


/// A count of 2^-1074: a number of digits, and where they stand.
pub open spec fn scaled(m: int, e: int) -> int {
    m * pow2((e + 1074) as nat)
}

proof fn lemma_scaled_shift(m: int, e: int)
    requires
        e >= -1074,
    ensures
        scaled(2 * m, e) == scaled(m, e + 1),
{
    lemma_pow2_unfold((e + 1 + 1074) as nat);
    let h = pow2((e + 1074) as nat);
    assert((2 * m) * h == m * (2 * h)) by (nonlinear_arith);
}

/// Puts the digits of a number in place: the first of 53 is not zero.
fn with_full_digits(num: u64, exponent: i32) -> (r: (u64, i32))
    requires
        0 < num < 0x10_0000_0000_0000,
        -1022 <= exponent <= 895,
    ensures
        0x10_0000_0000_0000 <= r.0 < 0x20_0000_0000_0000,
        exponent - 52 <= r.1 <= exponent,
        scaled(r.0 as int, r.1 as int) == scaled(num as int, exponent as int),
{
    let mut m: u64 = num;
    let mut e: i32 = exponent;
    let ghost mut k: nat = 0;
    proof {
        lemma2_to64();
        lemma2_to64_rest();
    }
    while m < 0x10_0000_0000_0000
        invariant
            0 < m < 0x20_0000_0000_0000,
            e == exponent - k,
            pow2(k) <= m,
            pow2(52) == 0x10_0000_0000_0000,
            k <= 52,
            -1022 <= exponent <= 895,
            scaled(m as int, e as int) == scaled(num as int, exponent as int),
        decreases 0x20_0000_0000_0000 - m,
    {
        proof {
            if k >= 52 {
                assert(k == 52);
            }
            lemma_pow2_unfold(k + 1);
            lemma_scaled_shift(m as int, e - 1);
            k = k + 1;
        }
        m = m * 2;
        e = e - 1;
    }
    (m, e)
}

/// The digits nearest to a fraction times a power of two, and where they stand.
fn round_size(num: u128, den: u64, exponent: i32) -> (r: (u64, i32))
    requires
        num < 0x8000_0000_0000_0000_0000_0000_0000_0000,
        den > 0,
        den == 1 || num as int / den as int >= 0x10_0000_0000_0000,
        -1022 <= exponent <= 895,
    ensures
        num == 0 ==> r == (0u64, 0i32),
        num > 0 ==> 0x10_0000_0000_0000 <= r.0 < 0x20_0000_0000_0000,
        num > 0 ==> exponent - 52 <= r.1 <= exponent + 76,
        num as int / den as int >= 0x10_0000_0000_0000 ==> exponent <= r.1,
        scaled(r.0 as int, r.1 as int) == nearest_size(
            scaled(num as int, exponent as int),
            den as int,
        ),
{
    let ghost t = (exponent + 1074) as nat;
    let q: u128 = num / den as u128;
    if q < 0x10_0000_0000_0000 {
        assert(num as int / 1 == num);
        proof {
            lemma_exact(num as int, t);
        }
        if num == 0 {
            assert(0 * pow2(t) == 0 && 0 * pow2(1074) == 0) by (nonlinear_arith);
            return (0, 0);
        }
        return with_full_digits(num as u64, exponent);
    }
    let mut step: u128 = 1;
    let mut rest: u128 = q;
    let mut j: i32 = 0;
    proof {
        lemma2_to64();
        lemma2_to64_rest();
        assert(q as int / 1 == q);
        assert(1 * float_step(q as nat) == float_step(q as nat));
    }
    while rest >= 0x20_0000_0000_0000
        invariant
            0 <= j <= 75,
            step == pow2(j as nat),
            1 <= step,
            step * rest <= q < 0x8000_0000_0000_0000_0000_0000_0000_0000,
            rest >= 0x10_0000_0000_0000,
            rest == q as int / step as int,
            step * float_step(rest as nat) == float_step(q as nat),
            pow2(52) == 0x10_0000_0000_0000,
        decreases rest,
    {
        proof {
            let half = rest as int / 2;
            let s = step as int;
            assert(float_step(rest as nat) == 2 * float_step(half as nat));
            assert(s * (2 * float_step(half as nat)) == (s * 2) * float_step(half as nat))
                by (nonlinear_arith);
            assert((s * 2) * half <= s * rest) by (nonlinear_arith)
                requires
                    2 * half <= rest,
                    1 <= s,
            ;
            assert(s * 2 <= 0x8000_0000_0000_0000_000) by (nonlinear_arith)
                requires
                    (s * 2) * half < 0x8000_0000_0000_0000_0000_0000_0000_0000,
                    half >= 0x10_0000_0000_0000,
                    s >= 1,
            ;
            lemma_div_denominator(q as int, s, 2);
            lemma_pow2_unfold((j + 1) as nat);
            if j >= 75 {
                lemma_pow2_adds(52, 23);
                lemma2_to64();
            }
        }
        step = step * 2;
        rest = rest / 2;
        j = j + 1;
    }
    proof {
        let (n, d, s) = (num as int, den as int, step as int);
        assert(float_step(rest as nat) == 1);
        assert(s * 1 == s);
        lemma_fundamental_div_mod(n, d);
        assert(d * s <= n && d * s > 0) by (nonlinear_arith)
            requires
                n >= d * (n / d),
                s * rest <= n / d,
                rest >= 1,
                s >= 1,
                d >= 1,
        ;
        lemma_div_denominator(n, d, s);
        lemma_round_scale(n, d, t);
    }
    let m: u128 = round_half_to_even(num, den as u128 * step);
    proof {
        let (mm, s) = (m as int, step as int);
        lemma_pow2_adds(j as nat, t);
        assert(mm * s * pow2(t) == mm * pow2((j + t) as nat)) by (nonlinear_arith)
            requires
                pow2((j + t) as nat) == s * pow2(t),
        ;
        assert(scaled(mm, exponent + j) == nearest_size(
            scaled(num as int, exponent as int),
            den as int,
        ));
    }
    if m == 0x20_0000_0000_0000 {
        proof {
            lemma_scaled_shift(0x10_0000_0000_0000, exponent + j);
        }
        (0x10_0000_0000_0000, exponent + j + 1)
    } else {
        (m as u64, exponent + j)
    }
}


// -------------------------------------------------------------------- numbers

/// A number of double precision.
#[derive(Debug, Clone, Copy)]
pub struct Double {
    negative: bool,
    /// The 53 digits; zero for the number zero.
    mantissa: u64,
    /// The power of two that the last digit counts.
    exponent: i32,
}

impl View for Double {
    type V = int;

    closed spec fn view(&self) -> int {
        signed(self.negative, scaled(self.mantissa as int, self.exponent as int))
    }
}

pub open spec fn signed(negative: bool, size: int) -> int {
    if negative {
        -size
    } else {
        size
    }
}

fn power_of_two(k: u32) -> (p: u128)
    requires
        k <= 126,
    ensures
        p == pow2(k as nat),
        0 < p <= 0x4000_0000_0000_0000_0000_0000_0000_0000,
{
    let mut p: u128 = 1;
    let mut i: u32 = 0;
    proof {
        lemma2_to64();
    }
    while i < k
        invariant
            i <= k <= 126,
            p == pow2(i as nat),
        decreases k - i,
    {
        proof {
            lemma_pow2_unfold((i + 1) as nat);
            lemma_power_below(i as nat);
        }
        p = p * 2;
        i = i + 1;
    }
    proof {
        lemma_pow2_pos(k as nat);
        if k == 126 {
            lemma_pow2_126();
        } else {
            lemma_power_below(k as nat);
        }
    }
    p
}

proof fn lemma_pow2_126()
    ensures
        pow2(126) == 0x4000_0000_0000_0000_0000_0000_0000_0000,
{
    lemma2_to64();
    lemma2_to64_rest();
    lemma_pow2_adds(63, 63);
}

proof fn lemma_power_below(k: nat)
    requires
        k < 126,
    ensures
        pow2(k) < 0x4000_0000_0000_0000_0000_0000_0000_0000,
{
    lemma_pow2_126();
    lemma_pow2_strictly_increases(k, 126);
}

/// Next to a number, one of at most a quarter of its last digit is nothing.
proof fn lemma_far_apart(m: int, t: nat, b: int)
    requires
        0x10_0000_0000_0000 <= m < 0x20_0000_0000_0000,
        t > 0,
        0 <= 4 * b < pow2(t),
    ensures
        nearest_size(m * pow2(t) + b, 1) == m * pow2(t),
        nearest_size(m * pow2(t) - b, 1) == m * pow2(t),
        m * pow2(t) - b > 0,
{
    let s = pow2(t) as int;
    let h = pow2((t - 1) as nat) as int;
    lemma_pow2_unfold(t);
    lemma_pow2_pos((t - 1) as nat);
    let x = m * s + b;
    assert(m * s >= s) by (nonlinear_arith)
        requires
            m >= 1,
            s > 0,
    ;
    assert(x / 1 == x && 1 * s == s && 1 * h == h);
    lemma_step_scale(m as nat, t, b as nat);
    assert(float_step(m as nat) == 1);
    assert(s * 1 == s);
    lemma_fundamental_div_mod_converse(x, s, m, b);
    let y = m * s - b;
    assert(y / 1 == y);
    if b == 0 {
    } else if m > 0x10_0000_0000_0000 {
        assert(y == (m - 1) * s + (s - b)) by (nonlinear_arith)
            requires
                y == m * s - b,
        ;
        lemma_step_scale((m - 1) as nat, t, (s - b) as nat);
        assert(float_step((m - 1) as nat) == 1);
        lemma_fundamental_div_mod_converse(y, s, m - 1, s - b);
    } else {
        assert(y == 0x1F_FFFF_FFFF_FFFF * h + (h - b)) by (nonlinear_arith)
            requires
                y == m * s - b,
                m == 0x10_0000_0000_0000,
                s == 2 * h,
        ;
        lemma_step_scale(0x1F_FFFF_FFFF_FFFF, (t - 1) as nat, (h - b) as nat);
        assert(float_step(0x1F_FFFF_FFFF_FFFFnat) == 1);
        assert(h * 1 == h);
        lemma_fundamental_div_mod_converse(y, h, 0x1F_FFFF_FFFF_FFFF, h - b);
        assert(0x20_0000_0000_0000 * h == m * s) by (nonlinear_arith)
            requires
                m == 0x10_0000_0000_0000,
                s == 2 * h,
        ;
    }
}

impl Double {
    #[verifier::type_invariant]
    spec fn wf(self) -> bool {
        &&& self.mantissa == 0 ==> !self.negative && self.exponent == 0
        &&& self.mantissa != 0 ==> 0x10_0000_0000_0000 <= self.mantissa < 0x20_0000_0000_0000
        &&& -1074 <= self.exponent <= 971
    }

    /// Whether the last digit counts a power of two in a range.
    pub closed spec fn within(self, least: int, most: int) -> bool {
        self.mantissa == 0 || least <= self.exponent <= most
    }

    pub proof fn lemma_within(self, least: int, most: int, lower: int, higher: int)
        requires
            self.within(least, most),
            lower <= least,
            most <= higher,
        ensures
            self.within(lower, higher),
    {
    }

    fn from_parts(negative: bool, size: (u64, i32)) -> (d: Double)
        requires
            size.0 == 0 ==> size.1 == 0,
            size.0 != 0 ==> 0x10_0000_0000_0000 <= size.0 < 0x20_0000_0000_0000,
            -1074 <= size.1 <= 971,
        ensures
            d@ == signed(negative, scaled(size.0 as int, size.1 as int)),
            d.mantissa == size.0,
            d.exponent == size.1,
    {
        proof {
            assert(0 * pow2(1074) == 0) by (nonlinear_arith);
        }
        Double { negative: negative && size.0 != 0, mantissa: size.0, exponent: size.1 }
    }

    /// The parts of the number: whether it is negative, its digits as a whole
    /// number, and the power of two that the last digit counts.
    pub fn parts(&self) -> (p: (bool, u64, i32))
        ensures
            self@ == signed(p.0, scaled(p.1 as int, p.2 as int)),
    {
        (self.negative, self.mantissa, self.exponent)
    }

    /// A whole number.
    pub fn whole(n: i64) -> (d: Double)
        ensures
            d@ == whole(n as int),
            d.within(-52, 76),
    {
        let size: u64 = if n < 0 {
            (-(n as i128)) as u64
        } else {
            n as u64
        };
        let r = round_size(size as u128, 1, 0);
        proof {
            let o = one();
            assert(n < 0 ==> -(n as int * o) == size as int * o && n as int * o <= 0)
                by (nonlinear_arith)
                requires
                    n < 0 ==> size as int == -(n as int),
                    o == pow2(1074) as int,
                    o >= 0,
            ;
            assert(n >= 0 ==> n as int * o >= 0) by (nonlinear_arith)
                requires
                    o >= 0,
            ;
            if n < 0 {
                lemma_pow2_pos(1074);
                assert(n as int * o < 0) by (nonlinear_arith)
                    requires
                        n < 0,
                        o > 0,
                ;
            }
        }
        Double::from_parts(n < 0, r)
    }

    /// Some halves.
    pub fn halves(n: u32) -> (d: Double)
        ensures
            d@ == n * one() / 2,
            d.within(-53, 75),
    {
        let r = round_size(n as u128, 1, -1);
        proof {
            lemma_exact(n as int, 1073);
            lemma_pow2_unfold(1074);
            let p = pow2(1073) as int;
            assert(n * one() == 2 * (n * p)) by (nonlinear_arith)
                requires
                    one() == 2 * p,
            ;
        }
        Double::from_parts(false, r)
    }

    pub fn negated(&self) -> (d: Double)
        ensures
            d@ == -self@,
            forall|least: int, most: int|
                self.within(least, most) ==> #[trigger] d.within(least, most),
    {
        proof {
            use_type_invariant(self);
            assert(0 * pow2(1074) == 0) by (nonlinear_arith);
        }
        Double {
            negative: !self.negative && self.mantissa != 0,
            mantissa: self.mantissa,
            exponent: self.exponent,
        }
    }

    /// The sum of two numbers of which the first has the higher last digit.
    fn plus_lower(&self, other: &Double) -> (d: Double)
        requires
            self.mantissa != 0,
            other.mantissa != 0,
            other.exponent <= self.exponent,
            -900 <= other.exponent,
            self.exponent <= 820,
        ensures
            d@ == sum(self@, other@),
            d.mantissa != 0 ==> other.exponent - 52 <= d.exponent <= self.exponent + 76,
    {
        proof {
            use_type_invariant(self);
            use_type_invariant(other);
        }
        let apart: i32 = self.exponent - other.exponent;
        let ghost (ma, mb) = (self.mantissa as int, other.mantissa as int);
        let ghost ta = (self.exponent + 1074) as nat;
        let ghost tb = (other.exponent + 1074) as nat;
        proof {
            lemma2_to64();
            lemma2_to64_rest();
            lemma_pow2_adds(apart as nat, tb);
            lemma_pow2_pos(ta);
            lemma_pow2_pos(tb);
            lemma_pow2_pos(apart as nat);
        }
        if apart > 70 {
            proof {
                let b = mb * pow2(tb);
                let (p, sa, sb) = (pow2(apart as nat) as int, pow2(ta) as int, pow2(tb) as int);
                lemma_pow2_strictly_increases(55, apart as nat);
                assert(pow2(55) == 0x80_0000_0000_0000);
                assert(0 <= 4 * b < sa) by (nonlinear_arith)
                    requires
                        b == mb * sb,
                        0 <= mb < 0x20_0000_0000_0000,
                        sa == p * sb,
                        p > 0x80_0000_0000_0000,
                        sb > 0,
                ;
                lemma_far_apart(ma, ta, b);
                assert(ma * sa > 0) by (nonlinear_arith)
                    requires
                        ma > 0,
                        sa > 0,
                ;
            }
            return *self;
        }
        let power: u128 = power_of_two_small(apart as u32);
        proof {
            let p = power as int;
            assert(0 <= ma * p <= 0x800_0000_0000_0000_0000_0000_0000_0000) by (nonlinear_arith)
                requires
                    0 <= ma < 0x20_0000_0000_0000,
                    0 < p <= 0x40_0000_0000_0000_0000,
            ;
        }
        let upper: u128 = self.mantissa as u128 * power;
        let lower: u128 = other.mantissa as u128;
        let (negative, num): (bool, u128) = if self.negative == other.negative {
            (self.negative, upper + lower)
        } else if upper >= lower {
            (self.negative, upper - lower)
        } else {
            (other.negative, lower - upper)
        };
        proof {
            let (u, l, sb) = (upper as int, lower as int, pow2(tb) as int);
            let p = pow2(apart as nat) as int;
            assert(ma * pow2(ta) == u * sb) by (nonlinear_arith)
                requires
                    u == ma * p,
                    pow2(ta) == p * sb,
            ;
            assert((u + l) * sb == u * sb + l * sb) by (nonlinear_arith);
            assert((u - l) * sb == u * sb - l * sb) by (nonlinear_arith);
            assert((l - u) * sb == l * sb - u * sb) by (nonlinear_arith);
            assert(num as int * sb >= 0 && (num > 0 ==> num as int * sb > 0)) by (nonlinear_arith)
                requires
                    num >= 0,
                    sb > 0,
            ;
            assert(0 * sb == 0) by (nonlinear_arith);
            assert(signed(negative, num as int * sb) == self@ + other@);
        }
        let r = round_size(num, 1, other.exponent);
        proof {
            if num == 0 {
                lemma_exact(0, tb);
                assert(0 * pow2(1074) == 0) by (nonlinear_arith);
            }
        }
        Double::from_parts(negative, r)
    }

    /// The sum.
    pub fn plus(&self, other: &Double) -> (d: Double)
        requires
            self.within(-900, 820),
            other.within(-900, 820),
        ensures
            d@ == sum(self@, other@),
            forall|least: int, most: int| #[trigger]
                self.within(least, most) && other.within(least, most) ==> d.within(
                    least - 52,
                    most + 76,
                ),
    {
        proof {
            use_type_invariant(self);
            use_type_invariant(other);
            assert(0 * pow2(1074) == 0) by (nonlinear_arith);
        }
        if self.mantissa == 0 {
            proof {
                lemma_own_nearest(other);
            }
            *other
        } else if other.mantissa == 0 {
            proof {
                lemma_own_nearest(self);
            }
            *self
        } else if self.exponent >= other.exponent {
            self.plus_lower(other)
        } else {
            other.plus_lower(self)
        }
    }

    /// The difference.
    pub fn minus(&self, other: &Double) -> (d: Double)
        requires
            self.within(-900, 820),
            other.within(-900, 820),
        ensures
            d@ == sum(self@, -other@),
            forall|least: int, most: int| #[trigger]
                self.within(least, most) && other.within(least, most) ==> d.within(
                    least - 52,
                    most + 76,
                ),
    {
        let n = other.negated();
        self.plus(&n)
    }

    /// The product.
    pub fn times(&self, other: &Double) -> (d: Double)
        requires
            self.within(-700, 740),
            other.within(-320, 150),
        ensures
            d@ == product(self@, other@),
            forall|l1: int, m1: int, l2: int, m2: int| #[trigger]
                self.within(l1, m1) && #[trigger] other.within(l2, m2) ==> d.within(
                    l1 + l2,
                    m1 + m2 + 76,
                ),
    {
        proof {
            use_type_invariant(self);
            use_type_invariant(other);
            assert(0 * pow2(1074) == 0) by (nonlinear_arith);
        }
        if self.mantissa == 0 || other.mantissa == 0 {
            proof {
                assert(self@ * other@ == 0) by (nonlinear_arith)
                    requires
                        self@ == 0 || other@ == 0,
                ;
                lemma_pow2_pos(1074);
                lemma_half_scale(0, 1, one());
                lemma_nearest_cancel(0, 1, one());
                lemma_exact(0, 0);
                assert(0 * one() == 0 && 1 * one() == one() && 0 * pow2(0) == 0)
                    by (nonlinear_arith);
            }
            return Double { negative: false, mantissa: 0, exponent: 0 };
        }
        let ghost (ma, mb) = (self.mantissa as int, other.mantissa as int);
        proof {
            assert(0x100_0000_0000_0000_0000_0000_0000 <= ma * mb
                < 0x400_0000_0000_0000_0000_0000_0000) by (nonlinear_arith)
                requires
                    0x10_0000_0000_0000 <= ma < 0x20_0000_0000_0000,
                    0x10_0000_0000_0000 <= mb < 0x20_0000_0000_0000,
            ;
        }
        let num: u128 = self.mantissa as u128 * other.mantissa as u128;
        let negative = self.negative != other.negative;
        let exponent: i32 = self.exponent + other.exponent;
        let r = round_size(num, 1, exponent);
        proof {
            let ta = (self.exponent + 1074) as nat;
            let tb = (other.exponent + 1074) as nat;
            let t = (exponent + 1074) as nat;
            let (pa, pb, p, o) = (pow2(ta) as int, pow2(tb) as int, pow2(t) as int, one());
            lemma_pow2_adds(ta, tb);
            lemma_pow2_adds(t, 1074);
            lemma_pow2_pos(1074);
            lemma_pow2_pos(t);
            lemma_pow2_pos(ta);
            lemma_pow2_pos(tb);
            let x = num as int * p;
            assert(pa * pb == p * o);
            assert((ma * pa) * (mb * pb) == x * o) by (nonlinear_arith)
                requires
                    x == (ma * mb) * p,
                    pa * pb == p * o,
            ;
            assert(x > 0 && x * o > 0) by (nonlinear_arith)
                requires
                    x == num as int * p,
                    num > 0,
                    p > 0,
                    o > 0,
            ;
            let (a, b) = (ma * pa, mb * pb);
            assert((-a) * b == -(a * b) && a * (-b) == -(a * b) && (-a) * (-b) == a * b)
                by (nonlinear_arith);
            lemma_nearest_cancel(x, 1, o);
            assert(1 * o == o);
        }
        Double::from_parts(negative, r)
    }

    /// The quotient.
    pub fn over(&self, other: &Double) -> (d: Double)
        requires
            self.within(-520, 650),
            other.within(-60, 80),
            other@ > 0,
        ensures
            d@ == quotient(self@, other@),
            forall|l1: int, m1: int, l2: int, m2: int| #[trigger]
                self.within(l1, m1) && #[trigger] other.within(l2, m2) ==> d.within(
                    l1 - m2 - 66,
                    m1 - l2 + 10,
                ),
    {
        proof {
            use_type_invariant(self);
            use_type_invariant(other);
            assert(0 * pow2(1074) == 0) by (nonlinear_arith);
            lemma_pow2_pos((other.exponent + 1074) as nat);
            let p = pow2((other.exponent + 1074) as nat) as int;
            assert(other.mantissa as int * p >= 0) by (nonlinear_arith)
                requires
                    p > 0,
            ;
        }
        if self.mantissa == 0 {
            proof {
                let b = other@;
                lemma_nearest_cancel(0, 1, b);
                lemma_exact(0, 0);
                assert(0 * one() == 0 && 1 * b == b && 0 * b == 0 && 0 * pow2(0) == 0)
                    by (nonlinear_arith);
            }
            return Double { negative: false, mantissa: 0, exponent: 0 };
        }
        let ghost (ma, mb) = (self.mantissa as int, other.mantissa as int);
        let num: u128 = self.mantissa as u128 * 0x4_0000_0000_0000_0000;
        let exponent: i32 = self.exponent - other.exponent - 66;
        proof {
            assert(num as int / mb >= 0x10_0000_0000_0000) by (nonlinear_arith)
                requires
                    num >= 0x10_0000_0000_0000 * 0x4_0000_0000_0000_0000,
                    0 < mb < 0x20_0000_0000_0000,
            ;
        }
        let r = round_size(num, other.mantissa, exponent);
        proof {
            let ta = (self.exponent + 1074) as nat;
            let tb = (other.exponent + 1074) as nat;
            let t = (exponent + 1074) as nat;
            let (pa, pb, p, o) = (pow2(ta) as int, pow2(tb) as int, pow2(t) as int, one());
            lemma2_to64();
            lemma_pow2_adds(64, 2);
            lemma_pow2_adds(66, t);
            lemma_pow2_adds(66 + t, tb);
            lemma_pow2_adds(ta, 1074);
            lemma_pow2_pos(1074);
            lemma_pow2_pos(t);
            lemma_pow2_pos(ta);
            let x = num as int * p;
            let w = 0x4_0000_0000_0000_0000int;
            assert((w * p) * pb == pa * o);
            assert(x * pb == (ma * pa) * o) by (nonlinear_arith)
                requires
                    x == (ma * w) * p,
                    (w * p) * pb == pa * o,
            ;
            assert(x > 0 && ma * pa > 0 && (ma * pa) * o > 0) by (nonlinear_arith)
                requires
                    x == num as int * p,
                    num > 0,
                    p > 0,
                    o > 0,
                    ma > 0,
                    pa > 0,
            ;
            assert((-(ma * pa)) * o == -((ma * pa) * o)) by (nonlinear_arith);
            lemma_nearest_cancel(x, mb, pb);
        }
        Double::from_parts(self.negative, r)
    }
}

fn power_of_two_small(k: u32) -> (p: u128)
    requires
        k <= 70,
    ensures
        p == pow2(k as nat),
        0 < p <= 0x40_0000_0000_0000_0000,
{
    let p: u128 = power_of_two(k);
    proof {
        lemma2_to64();
        lemma_pow2_adds(64, 6);
        if k < 70 {
            lemma_pow2_strictly_increases(k as nat, 70);
        }
    }
    p
}

/// A number of double precision is the nearest to itself.
proof fn lemma_own_nearest(d: &Double)
    requires
        d.wf(),
    ensures
        sum(d@, 0) == d@,
        sum(0, d@) == d@,
{
    let t = (d.exponent + 1074) as nat;
    lemma_exact(d.mantissa as int, t);
    let p = pow2(t) as int;
    lemma_pow2_pos(t);
    assert(d.mantissa as int * p >= 0) by (nonlinear_arith)
        requires
            p > 0,
    ;
}


// ----------------------------------------------------- comparing and converting

/// A number that is not negative, rounded to the nearest whole number, halves
/// upwards.
pub open spec fn nearest_whole(v: int) -> int {
    (2 * v + one()) / (2 * one())
}

/// A number that is not negative as a whole number of 64 bits: one that is too
/// large is held at the largest.
pub open spec fn to_u64(v: int) -> u64 {
    if nearest_whole(v) > u64::MAX {
        u64::MAX
    } else {
        nearest_whole(v) as u64
    }
}

/// The millionths in a number that is not negative, rounded to the nearest whole
/// number; a half goes to the even one.
pub open spec fn millionths(v: int) -> int {
    half_to_even(v * 1_000_000, one())
}

proof fn lemma_sizes_in_order(ma: int, ea: int, mb: int, eb: int)
    requires
        0x10_0000_0000_0000 <= ma,
        0 <= mb < 0x20_0000_0000_0000,
        ea > eb >= -1074,
    ensures
        scaled(ma, ea) > scaled(mb, eb),
{
    let (ta, tb) = ((ea + 1074) as nat, (eb + 1074) as nat);
    let (pa, pb) = (pow2(ta) as int, pow2(tb) as int);
    lemma_pow2_unfold((tb + 1) as nat);
    lemma_pow2_pos(tb);
    if ta > tb + 1 {
        lemma_pow2_strictly_increases((tb + 1) as nat, ta);
    }
    assert(ma * pa > mb * pb) by (nonlinear_arith)
        requires
            ma >= 0x10_0000_0000_0000,
            0 <= mb < 0x20_0000_0000_0000,
            pa >= 2 * pb,
            pb > 0,
    ;
}

impl Double {
    fn is_larger(&self, other: &Double) -> (b: bool)
        ensures
            b == (scaled(self.mantissa as int, self.exponent as int) > scaled(
                other.mantissa as int,
                other.exponent as int,
            )),
    {
        proof {
            use_type_invariant(self);
            use_type_invariant(other);
            let (ma, ea) = (self.mantissa as int, self.exponent as int);
            let (mb, eb) = (other.mantissa as int, other.exponent as int);
            let (pa, pb) = (pow2((ea + 1074) as nat) as int, pow2((eb + 1074) as nat) as int);
            lemma_pow2_pos((ea + 1074) as nat);
            lemma_pow2_pos((eb + 1074) as nat);
            assert(ma * pa >= 0 && mb * pb >= 0 && (ma > 0 ==> ma * pa > 0) && (mb > 0 ==> mb * pb
                > 0)) by (nonlinear_arith)
                requires
                    pa > 0,
                    pb > 0,
                    ma >= 0,
                    mb >= 0,
            ;
            assert(0 * pa == 0 && 0 * pb == 0) by (nonlinear_arith);
            if ma > 0 && mb > 0 {
                if ea > eb {
                    lemma_sizes_in_order(ma, ea, mb, eb);
                } else if ea < eb {
                    lemma_sizes_in_order(mb, eb, ma, ea);
                } else {
                    assert(ma * pa > mb * pa <==> ma > mb) by (nonlinear_arith)
                        requires
                            pa > 0,
                    ;
                }
            }
        }
        if self.mantissa == 0 {
            false
        } else if other.mantissa == 0 {
            true
        } else if self.exponent != other.exponent {
            self.exponent > other.exponent
        } else {
            self.mantissa > other.mantissa
        }
    }

    /// Whether a number is above another.
    pub fn is_above(&self, other: &Double) -> (b: bool)
        ensures
            b == (self@ > other@),
    {
        proof {
            use_type_invariant(self);
            use_type_invariant(other);
            lemma_size_sign(self);
            lemma_size_sign(other);
        }
        if self.negative != other.negative {
            other.negative
        } else if self.negative {
            other.is_larger(self)
        } else {
            self.is_larger(other)
        }
    }

    /// Whether a number is below zero.
    pub fn is_negative(&self) -> (b: bool)
        ensures
            b == (self@ < 0),
    {
        proof {
            use_type_invariant(self);
            lemma_size_sign(self);
        }
        self.negative
    }

    /// The number, or zero where it is negative.
    pub fn at_least_zero(&self) -> (d: Double)
        ensures
            d@ == if self@ < 0 {
                0
            } else {
                self@
            },
            forall|least: int, most: int|
                self.within(least, most) ==> #[trigger] d.within(least, most),
    {
        proof {
            use_type_invariant(self);
            lemma_size_sign(self);
            assert(0 * pow2(1074) == 0) by (nonlinear_arith);
        }
        if self.negative {
            Double { negative: false, mantissa: 0, exponent: 0 }
        } else {
            *self
        }
    }

    /// The nearest whole number of 64 bits, halves upwards.
    pub fn rounded(&self) -> (n: u64)
        requires
            self@ >= 0,
        ensures
            n == to_u64(self@),
    {
        proof {
            use_type_invariant(self);
            lemma_size_sign(self);
            lemma_pow2_pos(1074);
            lemma2_to64();
            lemma2_to64_rest();
        }
        let ghost (m, e, o) = (self.mantissa as int, self.exponent as int, one());
        if self.exponent >= 0 {
            proof {
                lemma_pow2_adds(e as nat, 1074);
            }
            if self.exponent > 11 {
                proof {
                    let p = pow2(e as nat) as int;
                    if e > 12 {
                        lemma_pow2_strictly_increases(12, e as nat);
                    }
                    assert(self@ >= 0x1_0000_0000_0000_0000 * o) by (nonlinear_arith)
                        requires
                            self@ == m * (p * o),
                            m >= 0x10_0000_0000_0000,
                            p >= 0x1000,
                            o > 0,
                    ;
                    let v = self@;
                    assert((2 * v + o) / (2 * o) >= 0x1_0000_0000_0000_0000) by (nonlinear_arith)
                        requires
                            v >= 0x1_0000_0000_0000_0000 * o,
                            o > 0,
                    ;
                }
                return 0xFFFF_FFFF_FFFF_FFFF;
            }
            let power: u128 = power_of_two(self.exponent as u32);
            proof {
                let p = power as int;
                if e < 11 {
                    lemma_pow2_strictly_increases(e as nat, 11);
                }
                assert(0 <= m * p < 0x1_0000_0000_0000_0000) by (nonlinear_arith)
                    requires
                        0 <= m < 0x20_0000_0000_0000,
                        0 < p <= 0x800,
                ;
                let n = m * p;
                let v = self@;
                assert(v == n * o) by (nonlinear_arith)
                    requires
                        v == m * (p * o),
                        n == m * p,
                ;
                assert((2 * v + o) / (2 * o) == n) by (nonlinear_arith)
                    requires
                        v == n * o,
                        o > 0,
                ;
            }
            return (self.mantissa as u128 * power) as u64;
        }
        let k: u32 = (-self.exponent) as u32;
        proof {
            let p = pow2(k as nat) as int;
            let sc = pow2((1074 - k) as nat) as int;
            lemma_pow2_adds(k as nat, (1074 - k) as nat);
            lemma_pow2_pos(k as nat);
            lemma_pow2_pos((1074 - k) as nat);
            let v = self@;
            assert(2 * v + o == (2 * m + p) * sc && 2 * o == (2 * p) * sc) by (nonlinear_arith)
                requires
                    v == m * sc,
                    o == p * sc,
            ;
            lemma_half_scale(2 * m + p, 2 * p, sc);
            assert((2 * v + o) / (2 * o) == (2 * m + p) / (2 * p));
        }
        if k > 60 {
            proof {
                let p = pow2(k as nat) as int;
                lemma_pow2_strictly_increases(60, k as nat);
                lemma_fundamental_div_mod_converse(2 * m + p, 2 * p, 0, 2 * m + p);
            }
            return 0;
        }
        let power: u128 = power_of_two(k);
        proof {
            let p = power as int;
            if k < 60 {
                lemma_pow2_strictly_increases(k as nat, 60);
            }
            let (a, b) = (2 * m + p, 2 * p);
            assert(0 <= a / b <= a) by (nonlinear_arith)
                requires
                    a >= 0,
                    b >= 1,
            ;
        }
        ((2 * self.mantissa as u128 + power) / (2 * power)) as u64
    }

    /// The millionths in the size of the number.
    pub fn size_in_millionths(&self) -> (n: u128)
        requires
            -0x1_0000_0000_0000_0000 * one() < self@ < 0x1_0000_0000_0000_0000 * one(),
        ensures
            n == millionths(if self@ < 0 {
                -self@
            } else {
                self@
            }),
            n < 0x1_0000_0000_0000_0000 * 1_000_000,
    {
        proof {
            use_type_invariant(self);
            lemma_size_sign(self);
            lemma_pow2_pos(1074);
            lemma2_to64();
            lemma2_to64_rest();
        }
        let ghost (m, e, o) = (self.mantissa as int, self.exponent as int, one());
        let ghost v = scaled(m, e);
        if self.exponent >= 0 {
            proof {
                lemma_pow2_adds(e as nat, 1074);
                if e > 11 {
                    let p = pow2(e as nat) as int;
                    if e > 12 {
                        lemma_pow2_strictly_increases(12, e as nat);
                    }
                    assert(v >= 0x1_0000_0000_0000_0000 * o) by (nonlinear_arith)
                        requires
                            v == m * (p * o),
                            m >= 0x10_0000_0000_0000,
                            p >= 0x1000,
                            o > 0,
                    ;
                }
            }
            let power: u128 = power_of_two(self.exponent as u32);
            proof {
                let p = power as int;
                if e < 11 {
                    lemma_pow2_strictly_increases(e as nat, 11);
                }
                assert(0 <= m * p < 0x1_0000_0000_0000_0000) by (nonlinear_arith)
                    requires
                        0 <= m < 0x20_0000_0000_0000,
                        0 < p <= 0x800,
                ;
                let x = (m * p) * 1_000_000;
                assert(v * 1_000_000 == x * o) by (nonlinear_arith)
                    requires
                        v == m * (p * o),
                        x == (m * p) * 1_000_000,
                ;
                lemma_half_scale(x, 1, o);
                assert(1 * o == o);
                assert(x / 1 == x && x % 1 == 0);
            }
            return self.mantissa as u128 * power * 1_000_000;
        }
        let k: u32 = (-self.exponent) as u32;
        let num: u128 = self.mantissa as u128 * 1_000_000;
        proof {
            let p = pow2(k as nat) as int;
            let sc = pow2((1074 - k) as nat) as int;
            lemma_pow2_adds(k as nat, (1074 - k) as nat);
            lemma_pow2_pos(k as nat);
            lemma_pow2_pos((1074 - k) as nat);
            let x = num as int;
            assert(v * 1_000_000 == x * sc) by (nonlinear_arith)
                requires
                    v == m * sc,
                    x == m * 1_000_000,
            ;
            lemma_half_scale(x, p, sc);
        }
        if k > 126 {
            proof {
                let p = pow2(k as nat) as int;
                lemma_pow2_126();
                lemma_pow2_strictly_increases(126, k as nat);
                lemma_fundamental_div_mod_converse(num as int, p, 0, num as int);
            }
            return 0;
        }
        let power: u128 = power_of_two(k);
        proof {
            let (a, b) = (num as int, power as int);
            assert(0 <= a / b <= a) by (nonlinear_arith)
                requires
                    a >= 0,
                    b >= 1,
            ;
        }
        round_half_to_even(num, power)
    }
}

proof fn lemma_size_sign(d: &Double)
    requires
        d.wf(),
    ensures
        scaled(d.mantissa as int, d.exponent as int) >= 0,
        d.mantissa != 0 ==> scaled(d.mantissa as int, d.exponent as int) > 0,
        d.negative <==> d@ < 0,
{
    let t = (d.exponent + 1074) as nat;
    let p = pow2(t) as int;
    lemma_pow2_pos(t);
    let m = d.mantissa as int;
    assert(m * p >= 0 && (m > 0 ==> m * p > 0)) by (nonlinear_arith)
        requires
            p > 0,
            m >= 0,
    ;
    assert(0 * p == 0) by (nonlinear_arith);
}


// ------------------------------------------------------------------------ laws

proof fn lemma_half_error(num: int, den: int)
    requires
        num >= 0,
        den > 0,
    ensures
        half_to_even(num, den) >= 0,
        2 * (half_to_even(num, den) * den) <= 2 * num + den,
        2 * (half_to_even(num, den) * den) >= 2 * num - den,
        num / den <= half_to_even(num, den) <= num / den + 1,
{
    lemma_fundamental_div_mod(num, den);
    let (q, r) = (num / den, num % den);
    assert(q >= 0) by (nonlinear_arith)
        requires
            num >= 0,
            den > 0,
            q == num / den,
    ;
    assert(0 <= r < den) by (nonlinear_arith)
        requires
            den > 0,
            r == num % den,
    ;
    assert(q * den == den * q && (q + 1) * den == den * q + den) by (nonlinear_arith);
}

proof fn lemma_step_range(n: nat)
    ensures
        (n as int / float_step(n) as int) < 9_007_199_254_740_992,
        float_step(n) > 1 ==> n as int / float_step(n) as int >= 4_503_599_627_370_496,
        float_step(n) > 1 ==> float_step(n) * 4_503_599_627_370_496 <= n,
    decreases n,
{
    if n >= 9_007_199_254_740_992 {
        let h = n / 2;
        let s = float_step(h) as int;
        lemma_step_range(h);
        lemma_step_pos(h);
        lemma_div_denominator(n as int, 2, s);
        lemma_div_denominator(n as int, s, 2);
        assert(2 * s == s * 2);
        if s == 1 {
            assert(h as int / 1 == h);
        }
    } else {
        assert(n as int / 1 == n);
    }
}

proof fn lemma_step_grows(n: nat, m: nat)
    requires
        n <= m,
    ensures
        float_step(n) == float_step(m) || 2 * float_step(n) <= float_step(m),
    decreases m,
{
    if n >= 9_007_199_254_740_992 {
        lemma_step_grows(n / 2, m / 2);
    } else if m >= 9_007_199_254_740_992 {
        lemma_step_pos(m / 2);
    }
}

proof fn lemma_step_is_power(n: nat) -> (j: nat)
    ensures
        float_step(n) == pow2(j),
    decreases n,
{
    lemma2_to64();
    if n >= 9_007_199_254_740_992 {
        let k = lemma_step_is_power(n / 2);
        lemma_pow2_unfold(k + 1);
        k + 1
    } else {
        0
    }
}

proof fn lemma_half_monotone(a: int, b: int, den: int)
    requires
        0 <= a <= b,
        den > 0,
    ensures
        half_to_even(a, den) <= half_to_even(b, den),
{
    lemma_half_error(a, den);
    lemma_half_error(b, den);
    lemma_fundamental_div_mod(a, den);
    lemma_fundamental_div_mod(b, den);
    assert(a / den <= b / den) by (nonlinear_arith)
        requires
            0 <= a <= b,
            den > 0,
    ;
}

/// The error of rounding, and the room that it takes.
pub proof fn rounding_is_close(num: int, den: int)
    requires
        num >= 0,
        den > 0,
    ensures
        nearest_size(num, den) >= 0,
        8 * (nearest_size(num, den) * den) <= 9 * num + 8 * den,
        ({
            let step = float_step((num / den) as nat) as int;
            &&& 2 * (nearest_size(num, den) * den) <= 2 * num + den * step
            &&& 2 * (nearest_size(num, den) * den) >= 2 * num - den * step
        }),
{
    let q = num / den;
    let s = float_step(q as nat) as int;
    lemma_step_pos(q as nat);
    lemma_step_range(q as nat);
    lemma_fundamental_div_mod(num, den);
    assert(q >= 0) by (nonlinear_arith)
        requires
            num >= 0,
            den > 0,
            q == num / den,
    ;
    assert(0 <= num % den) by (nonlinear_arith)
        requires
            den > 0,
    ;
    assert(den * s > 0) by (nonlinear_arith)
        requires
            den > 0,
            s > 0,
    ;
    lemma_half_error(num, den * s);
    let h = half_to_even(num, den * s);
    assert(h * (den * s) == (h * s) * den) by (nonlinear_arith);
    assert(h * s >= 0) by (nonlinear_arith)
        requires
            h >= 0,
            s >= 0,
    ;
    if s > 1 {
        assert(den * s * 4_503_599_627_370_496 <= num) by (nonlinear_arith)
            requires
                s * 4_503_599_627_370_496 <= q,
                num >= den * q,
                den > 0,
        ;
    } else {
        assert(den * s == den) by (nonlinear_arith)
            requires
                s == 1,
        ;
    }
}

proof fn lemma_size_monotone(a: int, b: int, den: int)
    requires
        0 <= a <= b,
        den > 0,
    ensures
        nearest_size(a, den) <= nearest_size(b, den),
{
    let (qa, qb) = (a / den, b / den);
    assert(0 <= qa <= qb) by (nonlinear_arith)
        requires
            0 <= a <= b,
            den > 0,
            qa == a / den,
            qb == b / den,
    ;
    let (sa, sb) = (float_step(qa as nat) as int, float_step(qb as nat) as int);
    lemma_step_pos(qa as nat);
    lemma_step_pos(qb as nat);
    lemma_step_grows(qa as nat, qb as nat);
    assert(den * sa > 0 && den * sb > 0) by (nonlinear_arith)
        requires
            den > 0,
            sa > 0,
            sb > 0,
    ;
    let (ha, hb) = (half_to_even(a, den * sa), half_to_even(b, den * sb));
    if sa == sb {
        lemma_half_monotone(a, b, den * sa);
        assert(ha * sa <= hb * sa) by (nonlinear_arith)
            requires
                ha <= hb,
                sa > 0,
        ;
    } else {
        lemma_step_range(qa as nat);
        lemma_step_range(qb as nat);
        lemma_half_error(a, den * sa);
        lemma_half_error(b, den * sb);
        lemma_div_denominator(a, den, sa);
        lemma_div_denominator(b, den, sb);
        assert(ha * sa <= hb * sb) by (nonlinear_arith)
            requires
                ha <= 9_007_199_254_740_992,
                hb >= 4_503_599_627_370_496,
                2 * sa <= sb,
                sa > 0,
        ;
    }
}

/// Where neighbours are more than 2^-1074 apart, they are a small part of the number
/// apart.
pub proof fn step_is_a_small_part(n: nat)
    ensures
        float_step(n) == 1 || float_step(n) * 4_503_599_627_370_496 <= n,
{
    lemma_step_range(n);
    lemma_step_pos(n);
}

/// A fraction that is rounded to a whole number is less than, or just, half a whole away
/// from it.
pub proof fn rounded_fractions_are_near(num: int, den: int)
    requires
        num >= 0,
        den > 0,
    ensures
        half_to_even(num, den) >= 0,
        -den <= 2 * (half_to_even(num, den) * den - num) <= den,
{
    lemma_half_error(num, den);
}

/// A number is rounded to the nearest whole number, a half upwards; one that 64 bits do
/// not hold is held at the largest.
pub proof fn whole_numbers_are_near(v: int)
    requires
        v >= 0,
    ensures
        2 * v < 0x1_ffff_ffff_ffff_ffff * one() ==> -one() < 2 * (to_u64(v) * one() - v) <= one(),
        2 * v >= 0x1_ffff_ffff_ffff_ffff * one() ==> to_u64(v) == u64::MAX,
{
    let o = one();
    lemma_pow2_pos(1074);
    let num = 2 * v + o;
    let den = 2 * o;
    let q = num / den;
    lemma_fundamental_div_mod(num, den);
    assert(0 <= num % den < den) by (nonlinear_arith)
        requires
            den > 0,
    ;
    assert(den * q == 2 * (q * o)) by (nonlinear_arith)
        requires
            den == 2 * o,
    ;
    assert(q >= 0) by (nonlinear_arith)
        requires
            num >= 0,
            den > 0,
            q == num / den,
    ;
    if 2 * v < 0x1_ffff_ffff_ffff_ffff * o {
        assert(q <= 0xffff_ffff_ffff_ffff) by (nonlinear_arith)
            requires
                2 * (q * o) <= num,
                num < 0x1_ffff_ffff_ffff_ffff * o + o,
                o > 0,
        ;
    } else {
        assert(q >= 0x1_0000_0000_0000_0000) by (nonlinear_arith)
            requires
                num < 2 * (q * o) + 2 * o,
                num >= 0x1_ffff_ffff_ffff_ffff * o + o,
                o > 0,
        ;
    }
}

/// Rounding changes a number by no more than a 2^53rd part of it, or by 2^-1074.
pub proof fn rounding_error(num: int, den: int)
    requires
        den > 0,
    ensures
        ({
            let size = if num < 0 {
                -num
            } else {
                num
            };
            let error = nearest(num, den) * den - num;
            -size - 9_007_199_254_740_992 * den <= 9_007_199_254_740_992 * error <= size
                + 9_007_199_254_740_992 * den
        }),
{
    let size = if num < 0 {
        -num
    } else {
        num
    };
    let q = size / den;
    let step = float_step(q as nat) as int;
    rounding_is_close(size, den);
    step_is_a_small_part(q as nat);
    lemma_fundamental_div_mod(size, den);
    assert(q >= 0 && size % den >= 0) by (nonlinear_arith)
        requires
            size >= 0,
            den > 0,
            q == size / den,
    ;
    assert(step == 1 || den * step * 4_503_599_627_370_496 <= den * q) by (nonlinear_arith)
        requires
            den > 0,
            step == 1 || step * 4_503_599_627_370_496 <= q,
    ;
    let r = nearest_size(size, den);
    assert((-r) * den == -(r * den)) by (nonlinear_arith);
    if step == 1 {
        assert(den * step == den) by (nonlinear_arith)
            requires
                step == 1,
        ;
    }
}

pub proof fn one_is_large()
    ensures
        one() > 0x1_0000_0000_0000_0000,
{
    lemma2_to64();
    lemma_pow2_strictly_increases(64, 1074);
}

/// A common factor of the two sides of a fraction makes no difference.
pub proof fn common_factors_cancel(num: int, den: int, c: int)
    requires
        num >= 0,
        den > 0,
        c > 0,
    ensures
        nearest(num * c, den * c) == nearest(num, den),
{
    lemma_nearest_cancel(num, den, c);
    assert(num * c >= 0) by (nonlinear_arith)
        requires
            num >= 0,
            c > 0,
    ;
}

/// Rounding keeps the order.
pub proof fn rounding_keeps_the_order(a: int, b: int, den: int)
    requires
        a <= b,
        den > 0,
    ensures
        nearest(a, den) <= nearest(b, den),
{
    if a >= 0 {
        lemma_size_monotone(a, b, den);
    } else if b < 0 {
        lemma_size_monotone(-b, -a, den);
    } else {
        rounding_is_close(-a, den);
        rounding_is_close(b, den);
    }
}

/// Rounding a second time changes nothing.
pub proof fn rounding_is_idempotent(num: int, den: int)
    requires
        den > 0,
    ensures
        nearest(nearest(num, den), 1) == nearest(num, den),
{
    let size = if num < 0 {
        -num
    } else {
        num
    };
    let q = size / den;
    assert(q >= 0) by (nonlinear_arith)
        requires
            size >= 0,
            den > 0,
            q == size / den,
    ;
    let s = float_step(q as nat) as int;
    lemma_step_pos(q as nat);
    lemma_step_range(q as nat);
    let j = lemma_step_is_power(q as nat);
    assert(den * s > 0) by (nonlinear_arith)
        requires
            den > 0,
            s > 0,
    ;
    lemma_half_error(size, den * s);
    lemma_div_denominator(size, den, s);
    let h = half_to_even(size, den * s);
    assert(0 <= h <= 9_007_199_254_740_992);
    if h < 9_007_199_254_740_992 {
        lemma_exact(h, j);
    } else {
        lemma_pow2_unfold(j + 1);
        assert(h * s == 4_503_599_627_370_496 * pow2(j + 1)) by (nonlinear_arith)
            requires
                h == 9_007_199_254_740_992,
                pow2(j + 1) == 2 * s,
        ;
        lemma_exact(4_503_599_627_370_496, j + 1);
    }
    assert(h * s >= 0) by (nonlinear_arith)
        requires
            h >= 0,
            s >= 0,
    ;
}

/// Whole numbers of 53 digits are exact, and so are their halves.
pub proof fn small_numbers_are_exact(n: int)
    requires
        -9_007_199_254_740_992 < n < 9_007_199_254_740_992,
    ensures
        whole(n) == n * one(),
        nearest(n * one(), 1) == n * one(),
        nearest(n * pow2(1073), 1) == n * pow2(1073),
        one() == 2 * pow2(1073),
        one() > 0,
{
    lemma_pow2_unfold(1074);
    lemma_pow2_pos(1074);
    lemma_pow2_pos(1073);
    let (o, h) = (one(), pow2(1073) as int);
    if n >= 0 {
        lemma_exact(n, 1074);
        lemma_exact(n, 1073);
        assert(n * o >= 0 && n * h >= 0) by (nonlinear_arith)
            requires
                n >= 0,
                o > 0,
                h > 0,
        ;
    } else {
        lemma_exact(-n, 1074);
        lemma_exact(-n, 1073);
        assert((-n) * o == -(n * o) && (-n) * h == -(n * h) && n * o < 0 && n * h < 0)
            by (nonlinear_arith)
            requires
                n < 0,
                o > 0,
                h > 0,
        ;
    }
}

/// Working with a whole number that is exact takes one rounding.
pub proof fn working_with_whole_numbers(x: int, n: int)
    requires
        0 < n < 9_007_199_254_740_992,
    ensures
        quotient(x, whole(n)) == nearest(x, n),
        product(whole(n), x) == nearest(n * x, 1),
        product(whole(0), x) == 0,
        whole(n) > 0,
{
    small_numbers_are_exact(n);
    small_numbers_are_exact(0);
    let o = one();
    let size = if x < 0 {
        -x
    } else {
        x
    };
    lemma_nearest_cancel(size, n, o);
    assert(n * size >= 0 && n * o > 0) by (nonlinear_arith)
        requires
            n > 0,
            size >= 0,
            o > 0,
    ;
    lemma_nearest_cancel(n * size, 1, o);
    assert(x < 0 ==> x * o < 0 && -(x * o) == size * o && n * o * x < 0 && -(n * o * x) == n * size
        * o && n * x < 0 && -(n * x) == n * size) by (nonlinear_arith)
        requires
            x < 0 ==> size == -x,
            n > 0,
            o > 0,
    ;
    assert(x >= 0 ==> x * o >= 0 && n * o * x == n * size * o && n * x >= 0) by (nonlinear_arith)
        requires
            x >= 0 ==> size == x,
            n > 0,
            o > 0,
    ;
    assert(1 * o == o);
    lemma_nearest_cancel(0, 1, o);
    lemma_exact(0, 0);
    assert(0 * o == 0 && 0 * o * x == 0 && 0 * pow2(0) == 0) by (nonlinear_arith);
}

/// A fraction that lies half-way between two whole numbers is rounded to the even one.
pub proof fn halves_go_to_the_even_one(n: int, half: int)
    requires
        n >= 0,
        half > 0,
    ensures
        half_to_even((2 * n + 1) * half, 2 * half) % 2 == 0,
        half_to_even(n * half, half) == n,
{
    let num = (2 * n + 1) * half;
    assert(num == n * (2 * half) + half) by (nonlinear_arith)
        requires
            num == (2 * n + 1) * half,
    ;
    lemma_fundamental_div_mod_converse(num, 2 * half, n, half);
    assert(n * half == n * half + 0);
    lemma_fundamental_div_mod_converse(n * half, half, n, 0);
}

/// Numbers have 53 digits: of the steps between neighbours, each number has fewer than
/// 2^53, and, where the step is not the smallest, at least 2^52; and steps are doublings of
/// one another.
pub proof fn numbers_have_fifty_three_digits(n: nat)
    ensures
        (n as int / float_step(n) as int) < 0x20_0000_0000_0000,
        float_step(n) > 1 ==> n as int / float_step(n) as int >= 0x10_0000_0000_0000,
        exists|j: nat| float_step(n) == #[trigger] pow2(j),
{
    lemma_step_range(n);
    let j = lemma_step_is_power(n);
    assert(float_step(n) == pow2(j));
}

} // verus!
