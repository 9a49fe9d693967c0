//! Double precision numbers as bit patterns, with the few operations that the
//! partitioning rules need carried out in integers: conversion of counts,
//! quotients, products and comparisons, each rounded to the nearest
//! representable number with ties to even.

use vstd::prelude::*;
use vstd::arithmetic::power2::{
    lemma_pow2_adds, lemma_pow2_pos, lemma_pow2_strictly_increases, lemma_pow2_unfold, pow2,
};

verus! {

/// Two to the power 52: the smallest full significand.
pub const SIGNIFICAND_MIN: u64 = 0x10_0000_0000_0000;

/// Two to the power 53: one above the largest significand.
pub const SIGNIFICAND_END: u64 = 0x20_0000_0000_0000;

/// Two to the power 63: the sign bit.
pub const SIGN_BIT: u64 = 0x8000_0000_0000_0000;

/// Bound on the exponents that the operations accept.
pub const EXPONENT_LIMIT: i128 = 0x10_0000_0000_0000_0000_0000_0000;

/// The number `significand * 2^exponent`.
pub struct Scaled {
    pub significand: nat,
    pub exponent: int,
}

/// Zero, or a number with a full significand.
pub open spec fn normal(x: Scaled) -> bool {
    if x.significand == 0 {
        x.exponent == 0
    } else {
        SIGNIFICAND_MIN <= x.significand < SIGNIFICAND_END
    }
}

/// `2^e` for `e` above zero, else 1.
pub open spec fn up(e: int) -> nat {
    if e > 0 {
        pow2(e as nat)
    } else {
        1
    }
}

/// `num / den` is `x * 2^e` with `x` from `2^52` on and below `2^53`.
pub open spec fn in_binade(num: nat, den: nat, e: int) -> bool {
    &&& SIGNIFICAND_MIN * (den * up(e)) <= num * up(-e)
    &&& num * up(-e) < SIGNIFICAND_END * (den * up(e))
}

/// The integer nearest to `num / den`; of two, the even one.
pub open spec fn nearest_even(num: nat, den: nat) -> nat {
    let q = num / den;
    let r = num % den;
    if 2 * r < den || (2 * r == den && q % 2 == 0) {
        q
    } else {
        q + 1
    }
}

/// The rounding of `num / den` in the binade `e`.
pub open spec fn rounded_in(num: nat, den: nat, e: int) -> Scaled {
    let m = nearest_even(num * up(-e), den * up(e));
    if m == SIGNIFICAND_END {
        Scaled { significand: SIGNIFICAND_MIN as nat, exponent: e + 1 }
    } else {
        Scaled { significand: m, exponent: e }
    }
}

/// The number with 53 significant bits that is nearest to `num / den`.
pub open spec fn rounded(num: nat, den: nat) -> Scaled {
    if num == 0 {
        Scaled { significand: 0, exponent: 0 }
    } else {
        rounded_in(num, den, choose|e: int| in_binade(num, den, e))
    }
}

/// `x * 2^k`.
pub open spec fn shifted(x: Scaled, k: int) -> Scaled {
    if x.significand == 0 {
        x
    } else {
        Scaled { significand: x.significand, exponent: x.exponent + k }
    }
}

/// A count as a double.
pub open spec fn count_value(n: nat) -> Scaled {
    rounded(n, 1)
}

/// The rounded quotient.
pub open spec fn quotient(a: Scaled, b: Scaled) -> Scaled {
    shifted(rounded(a.significand, b.significand), a.exponent - b.exponent)
}

/// The rounded product.
pub open spec fn product(a: Scaled, b: Scaled) -> Scaled {
    shifted(rounded(a.significand * b.significand, 1), a.exponent + b.exponent)
}

/// `a < b`.
pub open spec fn scaled_less(a: Scaled, b: Scaled) -> bool {
    a.significand * up(a.exponent - b.exponent) < b.significand * up(b.exponent - a.exponent)
}

/// The mean of `count` numbers that add up to `sum`; zero without numbers.
pub open spec fn mean_value(sum: nat, count: nat) -> Scaled {
    if count == 0 {
        Scaled { significand: 0, exponent: 0 }
    } else {
        quotient(count_value(sum), count_value(count))
    }
}

/// The ratio of the largest of `count` numbers to their mean; zero where the
/// mean is zero.
pub open spec fn max_mean_ratio(max: nat, sum: nat, count: nat) -> Scaled {
    let mean = mean_value(sum, count);
    if mean.significand == 0 {
        Scaled { significand: 0, exponent: 0 }
    } else {
        quotient(count_value(max), mean)
    }
}

proof fn up_splits(e: int, f: int)
    requires
        e < f,
    ensures
        up(-e) * up(f) == pow2((f - e) as nat) * (up(e) * up(-f)),
{
    if e >= 0 {
        lemma_pow2_adds((f - e) as nat, e as nat);
        if e == 0 {
            vstd::arithmetic::power2::lemma2_to64();
        }
        assert(up(-e) * up(f) == up(f)) by (nonlinear_arith)
            requires
                up(-e) == 1,
        ;
        assert(up(e) * up(-f) == up(e)) by (nonlinear_arith)
            requires
                up(-f) == 1,
        ;
    } else if f <= 0 {
        lemma_pow2_adds((f - e) as nat, (-f) as nat);
        if f == 0 {
            vstd::arithmetic::power2::lemma2_to64();
        }
        assert(up(-e) * up(f) == up(-e)) by (nonlinear_arith)
            requires
                up(f) == 1,
        ;
        assert(up(e) * up(-f) == up(-f)) by (nonlinear_arith)
            requires
                up(e) == 1,
        ;
    } else {
        lemma_pow2_adds((-e) as nat, f as nat);
        assert(pow2((f - e) as nat) * (up(e) * up(-f)) == pow2((f - e) as nat)) by (nonlinear_arith)
            requires
                up(e) == 1,
                up(-f) == 1,
        ;
    }
}

proof fn up_pos(e: int)
    ensures
        up(e) > 0,
{
    if e > 0 {
        lemma_pow2_pos(e as nat);
    }
}

proof fn binades_ordered(num: nat, den: nat, e: int, f: int)
    requires
        den > 0,
        e < f,
        in_binade(num, den, e),
    ensures
        !in_binade(num, den, f),
{
    if in_binade(num, den, f) {
        binades_overlap(num, den, e, f);
    }
}

proof fn binades_overlap(num: nat, den: nat, e: int, f: int)
    requires
        den > 0,
        e < f,
        in_binade(num, den, e),
        in_binade(num, den, f),
    ensures
        num * up(-e) >= SIGNIFICAND_END * (den * up(e)),
{
    let a = up(-e);
    let b = up(e);
    let c = up(-f);
    let d = up(f);
    let g = pow2((f - e) as nat);
    up_splits(e, f);
    up_pos(e);
    up_pos(-e);
    up_pos(f);
    up_pos(-f);
    assert(g >= 2) by {
        vstd::arithmetic::power2::lemma2_to64();
        if f - e > 1 {
            lemma_pow2_strictly_increases(1, (f - e) as nat);
        }
    }
    let lo = SIGNIFICAND_MIN as nat;
    let hi = SIGNIFICAND_END as nat;
    assert(num * a < hi * (den * b));
    assert(lo * (den * d) <= num * c);
    assert((num * a) * c < (hi * (den * b)) * c) by (nonlinear_arith)
        requires
            num * a < hi * (den * b),
            c > 0,
    ;
    assert((lo * (den * d)) * a <= (num * c) * a) by (nonlinear_arith)
        requires
            lo * (den * d) <= num * c,
            a > 0,
    ;
    assert((num * a) * c == (num * c) * a) by (nonlinear_arith);
    assert((lo * (den * d)) * a == lo * den * (a * d)) by (nonlinear_arith);
    assert((hi * (den * b)) * c == hi * den * (b * c)) by (nonlinear_arith);
    assert(a * d == g * (b * c));
    assert(lo * den * (g * (b * c)) >= lo * den * (2 * (b * c))) by (nonlinear_arith)
        requires
            g >= 2,
            b > 0,
            c > 0,
            den > 0,
            lo > 0,
    ;
    assert(lo * den * (2 * (b * c)) == (2 * lo) * den * (b * c)) by (nonlinear_arith);
}

/// A number lies in one binade only, so its rounding there is its rounding.
proof fn rounded_at(num: nat, den: nat, e: int)
    requires
        num > 0,
        den > 0,
        in_binade(num, den, e),
    ensures
        rounded(num, den) == rounded_in(num, den, e),
{
    let f = choose|f: int| in_binade(num, den, f);
    if f < e {
        binades_ordered(num, den, f, e);
    } else if e < f {
        binades_ordered(num, den, e, f);
    }
}

/// A positive number held with 53 significant bits, or zero.
#[derive(Debug, Clone, Copy, PartialEq, Eq, Structural)]
pub struct Magnitude {
    pub significand: u64,
    pub exponent: i128,
}

impl View for Magnitude {
    type V = Scaled;

    open spec fn view(&self) -> Scaled {
        Scaled { significand: self.significand as nat, exponent: self.exponent as int }
    }
}

/// The exponent of `x` lies between `-k` and `k`.
pub open spec fn exponent_within(x: Scaled, k: int) -> bool {
    -k <= x.exponent <= k
}

fn nearest(num: u128, den: u128) -> (m: u128)
    requires
        den > 0,
        num / den < u128::MAX,
    ensures
        m == nearest_even(num as nat, den as nat),
{
    let q: u128 = num / den;
    let r: u128 = num % den;
    if r < den - r || (r == den - r && q % 2 == 0) {
        q
    } else {
        q + 1
    }
}

/// The rounding in a binade keeps a full significand.
proof fn rounded_in_normal(num: nat, den: nat, e: int)
    requires
        den > 0,
        in_binade(num, den, e),
    ensures
        normal(rounded_in(num, den, e)),
        rounded_in(num, den, e).significand > 0,
        e <= rounded_in(num, den, e).exponent <= e + 1,
        nearest_even(num * up(-e), den * up(e)) <= SIGNIFICAND_END,
        SIGNIFICAND_MIN <= (num * up(-e)) / (den * up(e)) < SIGNIFICAND_END,
{
    let n = num * up(-e);
    let d = den * up(e);
    up_pos(e);
    assert(d > 0) by (nonlinear_arith)
        requires
            den > 0,
            up(e) > 0,
            d == den * up(e),
    ;
    assert(SIGNIFICAND_MIN <= n / d < SIGNIFICAND_END) by (nonlinear_arith)
        requires
            d > 0,
            SIGNIFICAND_MIN * d <= n < SIGNIFICAND_END * d,
    ;
}

fn finish(m: u128, e: i128) -> (x: Magnitude)
    requires
        SIGNIFICAND_MIN <= m <= SIGNIFICAND_END,
        -4 * EXPONENT_LIMIT <= e <= 4 * EXPONENT_LIMIT,
    ensures
        x@ == (if m == SIGNIFICAND_END {
            Scaled { significand: SIGNIFICAND_MIN as nat, exponent: e + 1 }
        } else {
            Scaled { significand: m as nat, exponent: e as int }
        }),
{
    if m == SIGNIFICAND_END as u128 {
        Magnitude { significand: SIGNIFICAND_MIN, exponent: e + 1 }
    } else {
        Magnitude { significand: m as u64, exponent: e }
    }
}

/// Rounds an integer.
fn round_integer(n: u128) -> (x: Magnitude)
    requires
        n < 0x1_0000_0000_0000_0000_0000_0000_0000,
    ensures
        x@ == rounded(n as nat, 1),
        normal(x@),
        exponent_within(x@, 61),
        n > 0 ==> x.significand > 0,
{
    if n == 0 {
        return Magnitude { significand: 0, exponent: 0 };
    }
    if n < SIGNIFICAND_MIN as u128 {
        let mut m: u128 = n;
        let mut e: i128 = 0;
        while m < SIGNIFICAND_MIN as u128
            invariant
                0 < n < SIGNIFICAND_MIN,
                n <= m < SIGNIFICAND_END,
                -60 <= e <= 0,
                m == n * up(-e),
                e > -53,
                m >= up(-e),
            decreases SIGNIFICAND_END - m,
        {
            proof {
                assert(up(-(e - 1)) == 2 * up(-e)) by {
                    lemma_pow2_unfold((1 - e) as nat);
                    vstd::arithmetic::power2::lemma2_to64();
                }
                assert(n * (2 * up(-e)) == 2 * (n * up(-e))) by (nonlinear_arith);
                if e == -52 {
                    vstd::arithmetic::power2::lemma2_to64_rest();
                    assert(up(52) == SIGNIFICAND_MIN);
                }
            }
            m = m * 2;
            e = e - 1;
        }
        proof {
            assert(in_binade(n as nat, 1, e as int));
            rounded_at(n as nat, 1, e as int);
            assert(nearest_even(m as nat, 1) == m);
        }
        return finish(m, e);
    }
    let mut d: u128 = 1;
    let mut e: i128 = 0;
    proof {
        vstd::arithmetic::power2::lemma2_to64();
    }
    while n >= 0x20_0000_0000_0000u128 * d
        invariant
            0x10_0000_0000_0000 * d <= n,
            n < 0x1_0000_0000_0000_0000_0000_0000_0000,
            0 < d <= 0x1000_0000_0000_0000,
            d == up(e as int),
            0 <= e <= 60,
            d >= 1 + e,
            e <= 60 ==> d == pow2(e as nat),
        decreases n - d,
    {
        proof {
            vstd::arithmetic::power2::lemma2_to64();
            vstd::arithmetic::power2::lemma2_to64_rest();
            lemma_pow2_unfold((e + 1) as nat);
            if e >= 59 {
                assert(d >= 0x800_0000_0000_0000) by {
                    if e == 60 {
                        lemma_pow2_strictly_increases(59, 60);
                    }
                }
                assert(0x20_0000_0000_0000 * d >= 0x1_0000_0000_0000_0000_0000_0000_0000);
            }
            if e < 59 {
                lemma_pow2_strictly_increases(e as nat, 59);
            }
        }
        d = d * 2;
        e = e + 1;
    }
    proof {
        if e == 0 {
            vstd::arithmetic::power2::lemma2_to64();
        }
        assert(n * 1 == n);
        assert(up(-e) == 1);
        assert(in_binade(n as nat, 1, e as int));
        rounded_at(n as nat, 1, e as int);
        rounded_in_normal(n as nat, 1, e as int);
        assert((n as nat) * up(-e) == n);
        assert(1 * up(e as int) == d);
    }
    finish(nearest(n, d), e)
}

/// A count as a double.
pub fn from_count(n: u64) -> (x: Magnitude)
    ensures
        x@ == count_value(n as nat),
        normal(x@),
        exponent_within(x@, 61),
        n > 0 ==> x.significand > 0,
        n == 0 ==> x.significand == 0,
{
    round_integer(n as u128)
}

/// Divides.
pub fn divide(a: Magnitude, b: Magnitude) -> (x: Magnitude)
    requires
        normal(a@),
        normal(b@),
        b.significand > 0,
        exponent_within(a@, EXPONENT_LIMIT as int),
        exponent_within(b@, EXPONENT_LIMIT as int),
    ensures
        x@ == quotient(a@, b@),
        normal(x@),
        a.significand > 0 ==> x.significand > 0 && a.exponent - b.exponent - 53 <= x.exponent
            <= a.exponent - b.exponent - 51,
        a.significand == 0 ==> x.significand == 0,
{
    if a.significand == 0 {
        return Magnitude { significand: 0, exponent: 0 };
    }
    let shift: i128 = if a.significand >= b.significand { 52 } else { 53 };
    let factor: u128 = if a.significand >= b.significand { SIGNIFICAND_MIN as u128 } else { SIGNIFICAND_END as u128 };
    let x: u128 = a.significand as u128;
    let d: u128 = b.significand as u128;
    proof {
        assert(x * factor < 0x1_0000_0000_0000_0000_0000_0000_0000) by (nonlinear_arith)
            requires
                x < 0x20_0000_0000_0000,
                factor <= 0x20_0000_0000_0000,
        ;
    }
    let n: u128 = x * factor;
    proof {
        vstd::arithmetic::power2::lemma2_to64_rest();
        let e = -shift as int;
        assert(up(-e) == factor);
        assert(up(e) == 1);
        assert((b.significand as nat) * up(e) == d);
        assert((a.significand as nat) * up(-e) == n);
        assert(in_binade(a.significand as nat, b.significand as nat, e)) by {
            assert(0x10_0000_0000_0000 * d <= x * factor < 0x20_0000_0000_0000 * d) by (nonlinear_arith)
                requires
                    0x10_0000_0000_0000 <= x < 0x20_0000_0000_0000,
                    0x10_0000_0000_0000 <= d < 0x20_0000_0000_0000,
                    factor == (if x >= d {
                        0x10_0000_0000_0000u128
                    } else {
                        0x20_0000_0000_0000u128
                    }),
            ;
        }
        rounded_at(a.significand as nat, b.significand as nat, e);
        rounded_in_normal(a.significand as nat, b.significand as nat, e);
    }
    let m: u128 = nearest(n, d);
    let e: i128 = a.exponent - b.exponent - shift;
    finish(m, e)
}

/// Multiplies.
pub fn multiply(a: Magnitude, b: Magnitude) -> (x: Magnitude)
    requires
        normal(a@),
        normal(b@),
        exponent_within(a@, EXPONENT_LIMIT as int),
        exponent_within(b@, EXPONENT_LIMIT as int),
    ensures
        x@ == product(a@, b@),
        normal(x@),
        -61 + a.exponent + b.exponent <= x.exponent <= 61 + a.exponent + b.exponent || x.significand == 0,
{
    if a.significand == 0 || b.significand == 0 {
        proof {
            assert(a.significand * b.significand == 0) by (nonlinear_arith)
                requires
                    a.significand == 0 || b.significand == 0,
            ;
        }
        return Magnitude { significand: 0, exponent: 0 };
    }
    let x: u64 = a.significand;
    let y: u64 = b.significand;
    proof {
        assert(0 < x * y < 0x1_0000_0000_0000_0000_0000_0000_0000) by (nonlinear_arith)
            requires
                0 < x < 0x20_0000_0000_0000,
                0 < y < 0x20_0000_0000_0000,
        ;
    }
    let r = round_integer(x as u128 * y as u128);
    Magnitude { significand: r.significand, exponent: r.exponent + a.exponent + b.exponent }
}

/// Compares two numbers.
pub fn less(a: Magnitude, b: Magnitude) -> (result: bool)
    requires
        normal(a@),
        normal(b@),
        exponent_within(a@, 3 * EXPONENT_LIMIT as int),
        exponent_within(b@, 3 * EXPONENT_LIMIT as int),
    ensures
        result == scaled_less(a@, b@),
{
    let ghost u = up(a.exponent - b.exponent);
    let ghost v = up(b.exponent - a.exponent);
    let ghost x = a.significand as nat;
    let ghost y = b.significand as nat;
    proof {
        up_pos(a.exponent - b.exponent);
        up_pos(b.exponent - a.exponent);
        assert(x == 0 ==> x * u == 0) by (nonlinear_arith);
        assert(y == 0 ==> y * v == 0) by (nonlinear_arith);
        assert(y > 0 ==> y * v > 0) by (nonlinear_arith)
            requires
                v > 0,
        ;
        assert(x * u >= 0);
    }
    if a.significand == 0 {
        return b.significand > 0;
    }
    if b.significand == 0 {
        return false;
    }
    if a.exponent < b.exponent {
        proof {
            at_least_double(b.exponent - a.exponent);
            assert(y * v >= y * 2) by (nonlinear_arith)
                requires
                    v >= 2,
            ;
        }
        true
    } else if a.exponent > b.exponent {
        proof {
            at_least_double(a.exponent - b.exponent);
            assert(x * u >= x * 2) by (nonlinear_arith)
                requires
                    u >= 2,
            ;
        }
        false
    } else {
        a.significand < b.significand
    }
}

proof fn at_least_double(e: int)
    requires
        e > 0,
    ensures
        up(e) >= 2,
{
    vstd::arithmetic::power2::lemma2_to64();
    if e > 1 {
        lemma_pow2_strictly_increases(1, e as nat);
    }
}

/// The rounded sum.
pub open spec fn sum_value(a: Scaled, b: Scaled) -> Scaled {
    if a.significand == 0 {
        b
    } else if b.significand == 0 {
        a
    } else {
        shifted(
            rounded(
                a.significand * up(a.exponent - b.exponent) + b.significand * up(
                    b.exponent - a.exponent,
                ),
                1,
            ),
            if a.exponent < b.exponent {
                a.exponent
            } else {
                b.exponent
            },
        )
    }
}

/// The rounded distance between two numbers.
pub open spec fn distance_value(a: Scaled, b: Scaled) -> Scaled {
    if a.significand == 0 {
        b
    } else if b.significand == 0 {
        a
    } else {
        let x = (a.significand * up(a.exponent - b.exponent)) as int;
        let y = (b.significand * up(b.exponent - a.exponent)) as int;
        shifted(
            rounded(
                if x < y {
                    (y - x) as nat
                } else {
                    (x - y) as nat
                },
                1,
            ),
            if a.exponent < b.exponent {
                a.exponent
            } else {
                b.exponent
            },
        )
    }
}

/// The integer nearest to the square root of `n`.
pub open spec fn nearest_root(n: nat, r: nat) -> bool {
    r > 0 && (2 * r - 1) * (2 * r - 1) < 4 * n < (2 * r + 1) * (2 * r + 1)
}

/// The rounded square root: `x` is brought to `n * 4^k` with `n` between
/// `2^104` and `2^106`, and the root of `n` is rounded.
pub open spec fn is_root(x: Scaled, root: Scaled) -> bool {
    if x.significand == 0 {
        root == x
    } else if x.exponent % 2 == 0 {
        nearest_root(x.significand * SIGNIFICAND_MIN as nat, root.significand) && root.exponent == (
        x.exponent - 52) / 2
    } else {
        nearest_root(x.significand * SIGNIFICAND_END as nat, root.significand) && root.exponent == (
        x.exponent - 53) / 2
    }
}

/// The rounded square root.
pub open spec fn root_value(x: Scaled) -> Scaled {
    choose|root: Scaled| is_root(x, root)
}

proof fn nearest_root_unique(n: nat, r: nat, q: nat)
    requires
        nearest_root(n, r),
        nearest_root(n, q),
    ensures
        r == q,
{
    if r < q {
        assert((2 * r + 1) * (2 * r + 1) <= (2 * q - 1) * (2 * q - 1)) by (nonlinear_arith)
            requires
                r + 1 <= q,
        ;
    } else if q < r {
        assert((2 * q + 1) * (2 * q + 1) <= (2 * r - 1) * (2 * r - 1)) by (nonlinear_arith)
            requires
                q + 1 <= r,
        ;
    }
}

/// A number has one rounded square root.
proof fn root_value_is(x: Scaled, root: Scaled)
    requires
        is_root(x, root),
    ensures
        root_value(x) == root,
{
    let other = root_value(x);
    if x.significand > 0 {
        if x.exponent % 2 == 0 {
            nearest_root_unique(
                x.significand * SIGNIFICAND_MIN as nat,
                root.significand,
                other.significand,
            );
        } else {
            nearest_root_unique(
                x.significand * SIGNIFICAND_END as nat,
                root.significand,
                other.significand,
            );
        }
    }
}

/// Far below the last place of `a`, `b` does not change it.
proof fn far_sum(a: nat, b: nat, d: int)
    requires
        SIGNIFICAND_MIN <= a < SIGNIFICAND_END,
        0 < b < SIGNIFICAND_END,
        d > 58,
    ensures
        rounded(a * up(d) + b, 1) == (Scaled { significand: a, exponent: d }),
{
    let p = up(d);
    far_power(d);
    let n = a * p + b;
    assert(up(-d) == 1);
    assert(n * up(-d) == n);
    assert(1 * p == p);
    assert(SIGNIFICAND_MIN * p <= n < SIGNIFICAND_END * p && n / p == a && n % p == b) by (nonlinear_arith)
        requires
            n == a * p + b,
            b < p,
            SIGNIFICAND_MIN <= a,
            a + 1 <= SIGNIFICAND_END,
            p > 0,
    ;
    rounded_at(n, 1, d);
}

proof fn far_power(d: int)
    requires
        d > 58,
    ensures
        up(d) > 2 * SIGNIFICAND_END,
        up(d) == 2 * up(d - 1),
        up(d - 1) > 2 * SIGNIFICAND_END,
{
    vstd::arithmetic::power2::lemma2_to64_rest();
    lemma_pow2_unfold(d as nat);
    if d - 1 > 58 {
        lemma_pow2_strictly_increases(58, (d - 1) as nat);
    }
}

/// Far below the last place of `a`, taking `b` away does not change it.
proof fn far_distance(a: nat, b: nat, d: int)
    requires
        SIGNIFICAND_MIN <= a < SIGNIFICAND_END,
        0 < b < SIGNIFICAND_END,
        d > 58,
    ensures
        a * up(d) > b,
        rounded((a * up(d) - b) as nat, 1) == (Scaled { significand: a, exponent: d }),
{
    let p = up(d);
    far_power(d);
    assert(a * p > b) by (nonlinear_arith)
        requires
            a >= 1,
            p > b,
    ;
    let n = (a * p - b) as nat;
    assert(up(-d) == 1);
    assert(up(1 - d) == 1);
    assert(n * 1 == n);
    assert(1 * p == p);
    if a > SIGNIFICAND_MIN {
        assert(SIGNIFICAND_MIN * p <= n < SIGNIFICAND_END * p && n / p == a - 1 && n % p == p - b) by (nonlinear_arith)
            requires
                n == a * p - b,
                0 < b < p,
                SIGNIFICAND_MIN + 1 <= a,
                a <= SIGNIFICAND_END,
        ;
        rounded_at(n, 1, d);
    } else {
        let h = up(d - 1);
        assert(1 * h == h);
        assert(SIGNIFICAND_MIN * h <= n < SIGNIFICAND_END * h && n / h == SIGNIFICAND_END - 1 && n % h == h - b) by (nonlinear_arith)
            requires
                n == a * p - b,
                p == 2 * h,
                a == SIGNIFICAND_MIN,
                SIGNIFICAND_END == 2 * SIGNIFICAND_MIN,
                SIGNIFICAND_MIN > 1,
                0 < b < h,
        ;
        assert(-(d - 1) == 1 - d);
        rounded_at(n, 1, d - 1);
    }
}

/// `2^d` for a small `d`.
fn small_power(d: i128) -> (p: u128)
    requires
        0 <= d <= 58,
    ensures
        p == up(d as int),
        0 < p <= 0x400_0000_0000_0000,
{
    let mut p: u128 = 1;
    let mut i: i128 = 0;
    proof {
        vstd::arithmetic::power2::lemma2_to64_rest();
        vstd::arithmetic::power2::lemma2_to64();
    }
    while i < d
        invariant
            0 <= i <= d <= 58,
            p == pow2(i as nat),
            0 < p <= 0x400_0000_0000_0000,
            pow2(58) == 0x400_0000_0000_0000,
        decreases d - i,
    {
        proof {
            lemma_pow2_unfold((i + 1) as nat);
            if i + 1 < 58 {
                lemma_pow2_strictly_increases((i + 1) as nat, 58);
            }
        }
        p = p * 2;
        i = i + 1;
    }
    p
}

/// Adds.
pub fn sum(a: Magnitude, b: Magnitude) -> (x: Magnitude)
    requires
        normal(a@),
        normal(b@),
        exponent_within(a@, EXPONENT_LIMIT as int),
        exponent_within(b@, EXPONENT_LIMIT as int),
    ensures
        x@ == sum_value(a@, b@),
        normal(x@),
        x.significand == 0 ==> a.significand == 0 && b.significand == 0,
        x.exponent <= a.exponent + 1 || x.exponent <= b.exponent + 1,
        x.exponent >= a.exponent || x.exponent >= b.exponent,
{
    if a.significand == 0 {
        return b;
    }
    if b.significand == 0 {
        return a;
    }
    let (high, low) = if a.exponent >= b.exponent { (a, b) } else { (b, a) };
    let d: i128 = high.exponent - low.exponent;
    let ghost n = (high.significand as nat) * up(d as int) + low.significand as nat;
    proof {
        assert(up(-d) == 1);
        assert((low.significand as nat) * 1 == low.significand);
        assert(n == a.significand * up(a.exponent - b.exponent) + b.significand * up(
            b.exponent - a.exponent,
        ));
    }
    if d > 58 {
        proof {
            far_sum(high.significand as nat, low.significand as nat, d as int);
        }
        return high;
    }
    let p = small_power(d);
    let h: u128 = high.significand as u128;
    proof {
        assert(h * p < 0x8000_0000_0000_0000_0000_0000_0000) by (nonlinear_arith)
            requires
                h < 0x20_0000_0000_0000,
                p <= 0x400_0000_0000_0000,
        ;
        sum_binade(h as nat, low.significand as nat, p as nat, d as int);
    }
    let r = round_integer(h * p + low.significand as u128);
    Magnitude { significand: r.significand, exponent: r.exponent + low.exponent }
}

/// A sum lies in the binade of the larger number or in the next.
proof fn sum_binade(h: nat, l: nat, p: nat, d: int)
    requires
        SIGNIFICAND_MIN <= h < SIGNIFICAND_END,
        SIGNIFICAND_MIN <= l < SIGNIFICAND_END,
        p == up(d),
        0 <= d <= 58,
    ensures
        rounded(h * p + l, 1).significand > 0,
        d <= rounded(h * p + l, 1).exponent <= d + 1,
{
    let n = h * p + l;
    up_pos(d);
    assert(up(-d) == 1);
    assert(up(-(d + 1)) == 1);
    assert(up(d + 1) == 2 * p) by {
        vstd::arithmetic::power2::lemma2_to64();
        lemma_pow2_unfold((d + 1) as nat);
    }
    assert(n * 1 == n);
    assert(1 * p == p);
    assert(1 * (2 * p) == 2 * p);
    assert(SIGNIFICAND_MIN * p <= n) by (nonlinear_arith)
        requires
            n == h * p + l,
            SIGNIFICAND_MIN <= h,
    ;
    assert(n < SIGNIFICAND_END * (2 * p)) by (nonlinear_arith)
        requires
            n == h * p + l,
            h < SIGNIFICAND_END,
            l < SIGNIFICAND_END,
            p >= 1,
    ;
    if n < SIGNIFICAND_END * p {
        rounded_at(n, 1, d);
        rounded_in_normal(n, 1, d);
    } else {
        assert(SIGNIFICAND_MIN * (2 * p) <= n) by (nonlinear_arith)
            requires
                SIGNIFICAND_END * p <= n,
                SIGNIFICAND_END == 2 * SIGNIFICAND_MIN,
        ;
        rounded_at(n, 1, d + 1);
        rounded_in_normal(n, 1, d + 1);
        if d == 0 {
            assert(n < 2 * SIGNIFICAND_END);
        }
        sum_no_carry(h, l, p);
    }
}

proof fn sum_no_carry(h: nat, l: nat, p: nat)
    requires
        h < SIGNIFICAND_END,
        l < SIGNIFICAND_END,
        p >= 1,
    ensures
        nearest_even(h * p + l, 2 * p) < SIGNIFICAND_END,
{
    let n = h * p + l;
    let q = n / (2 * p);
    assert(n <= (SIGNIFICAND_END - 1) * (2 * p)) by (nonlinear_arith)
        requires
            n == h * p + l,
            h <= SIGNIFICAND_END - 1,
            l <= SIGNIFICAND_END - 1,
            p >= 1,
    ;
    assert(q < SIGNIFICAND_END - 1 || (q == SIGNIFICAND_END - 1 && n % (2 * p) == 0)) by (nonlinear_arith)
        requires
            q == n / (2 * p),
            n <= (SIGNIFICAND_END - 1) * (2 * p),
            p >= 1,
    ;
}

/// The distance between two numbers.
pub fn distance(a: Magnitude, b: Magnitude) -> (x: Magnitude)
    requires
        normal(a@),
        normal(b@),
        exponent_within(a@, EXPONENT_LIMIT as int),
        exponent_within(b@, EXPONENT_LIMIT as int),
    ensures
        x@ == distance_value(a@, b@),
        normal(x@),
        x.exponent <= 61 + a.exponent || x.exponent <= 61 + b.exponent || x.exponent == 0,
        x.exponent >= a.exponent - 61 || x.exponent >= b.exponent - 61 || x.exponent == 0,
{
    if a.significand == 0 {
        return b;
    }
    if b.significand == 0 {
        return a;
    }
    let (high, low) = if a.exponent > b.exponent || (a.exponent == b.exponent && a.significand
        >= b.significand) {
        (a, b)
    } else {
        (b, a)
    };
    let d: i128 = high.exponent - low.exponent;
    let ghost top = (high.significand as nat) * up(d as int);
    proof {
        up_pos(d as int);
        assert(up(-d) == 1);
        assert((low.significand as nat) * 1 == low.significand);
        if d > 0 {
            at_least_double(d as int);
            assert(top >= 2 * high.significand) by (nonlinear_arith)
                requires
                    top == (high.significand as nat) * up(d as int),
                    up(d as int) >= 2,
            ;
        } else {
            assert((high.significand as nat) * 1 == high.significand);
        }
        assert(top >= low.significand);
        assert(distance_value(a@, b@) == shifted(
            rounded((top - low.significand) as nat, 1),
            low.exponent as int,
        ));
    }
    if d > 58 {
        proof {
            far_distance(high.significand as nat, low.significand as nat, d as int);
        }
        return high;
    }
    let p = small_power(d);
    let h: u128 = high.significand as u128;
    proof {
        assert(h * p < 0x8000_0000_0000_0000_0000_0000_0000) by (nonlinear_arith)
            requires
                h < 0x20_0000_0000_0000,
                p <= 0x400_0000_0000_0000,
        ;
    }
    let r = round_integer(h * p - low.significand as u128);
    if r.significand == 0 {
        r
    } else {
        Magnitude { significand: r.significand, exponent: r.exponent + low.exponent }
    }
}

/// The integer nearest to the square root of a number with 105 or 106 bits.
fn integer_root(n: u128) -> (r: u64)
    requires
        0x100_0000_0000_0000_0000_0000_0000 <= n,
        n <= 0x3FF_FFFF_FFFF_FFE0_0000_0000_0000,
    ensures
        nearest_root(n as nat, r as nat),
        SIGNIFICAND_MIN <= r < SIGNIFICAND_END,
{
    let mut low: u64 = SIGNIFICAND_MIN;
    let mut high: u64 = SIGNIFICAND_END;
    assert(0x10_0000_0000_0000 * 0x10_0000_0000_0000 == 0x100_0000_0000_0000_0000_0000_0000int) by (nonlinear_arith);
    assert(0x20_0000_0000_0000 * 0x20_0000_0000_0000 == 0x400_0000_0000_0000_0000_0000_0000int) by (nonlinear_arith);
    while high - low > 1
        invariant
            0x10_0000_0000_0000 <= low < high <= 0x20_0000_0000_0000,
            low * low <= n < high * high,
        decreases high - low,
    {
        let middle: u64 = low + (high - low) / 2;
        assert(middle * middle <= 0x400_0000_0000_0000_0000_0000_0000int) by (nonlinear_arith)
            requires
                middle <= 0x20_0000_0000_0000,
        ;
        if middle as u128 * middle as u128 <= n {
            low = middle;
        } else {
            high = middle;
        }
    }
    assert(low * low <= n < (low + 1) * (low + 1));
    let square: u128 = low as u128 * low as u128;
    assert((low + 1) * (low + 1) == square + 2 * low + 1) by (nonlinear_arith)
        requires
            square == low * low,
    ;
    assert((2 * low + 1) * (2 * low + 1) == 4 * square + 4 * low + 1) by (nonlinear_arith)
        requires
            square == low * low,
    ;
    assert((2 * low - 1) * (2 * low - 1) == 4 * square - 4 * low + 1) by (nonlinear_arith)
        requires
            square == low * low,
    ;
    assert((2 * (low + 1) + 1) * (2 * (low + 1) + 1) == 4 * square + 12 * low + 9) by (nonlinear_arith)
        requires
            square == low * low,
    ;
    if n - square <= low as u128 {
        low
    } else {
        proof {
            if low == 0x1F_FFFF_FFFF_FFFF {
                assert(square == 0x3FF_FFFF_FFFF_FFC0_0000_0000_0001) by (nonlinear_arith)
                    requires
                        square == low * low,
                        low == 0x1F_FFFF_FFFF_FFFF,
                ;
            }
        }
        low + 1
    }
}

/// The square root.
pub fn square_root(x: Magnitude) -> (root: Magnitude)
    requires
        normal(x@),
        exponent_within(x@, EXPONENT_LIMIT as int),
    ensures
        root@ == root_value(x@),
        normal(root@),
        x.significand > 0 ==> (x.exponent - 53) / 2 <= root.exponent <= (x.exponent - 52) / 2,
        x.significand == 0 <==> root.significand == 0,
{
    if x.significand == 0 {
        proof {
            root_value_is(x@, x@);
        }
        return x;
    }
    let s: u128 = x.significand as u128;
    if x.exponent % 2 == 0 {
        assert(0x100_0000_0000_0000_0000_0000_0000 <= s * 0x10_0000_0000_0000
            <= 0x3FF_FFFF_FFFF_FFE0_0000_0000_0000);
        let r: u64 = integer_root(s * 0x10_0000_0000_0000);
        let root = Magnitude { significand: r, exponent: half(x.exponent - 52) };
        proof {
            root_value_is(x@, root@);
        }
        root
    } else {
        let r: u64 = integer_root(s * 0x20_0000_0000_0000);
        let root = Magnitude { significand: r, exponent: half(x.exponent - 53) };
        proof {
            root_value_is(x@, root@);
        }
        root
    }
}

/// Half of an even number.
fn half(n: i128) -> (h: i128)
    requires
        n % 2 == 0,
    ensures
        h == n as int / 2,
        2 * h == n,
{
    n / 2
}

/// The mean of `count` numbers that add up to `sum`.
pub fn mean(sum: u64, count: u64) -> (x: Magnitude)
    ensures
        x@ == mean_value(sum as nat, count as nat),
        normal(x@),
        exponent_within(x@, 200),
        x.significand == 0 <==> count == 0 || sum == 0,
{
    if count == 0 {
        Magnitude { significand: 0, exponent: 0 }
    } else {
        divide(from_count(sum), from_count(count))
    }
}

/// The ratio of the largest number to the mean.
pub fn imbalance(max: u64, sum: u64, count: u64) -> (x: Magnitude)
    ensures
        x@ == max_mean_ratio(max as nat, sum as nat, count as nat),
        normal(x@),
        exponent_within(x@, 400),
{
    let m = mean(sum, count);
    if m.significand == 0 {
        Magnitude { significand: 0, exponent: 0 }
    } else {
        divide(from_count(max), m)
    }
}

/// A double precision number, held as its bit pattern.
#[derive(Debug, Clone, Copy, PartialEq, Eq, Structural)]
pub struct Binary64 {
    pub bits: u64,
}

impl Binary64 {
    /// The sign bit is set.
    pub open spec fn negative(self) -> bool {
        self.bits >= SIGN_BIT
    }

    /// The exponent field.
    pub open spec fn exponent_field(self) -> int {
        (self.bits / SIGNIFICAND_MIN) as int % 2048
    }

    /// The fraction field.
    pub open spec fn fraction(self) -> nat {
        (self.bits % SIGNIFICAND_MIN) as nat
    }

    /// Neither infinite nor no number.
    pub open spec fn finite(self) -> bool {
        self.exponent_field() != 2047
    }

    /// No number.
    pub open spec fn nan(self) -> bool {
        !self.finite() && self.fraction() != 0
    }

    /// The significand of a finite number, with the bit that is not stored.
    pub open spec fn significand(self) -> nat {
        if self.exponent_field() == 0 {
            self.fraction()
        } else {
            self.fraction() + SIGNIFICAND_MIN as nat
        }
    }

    /// The distance of a finite number from zero.
    pub open spec fn magnitude(self) -> Scaled {
        shifted(
            rounded(self.significand(), 1),
            if self.exponent_field() == 0 {
                -1074
            } else {
                self.exponent_field() - 1075
            },
        )
    }

    /// Finite and above zero.
    pub open spec fn positive(self) -> bool {
        self.finite() && !self.negative() && self.significand() > 0
    }

    /// The number with a bit pattern.
    pub fn from_bits(bits: u64) -> (x: Binary64)
        ensures
            x.bits == bits,
    {
        Binary64 { bits }
    }

    /// The bit pattern.
    pub fn to_bits(self) -> (bits: u64)
        ensures
            bits == self.bits,
    {
        self.bits
    }

    /// Whether the number is finite.
    pub fn is_finite(self) -> (result: bool)
        ensures
            result == self.finite(),
    {
        (self.bits / SIGNIFICAND_MIN) % 2048 != 2047
    }

    fn is_nan(self) -> (result: bool)
        ensures
            result == self.nan(),
    {
        !self.is_finite() && self.bits % SIGNIFICAND_MIN != 0
    }

    fn is_zero(self) -> (result: bool)
        ensures
            result == (self.significand() == 0),
    {
        self.bits % SIGNIFICAND_MIN == 0 && (self.bits / SIGNIFICAND_MIN) % 2048 == 0
    }

    /// Whether the number is finite and above zero.
    pub fn is_positive(self) -> (result: bool)
        ensures
            result == self.positive(),
    {
        self.is_finite() && self.bits < SIGN_BIT && !self.is_zero()
    }

    fn distance(self) -> (x: Magnitude)
        requires
            self.finite(),
        ensures
            x@ == self.magnitude(),
            normal(x@),
            exponent_within(x@, 2_000),
    {
        let field: u64 = (self.bits / SIGNIFICAND_MIN) % 2048;
        let fraction: u64 = self.bits % SIGNIFICAND_MIN;
        if field == 0 {
            let r = from_count(fraction);
            if r.significand == 0 {
                r
            } else {
                Magnitude { significand: r.significand, exponent: r.exponent - 1074 }
            }
        } else {
            let r = from_count(fraction + SIGNIFICAND_MIN);
            Magnitude { significand: r.significand, exponent: r.exponent + (field as i128 - 1075) }
        }
    }
}

/// Bit pattern of positive infinity.
pub const INFINITY_BITS: u64 = 0x7FF0_0000_0000_0000;

/// The bit pattern of a number that is not too small; one that is too large is
/// infinite.
pub open spec fn encoded(x: Scaled) -> int {
    if x.significand == 0 {
        0
    } else if x.exponent > 971 {
        INFINITY_BITS as int
    } else {
        (x.exponent + 1075) * SIGNIFICAND_MIN + (x.significand - SIGNIFICAND_MIN)
    }
}

/// Packs a number that is not too small.
pub fn pack(x: Magnitude) -> (packed: Binary64)
    requires
        normal(x@),
        x.exponent >= -1074,
    ensures
        packed.bits == encoded(x@),
        !packed.negative(),
{
    if x.significand == 0 {
        return Binary64 { bits: 0 };
    }
    if x.exponent > 971 {
        return Binary64 { bits: INFINITY_BITS };
    }
    let field: u64 = (x.exponent + 1075) as u64;
    let rest: u64 = x.significand - SIGNIFICAND_MIN;
    let bits: u64 = field * SIGNIFICAND_MIN + rest;
    proof {
        assert(bits / SIGNIFICAND_MIN == field && bits % SIGNIFICAND_MIN == rest) by (nonlinear_arith)
            requires
                bits == field * 0x10_0000_0000_0000 + rest,
                rest < 0x10_0000_0000_0000,
                SIGNIFICAND_MIN == 0x10_0000_0000_0000,
        ;
    }
    Binary64 { bits }
}

/// The largest product that a double cannot tell from zero: `2^-1075`.
pub open spec fn vanishing() -> Scaled {
    Scaled { significand: 1, exponent: -1075 }
}

/// The product before it is rounded.
pub open spec fn exact_product(a: Scaled, b: Scaled) -> Scaled {
    Scaled { significand: a.significand * b.significand, exponent: a.exponent + b.exponent }
}

/// `n > factor * base` in double precision, where `base` is a mean of counts.
pub open spec fn count_exceeds(n: nat, factor: Binary64, base: Scaled) -> bool {
    if factor.nan() {
        false
    } else if !factor.finite() {
        factor.negative() && base.significand > 0
    } else if base.significand == 0 || factor.significand() == 0 {
        n > 0
    } else if factor.negative() {
        n > 0 || scaled_less(vanishing(), exact_product(factor.magnitude(), base))
    } else {
        scaled_less(product(factor.magnitude(), base), count_value(n))
    }
}

/// Place of a number that is not no number among the others: zero for both
/// zeros, and larger for a larger number.
pub open spec fn order_key(x: Binary64) -> int {
    if x.negative() {
        SIGN_BIT - x.bits
    } else {
        x.bits as int
    }
}

/// `a > b` in double precision.
pub open spec fn value_exceeds(a: Binary64, b: Binary64) -> bool {
    !a.nan() && !b.nan() && order_key(a) > order_key(b)
}

/// Whether a double can tell a product from zero.
fn leaves_trace(a: Magnitude, b: Magnitude) -> (result: bool)
    requires
        normal(a@),
        normal(b@),
        a.significand > 0,
        b.significand > 0,
        exponent_within(a@, 2_000),
        exponent_within(b@, 200),
    ensures
        result == scaled_less(vanishing(), exact_product(a@, b@)),
{
    let x: u64 = a.significand;
    let y: u64 = b.significand;
    let d: i128 = -1075 - (a.exponent + b.exponent);
    let ghost least: nat = 0x100_0000_0000_0000_0000_0000_0000;
    proof {
        assert(least <= x * y < 4 * least) by (nonlinear_arith)
            requires
                0x10_0000_0000_0000 <= x < 0x20_0000_0000_0000,
                0x10_0000_0000_0000 <= y < 0x20_0000_0000_0000,
                least == 0x100_0000_0000_0000_0000_0000_0000,
        ;
        vstd::arithmetic::power2::lemma2_to64();
        vstd::arithmetic::power2::lemma2_to64_rest();
        lemma_pow2_adds(52, 52);
        lemma_pow2_unfold(105);
        lemma_pow2_unfold(106);
        assert(pow2(104) == least);
        up_pos(-d);
        assert((x * y) * up(-d) >= x * y) by (nonlinear_arith)
            requires
                up(-d) >= 1,
        ;
        if 0 < d < 104 {
            lemma_pow2_strictly_increases(d as nat, 104);
        }
        if d > 106 {
            lemma_pow2_strictly_increases(106, d as nat);
        }
    }
    let p: u128 = x as u128 * y as u128;
    if d < 104 {
        true
    } else if d == 104 {
        p > 0x100_0000_0000_0000_0000_0000_0000
    } else if d == 105 {
        p > 0x200_0000_0000_0000_0000_0000_0000
    } else {
        false
    }
}

/// Whether a count is above a multiple of a mean.
pub fn exceeds_multiple(n: u64, factor: Binary64, base: Magnitude) -> (result: bool)
    requires
        normal(base@),
        exponent_within(base@, 200),
    ensures
        result == count_exceeds(n as nat, factor, base@),
{
    if factor.is_nan() {
        false
    } else if !factor.is_finite() {
        factor.bits >= SIGN_BIT && base.significand > 0
    } else if base.significand == 0 || factor.is_zero() {
        n > 0
    } else if factor.bits >= SIGN_BIT {
        n > 0 || leaves_trace(factor.distance(), base)
    } else {
        less(multiply(factor.distance(), base), from_count(n))
    }
}

/// Whether a number is above another.
pub fn greater(a: Binary64, b: Binary64) -> (result: bool)
    ensures
        result == value_exceeds(a, b),
{
    if a.is_nan() || b.is_nan() {
        return false;
    }
    let a_negative = a.bits >= SIGN_BIT;
    let b_negative = b.bits >= SIGN_BIT;
    if a_negative && b_negative {
        a.bits < b.bits
    } else if a_negative {
        false
    } else if b_negative {
        a.bits > 0 || b.bits > SIGN_BIT
    } else {
        a.bits > b.bits
    }
}

} // verus!
