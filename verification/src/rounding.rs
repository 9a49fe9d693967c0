//! How far rounded numbers are from what they stand for, and that rounding keeps order.

use vstd::prelude::*;
use vstd::arithmetic::power2::{lemma_pow2_adds, lemma_pow2_pos, lemma_pow2_unfold, pow2};
use crate::binary64::{
    count_exceeds, count_value, encoded, in_binade, max_mean_ratio, mean_value, nearest_even,
    normal, product, quotient, rounded, scaled_less, up, value_exceeds, Binary64, Scaled,
    SIGNIFICAND_END, SIGNIFICAND_MIN,
};

verus! {

/// `2^e`.
pub open spec fn power(e: int) -> real {
    if e >= 0 {
        pow2(e as nat) as real
    } else {
        (1 as real) / (pow2((-e) as nat) as real)
    }
}

/// The number that a significand and an exponent stand for.
pub open spec fn value(x: Scaled) -> real {
    (x.significand as real) * power(x.exponent)
}

proof fn doubled(a: nat, b: nat)
    requires
        a == 2 * b,
    ensures
        a as real == (2 as real) * (b as real),
{
}

proof fn power_step(e: int)
    ensures
        power(e + 1) == (2 as real) * power(e),
        power(e) > (0 as real),
{
    vstd::arithmetic::power2::lemma2_to64();
    if e >= 0 {
        lemma_pow2_unfold((e + 1) as nat);
        lemma_pow2_pos(e as nat);
        doubled(pow2((e + 1) as nat), pow2(e as nat));
    } else {
        lemma_pow2_unfold((-e) as nat);
        lemma_pow2_pos((-e) as nat);
        lemma_pow2_pos((-e - 1) as nat);
        doubled(pow2((-e) as nat), pow2((-e - 1) as nat));
        let a = pow2((-e) as nat) as real;
        let b = pow2((-e - 1) as nat) as real;
        assert((1 as real) / b == (2 as real) * ((1 as real) / a)) by (nonlinear_arith)
            requires
                a == (2 as real) * b,
                b > (0 as real),
        ;
        assert((1 as real) / a > (0 as real)) by (nonlinear_arith)
            requires
                a > (0 as real),
        ;
        assert(power(e) == (1 as real) / a);
        if e < -1 {
            assert(-(e + 1) == -e - 1);
            assert(power(e + 1) == (1 as real) / b);
        } else {
            assert(b == 1 as real);
            assert((1 as real) / b == b) by (nonlinear_arith)
                requires
                    b == 1 as real,
            ;
            assert(power(0) == 1 as real);
        }
    }
}

proof fn power_adds(a: int, b: int)
    ensures
        power(a + b) == power(a) * power(b),
    decreases (if b < 0 {
        -b
    } else {
        b
    }),
{
    vstd::arithmetic::power2::lemma2_to64();
    if b == 0 {
        assert(power(0) == 1 as real);
        assert(power(a) * (1 as real) == power(a)) by (nonlinear_arith);
    } else if b > 0 {
        power_adds(a, b - 1);
        power_step(a + b - 1);
        power_step(b - 1);
        let x = power(a);
        let y = power(b - 1);
        assert(x * ((2 as real) * y) == (2 as real) * (x * y)) by (nonlinear_arith);
        assert(a + (b - 1) == a + b - 1);
        assert(a + b - 1 + 1 == a + b);
        assert(b - 1 + 1 == b);
    } else {
        power_adds(a, b + 1);
        power_step(a + b);
        power_step(b);
        let x = power(a);
        let y = power(b);
        assert(x * ((2 as real) * y) == (2 as real) * (x * y)) by (nonlinear_arith);
        assert(a + (b + 1) == a + b + 1);
    }
}

proof fn power_grows(a: int, b: int)
    requires
        a <= b,
    ensures
        power(a) <= power(b),
        a < b ==> (2 as real) * power(a) <= power(b),
    decreases b - a,
{
    power_step(a);
    power_step(b);
    if a < b {
        power_grows(a, b - 1);
        power_step(b - 1);
    }
}

proof fn up_is_power(e: int)
    ensures
        power(e) * (up(-e) as real) == up(e) as real,
        up(e) > 0,
        up(-e) > 0,
{
    power_step(e);
    vstd::arithmetic::power2::lemma2_to64();
    if e > 0 {
        lemma_pow2_pos(e as nat);
        assert(power(e) * (1 as real) == power(e)) by (nonlinear_arith);
    } else if e == 0 {
        assert(power(0) == 1 as real);
        assert((1 as real) * (1 as real) == (1 as real)) by (nonlinear_arith);
    } else {
        lemma_pow2_pos((-e) as nat);
        let a = pow2((-e) as nat) as real;
        assert(((1 as real) / a) * a == (1 as real)) by (nonlinear_arith)
            requires
                a > (0 as real),
        ;
    }
}

/// Products of integers are products of what they stand for.
pub proof fn real_product(a: int, b: int)
    ensures
        (a * b) as real == (a as real) * (b as real),
{
    assert((a * b) as real == (a as real) * (b as real)) by (nonlinear_arith);
}

/// `m * 2^e` is the number with 53 significant bits that is nearest to `x`; of two, the
/// one with an even significand.
pub open spec fn near(x: real, e: int, m: int) -> bool {
    &&& (SIGNIFICAND_MIN as int as real) * power(e) <= x
    &&& x < (SIGNIFICAND_END as int as real) * power(e)
    &&& (2 as real) * ((m as real) * power(e) - x) <= power(e)
    &&& (2 as real) * (x - (m as real) * power(e)) <= power(e)
    &&& ((2 as real) * ((m as real) * power(e) - x) == power(e) || (2 as real) * (x - (m as real)
        * power(e)) == power(e)) ==> m % 2 == 0
}

proof fn power_above(n: nat)
    ensures
        pow2(n) > n,
    decreases n,
{
    if n == 0 {
        vstd::arithmetic::power2::lemma2_to64();
    } else {
        power_above((n - 1) as nat);
        lemma_pow2_unfold(n);
    }
}

proof fn binade_from(num: nat, den: nat, e: int) -> (f: int)
    requires
        num > 0,
        den > 0,
        SIGNIFICAND_MIN * (den * up(e)) <= num * up(-e),
    ensures
        in_binade(num, den, f),
    decreases num - e,
{
    let a = up(e);
    let b = up(-e);
    if num * b < SIGNIFICAND_END * (den * a) {
        e
    } else {
        vstd::arithmetic::power2::lemma2_to64();
        if e > 0 {
            power_above(e as nat);
            assert(num >= a) by (nonlinear_arith)
                requires
                    0x10_0000_0000_0000 * (den * a) <= num * 1,
                    den >= 1,
                    a >= 0,
            ;
        }
        if e >= 0 {
            lemma_pow2_unfold((e + 1) as nat);
            assert(up(e + 1) == 2 * a);
            assert(up(-(e + 1)) == 1 && b == 1);
            assert(0x20_0000_0000_0000 * (den * a) == 0x10_0000_0000_0000 * (den * (2 * a)))
                by (nonlinear_arith);
        } else {
            lemma_pow2_unfold((-e) as nat);
            let c = up(-(e + 1));
            assert(b == 2 * c);
            assert(up(e + 1) == 1 && a == 1);
            assert(num * (2 * c) == 2 * (num * c)) by (nonlinear_arith);
        }
        binade_from(num, den, e + 1)
    }
}

proof fn binade_exists(num: nat, den: nat) -> (e: int)
    requires
        num > 0,
        den > 0,
    ensures
        in_binade(num, den, e),
{
    let k = (den + 52) as nat;
    power_above(den);
    lemma_pow2_adds(den, 52);
    vstd::arithmetic::power2::lemma2_to64_rest();
    assert(pow2(k) == pow2(den) * 0x10_0000_0000_0000);
    assert(num * pow2(k) >= 0x10_0000_0000_0000 * (den * 1)) by (nonlinear_arith)
        requires
            pow2(k) == pow2(den) * 0x10_0000_0000_0000,
            pow2(den) >= den,
            num >= 1,
    ;
    binade_from(num, den, -k)
}

/// A rounded quotient is the number with 53 significant bits that is nearest to the
/// quotient.
pub proof fn rounded_is_near(num: nat, den: nat) -> (r: (int, int))
    requires
        num > 0,
        den > 0,
    ensures
        near((num as real) / (den as real), r.0, r.1),
        value(rounded(num, den)) == (r.1 as real) * power(r.0),
        normal(rounded(num, den)),
        rounded(num, den).significand > 0,
{
    let some = binade_exists(num, den);
    let e = choose|e: int| in_binade(num, den, e);
    let a = up(e);
    let b = up(-e);
    let n = num * b;
    let d = den * a;
    up_is_power(e);
    power_step(e);
    let q = n / d;
    let t = n % d;
    let m = nearest_even(n, d);
    assert(d > 0) by (nonlinear_arith)
        requires
            d == den * a,
            den > 0,
            a > 0,
    ;
    vstd::arithmetic::div_mod::lemma_fundamental_div_mod(n as int, d as int);
    assert(SIGNIFICAND_MIN <= q < SIGNIFICAND_END) by (nonlinear_arith)
        requires
            0x10_0000_0000_0000 * d <= n < 0x20_0000_0000_0000 * d,
            SIGNIFICAND_MIN == 0x10_0000_0000_0000,
            SIGNIFICAND_END == 0x20_0000_0000_0000,
            q == n / d,
            d > 0,
    ;
    let x = (num as real) / (den as real);
    let p = power(e);
    let g = (n as real) / (d as real);
    real_product(num as int, b as int);
    real_product(den as int, a as int);
    assert(x == g * p) by (nonlinear_arith)
        requires
            x == (num as real) / (den as real),
            g == (n as real) / (d as real),
            n as real == (num as real) * (b as real),
            d as real == (den as real) * (a as real),
            p * (b as real) == a as real,
            den as real > 0 as real,
            a as real > 0 as real,
            b as real > 0 as real,
    ;
    real_product(d as int, q as int);
    real_product(0x10_0000_0000_0000, d as int);
    real_product(0x20_0000_0000_0000, d as int);
    let lo = 0x10_0000_0000_0000 as real;
    let hi = 0x20_0000_0000_0000 as real;
    let dr = d as real;
    let nr = n as real;
    assert(lo <= g && g < hi) by (nonlinear_arith)
        requires
            g == nr / dr,
            dr > (0 as real),
            lo * dr <= nr,
            nr < hi * dr,
    ;
    let mr = m as real;
    let qr = q as real;
    let tr = t as real;
    assert(g == qr + tr / dr) by (nonlinear_arith)
        requires
            g == nr / dr,
            nr == dr * qr + tr,
            dr > (0 as real),
    ;
    let frac = tr / dr;
    assert((2 as real) * frac <= (1 as real) <==> (2 as real) * tr <= dr) by (nonlinear_arith)
        requires
            frac == tr / dr,
            dr > (0 as real),
    ;
    assert((2 as real) * frac >= (1 as real) <==> (2 as real) * tr >= dr) by (nonlinear_arith)
        requires
            frac == tr / dr,
            dr > (0 as real),
    ;
    assert((0 as real) <= frac && frac < (1 as real)) by (nonlinear_arith)
        requires
            frac == tr / dr,
            (0 as real) <= tr,
            tr < dr,
    ;
    assert((2 as real) * tr <= dr <==> 2 * t <= d);
    assert((2 as real) * tr >= dr <==> 2 * t >= d);
    assert((2 as real) * (mr - g) <= (1 as real));
    assert((2 as real) * (g - mr) <= (1 as real));
    assert((2 as real) * (mr - g) == (1 as real) || (2 as real) * (g - mr) == (1 as real) ==> m % 2
        == 0);
    near_scaled(x, g, p, mr, lo, hi);
    assert(near(x, e, m as int));
    if m == SIGNIFICAND_END {
        assert((0x20_0000_0000_0000 as real) * p == (0x10_0000_0000_0000 as real) * ((2 as real)
            * p)) by (nonlinear_arith);
    }
    (e, m as int)
}

proof fn near_scaled(x: real, g: real, p: real, mr: real, lo: real, hi: real)
    requires
        x == g * p,
        p > (0 as real),
    ensures
        lo <= g ==> lo * p <= x,
        g < hi ==> x < hi * p,
        (2 as real) * (mr - g) <= (1 as real) <==> (2 as real) * (mr * p - x) <= p,
        (2 as real) * (g - mr) <= (1 as real) <==> (2 as real) * (x - mr * p) <= p,
        (2 as real) * (mr - g) == (1 as real) <==> (2 as real) * (mr * p - x) == p,
        (2 as real) * (g - mr) == (1 as real) <==> (2 as real) * (x - mr * p) == p,
{
    assert(lo <= g ==> lo * p <= x) by (nonlinear_arith)
        requires
            x == g * p,
            p > (0 as real),
    ;
    assert(g < hi ==> x < hi * p) by (nonlinear_arith)
        requires
            x == g * p,
            p > (0 as real),
    ;
    let d = (2 as real) * (mr - g);
    let f = (2 as real) * (mr * p - x);
    assert(f == d * p) by (nonlinear_arith)
        requires
            x == g * p,
            d == (2 as real) * (mr - g),
            f == (2 as real) * (mr * p - x),
    ;
    assert(d <= (1 as real) <==> d * p <= p) by (nonlinear_arith)
        requires
            p > (0 as real),
    ;
    assert(d == (1 as real) <==> d * p == p) by (nonlinear_arith)
        requires
            p > (0 as real),
    ;
    let c = (2 as real) * (g - mr);
    let h = (2 as real) * (x - mr * p);
    assert(h == c * p) by (nonlinear_arith)
        requires
            x == g * p,
            c == (2 as real) * (g - mr),
            h == (2 as real) * (x - mr * p),
    ;
    assert(c <= (1 as real) <==> c * p <= p) by (nonlinear_arith)
        requires
            p > (0 as real),
    ;
    assert(c == (1 as real) <==> c * p == p) by (nonlinear_arith)
        requires
            p > (0 as real),
    ;
}

/// Rounding commutes with powers of two.
pub proof fn near_shifted(x: real, e: int, m: int, k: int)
    requires
        near(x, e, m),
    ensures
        near(x * power(k), e + k, m),
{
    power_adds(e, k);
    power_step(e);
    power_step(k);
    let p = power(e);
    let s = power(k);
    let mr = m as real;
    let g = x / p;
    assert(x == g * p) by (nonlinear_arith)
        requires
            g == x / p,
            p > (0 as real),
    ;
    assert(x * s == g * (p * s)) by (nonlinear_arith)
        requires
            x == g * p,
    ;
    assert(p * s > (0 as real)) by (nonlinear_arith)
        requires
            p > (0 as real),
            s > (0 as real),
    ;
    let lo = SIGNIFICAND_MIN as int as real;
    let hi = SIGNIFICAND_END as int as real;
    assert(lo <= g && g < hi) by (nonlinear_arith)
        requires
            x == g * p,
            p > (0 as real),
            lo * p <= x,
            x < hi * p,
    ;
    near_scaled(x, g, p, mr, lo, hi);
    near_scaled(x * s, g, p * s, mr, lo, hi);
}

/// Rounding keeps order.
pub proof fn near_keeps_order(x: real, e: int, m: int, y: real, f: int, n: int)
    requires
        near(x, e, m),
        near(y, f, n),
        x <= y,
    ensures
        (m as real) * power(e) <= (n as real) * power(f),
        e <= f,
{
    let lo = SIGNIFICAND_MIN as int as real;
    let hi = SIGNIFICAND_END as int as real;
    let p = power(e);
    let q = power(f);
    power_step(e);
    power_step(f);
    near_bounds(x, e, m);
    near_bounds(y, f, n);
    if f < e {
        power_grows(f, e);
        assert(hi * q <= lo * p) by (nonlinear_arith)
            requires
                (2 as real) * q <= p,
                hi == (2 as real) * lo,
                lo > (0 as real),
        ;
    } else if e < f {
        power_grows(e, f);
        assert(hi * p <= lo * q) by (nonlinear_arith)
            requires
                (2 as real) * p <= q,
                hi == (2 as real) * lo,
                lo > (0 as real),
        ;
        assert((m as real) * p <= hi * p) by (nonlinear_arith)
            requires
                m as real <= hi,
                p > (0 as real),
        ;
        assert(lo * q <= (n as real) * q) by (nonlinear_arith)
            requires
                lo <= n as real,
                q > (0 as real),
        ;
    } else if m > n {
        let mp = (m as real) * p;
        let np = (n as real) * p;
        assert(mp >= np + p) by (nonlinear_arith)
            requires
                m as real >= (n as real) + (1 as real),
                mp == (m as real) * p,
                np == (n as real) * p,
                p > (0 as real),
        ;
        assert((2 as real) * (mp - x) == p);
        assert((2 as real) * (y - np) == p);
        assert(mp == np + p);
        assert(m as real == (n as real) + (1 as real)) by (nonlinear_arith)
            requires
                mp == np + p,
                mp == (m as real) * p,
                np == (n as real) * p,
                p > (0 as real),
        ;
        assert(m == n + 1);
    } else {
        assert((m as real) * p <= (n as real) * p) by (nonlinear_arith)
            requires
                m as real <= n as real,
                p > (0 as real),
        ;
    }
}

proof fn near_bounds(x: real, e: int, m: int)
    requires
        near(x, e, m),
    ensures
        SIGNIFICAND_MIN <= m <= SIGNIFICAND_END,
{
    let lo = SIGNIFICAND_MIN as int as real;
    let hi = SIGNIFICAND_END as int as real;
    let p = power(e);
    power_step(e);
    let mr = m as real;
    assert((2 as real) * mr >= (2 as real) * lo - (1 as real)) by (nonlinear_arith)
        requires
            lo * p <= x,
            (2 as real) * (x - mr * p) <= p,
            p > (0 as real),
    ;
    assert((2 as real) * mr <= (2 as real) * hi + (1 as real)) by (nonlinear_arith)
        requires
            x < hi * p,
            (2 as real) * (mr * p - x) <= p,
            p > (0 as real),
    ;
}

/// A rounded number differs from what it stands for by no more than one part in
/// `2^53`.
pub proof fn near_is_close(x: real, e: int, m: int)
    requires
        near(x, e, m),
    ensures
        ((m as real) * power(e) - x) * (SIGNIFICAND_END as int as real) <= x,
        (x - (m as real) * power(e)) * (SIGNIFICAND_END as int as real) <= x,
        x > (0 as real),
{
    let lo = SIGNIFICAND_MIN as int as real;
    let hi = SIGNIFICAND_END as int as real;
    let p = power(e);
    power_step(e);
    let v = (m as real) * p;
    assert((v - x) * hi <= x && (x - v) * hi <= x && x > (0 as real)) by (nonlinear_arith)
        requires
            lo * p <= x,
            hi == (2 as real) * lo,
            (2 as real) * (v - x) <= p,
            (2 as real) * (x - v) <= p,
            lo > (0 as real),
            p > (0 as real),
    ;
}

/// One number is below another exactly if what it stands for is.
pub proof fn less_means_less(a: Scaled, b: Scaled)
    ensures
        scaled_less(a, b) <==> value(a) < value(b),
{
    let x = a.significand as real;
    let y = b.significand as real;
    let d = a.exponent - b.exponent;
    power_step(a.exponent);
    power_step(b.exponent);
    up_is_power(d);
    let ua = up(d) as real;
    let ub = up(-d) as real;
    assert(-d == b.exponent - a.exponent);
    power_adds(d, b.exponent);
    real_product(a.significand as int, up(d) as int);
    real_product(b.significand as int, up(-d) as int);
    let p = power(b.exponent);
    let s = power(d);
    power_step(d);
    let v = x * (s * p);
    let w = y * p;
    assert(v * ub == (x * ua) * p) by (nonlinear_arith)
        requires
            s * ub == ua,
            v == x * (s * p),
    ;
    assert(w * ub == (y * ub) * p) by (nonlinear_arith)
        requires
            w == y * p,
    ;
    assert(v < w <==> v * ub < w * ub) by (nonlinear_arith)
        requires
            ub > (0 as real),
    ;
    assert(x * ua < y * ub <==> (x * ua) * p < (y * ub) * p) by (nonlinear_arith)
        requires
            p > (0 as real),
    ;
}

proof fn count_is_near(n: nat) -> (r: (int, int))
    requires
        n > 0,
    ensures
        near(n as real, r.0, r.1),
        value(count_value(n)) == (r.1 as real) * power(r.0),
        normal(count_value(n)),
        count_value(n).significand > 0,
{
    let r = rounded_is_near(n, 1);
    assert((n as real) / (1 as real) == n as real) by (nonlinear_arith);
    r
}

proof fn integers_are_exact(n: nat, e: int, m: int)
    requires
        near(n as real, e, m),
        n < SIGNIFICAND_END,
    ensures
        (m as real) * power(e) == n as real,
{
    let p = power(e);
    power_step(e);
    if e >= 1 {
        power_grows(1, e);
        power_step(0);
        vstd::arithmetic::power2::lemma2_to64();
        assert(power(0) == 1 as real);
        let lo = SIGNIFICAND_MIN as int as real;
        assert(lo * p >= lo * (2 as real)) by (nonlinear_arith)
            requires
                p >= (2 as real),
                lo > (0 as real),
        ;
    }
    up_is_power(e);
    let k = n * up(-e);
    real_product(n as int, up(-e) as int);
    assert(up(e) == 1);
    let ub = up(-e) as real;
    let nr = n as real;
    let kr = k as real;
    let mr = m as real;
    assert(kr * p == nr) by (nonlinear_arith)
        requires
            kr == nr * ub,
            p * ub == (1 as real),
    ;
    assert((2 as real) * (mr - kr) <= (1 as real)) by (nonlinear_arith)
        requires
            (2 as real) * (mr * p - nr) <= p,
            kr * p == nr,
            p > (0 as real),
    ;
    assert((2 as real) * (kr - mr) <= (1 as real)) by (nonlinear_arith)
        requires
            (2 as real) * (nr - mr * p) <= p,
            kr * p == nr,
            p > (0 as real),
    ;
    assert(2 * (m - k) <= 1 && 2 * (k - m) <= 1);
    assert(m == k);
}

/// A count below `2^53` is exact.
pub proof fn small_counts_are_exact(n: nat)
    requires
        n < SIGNIFICAND_END,
    ensures
        value(count_value(n)) == n as real,
{
    if n == 0 {
        power_step(0);
        assert((0 as real) * power(0) == 0 as real) by (nonlinear_arith);
    } else {
        let (e, m) = count_is_near(n);
        integers_are_exact(n, e, m);
    }
}

proof fn quotient_is_near(a: Scaled, b: Scaled) -> (r: (int, int))
    requires
        a.significand > 0,
        b.significand > 0,
    ensures
        near(value(a) / value(b), r.0, r.1),
        value(quotient(a, b)) == (r.1 as real) * power(r.0),
        normal(quotient(a, b)),
        quotient(a, b).significand > 0,
        value(a) > (0 as real),
        value(b) > (0 as real),
{
    let (e, m) = rounded_is_near(a.significand, b.significand);
    let k = a.exponent - b.exponent;
    let x = a.significand as real;
    let y = b.significand as real;
    near_shifted(x / y, e, m, k);
    power_adds(b.exponent, k);
    power_adds(e, k);
    let s = rounded(a.significand, b.significand);
    power_adds(s.exponent, k);
    power_step(a.exponent);
    power_step(b.exponent);
    power_step(k);
    let p = power(b.exponent);
    let t = power(k);
    assert(b.exponent + k == a.exponent);
    assert((x / y) * t == (x * (p * t)) / (y * p)) by (nonlinear_arith)
        requires
            y > (0 as real),
            p > (0 as real),
    ;
    assert(x * power(a.exponent) > (0 as real)) by (nonlinear_arith)
        requires
            x > (0 as real),
            power(a.exponent) > (0 as real),
    ;
    assert(y * p > (0 as real)) by (nonlinear_arith)
        requires
            y > (0 as real),
            p > (0 as real),
    ;
    let v = s.significand as real;
    let w = power(s.exponent);
    let mr = m as real;
    let pe = power(e);
    assert(v * (w * t) == mr * (pe * t)) by (nonlinear_arith)
        requires
            v * w == mr * pe,
    ;
    (e + k, m)
}

proof fn product_is_near(a: Scaled, b: Scaled) -> (r: (int, int))
    requires
        a.significand > 0,
        b.significand > 0,
    ensures
        near(value(a) * value(b), r.0, r.1),
        value(product(a, b)) == (r.1 as real) * power(r.0),
        normal(product(a, b)),
        product(a, b).significand > 0,
        value(a) > (0 as real),
        value(b) > (0 as real),
{
    let n = a.significand * b.significand;
    assert(n > 0) by (nonlinear_arith)
        requires
            n == a.significand * b.significand,
            a.significand > 0,
            b.significand > 0,
    ;
    let (e, m) = count_is_near(n);
    let k = a.exponent + b.exponent;
    let x = a.significand as real;
    let y = b.significand as real;
    real_product(a.significand as int, b.significand as int);
    near_shifted(n as real, e, m, k);
    power_adds(a.exponent, b.exponent);
    power_adds(e, k);
    let s = rounded(n, 1);
    power_adds(s.exponent, k);
    power_step(a.exponent);
    power_step(b.exponent);
    let p = power(a.exponent);
    let q = power(b.exponent);
    assert((x * y) * (p * q) == (x * p) * (y * q)) by (nonlinear_arith);
    assert(x * p > (0 as real)) by (nonlinear_arith)
        requires
            x > (0 as real),
            p > (0 as real),
    ;
    assert(y * q > (0 as real)) by (nonlinear_arith)
        requires
            y > (0 as real),
            q > (0 as real),
    ;
    let t = power(k);
    let v = s.significand as real;
    let w = power(s.exponent);
    let mr = m as real;
    let pe = power(e);
    assert(v * (w * t) == mr * (pe * t)) by (nonlinear_arith)
        requires
            v * w == mr * pe,
    ;
    (e + k, m)
}

/// A larger count is not rounded to a smaller number.
pub proof fn counts_keep_order(a: nat, b: nat)
    requires
        a <= b,
    ensures
        value(count_value(a)) <= value(count_value(b)),
        value(count_value(a)) >= (0 as real),
        a > 0 ==> value(count_value(a)) > (0 as real),
{
    if a == 0 {
        small_counts_are_exact(0);
        if b > 0 {
            let (f, n) = count_is_near(b);
            near_bounds(b as real, f, n);
            power_step(f);
            assert((n as real) * power(f) > (0 as real)) by (nonlinear_arith)
                requires
                    n as real > (0 as real),
                    power(f) > (0 as real),
            ;
        }
    } else {
        let (e, m) = count_is_near(a);
        let (f, n) = count_is_near(b);
        near_keeps_order(a as real, e, m, b as real, f, n);
        near_bounds(a as real, e, m);
        power_step(e);
        assert((m as real) * power(e) > (0 as real)) by (nonlinear_arith)
            requires
                m as real > (0 as real),
                power(e) > (0 as real),
        ;
    }
}

/// Among sizes with one mean, a larger maximum has no lower ratio to the mean.
pub proof fn larger_maximum_is_no_less_uneven(a: nat, b: nat, sum: nat, count: nat)
    requires
        a <= b,
    ensures
        !scaled_less(max_mean_ratio(b, sum, count), max_mean_ratio(a, sum, count)),
{
    let mean = mean_value(sum, count);
    let x = max_mean_ratio(a, sum, count);
    let y = max_mean_ratio(b, sum, count);
    less_means_less(y, x);
    if mean.significand > 0 {
        let ca = count_value(a);
        let cb = count_value(b);
        counts_keep_order(a, b);
        if a == 0 {
            assert(x.significand == 0);
            power_step(x.exponent);
            power_step(y.exponent);
            assert((0 as real) * power(x.exponent) == 0 as real) by (nonlinear_arith);
            assert((y.significand as real) * power(y.exponent) >= (0 as real)) by (nonlinear_arith)
                requires
                    y.significand as real >= (0 as real),
                    power(y.exponent) > (0 as real),
            ;
        } else {
            let near_a = count_is_near(a);
            let near_b = count_is_near(b);
            let (e, m) = quotient_is_near(ca, mean);
            let (f, n) = quotient_is_near(cb, mean);
            let u = value(ca);
            let v = value(cb);
            let w = value(mean);
            assert(u / w <= v / w) by (nonlinear_arith)
                requires
                    u <= v,
                    w > (0 as real),
            ;
            near_keeps_order(u / w, e, m, v / w, f, n);
        }
    }
}

/// `x` differs from `y` by no more than one part of `y` in `parts`.
pub open spec fn close(x: real, y: real, parts: real) -> bool {
    (x - y) * parts <= y && (y - x) * parts <= y
}

/// A mean times the number of its parts is the sum, but for one part in `2^50`.
pub proof fn means_are_close(sum: nat, count: nat)
    requires
        sum > 0,
        count > 0,
    ensures
        close(
            value(mean_value(sum, count)) * (count as real),
            sum as real,
            0x4_0000_0000_0000 as real,
        ),
        value(mean_value(sum, count)) > (0 as real),
        mean_value(sum, count).significand > 0,
{
    let (e1, m1) = count_is_near(sum);
    let (e2, m2) = count_is_near(count);
    near_is_close(sum as real, e1, m1);
    near_is_close(count as real, e2, m2);
    let s = value(count_value(sum));
    let c = value(count_value(count));
    let (e, m) = quotient_is_near(count_value(sum), count_value(count));
    near_is_close(s / c, e, m);
    near_bounds(s / c, e, m);
    power_step(e);
    let q = value(mean_value(sum, count));
    assert(q > (0 as real)) by (nonlinear_arith)
        requires
            q == (m as real) * power(e),
            m as real > (0 as real),
            power(e) > (0 as real),
    ;
    let r = s / c;
    let n = count as real;
    let t = sum as real;
    let h = SIGNIFICAND_END as int as real;
    assert(r * c == s) by (nonlinear_arith)
        requires
            r == s / c,
            c > (0 as real),
    ;
    let rn = r * n;
    let qn = q * n;
    assert((qn - rn) * h <= rn && (rn - qn) * h <= rn) by (nonlinear_arith)
        requires
            (q - r) * h <= r,
            (r - q) * h <= r,
            rn == r * n,
            qn == q * n,
            n > (0 as real),
    ;
    assert((s - rn) * h <= rn && (rn - s) * h <= rn) by (nonlinear_arith)
        requires
            (c - n) * h <= n,
            (n - c) * h <= n,
            rn == r * n,
            s == r * c,
            r > (0 as real),
    ;
    assert(h == 0x20_0000_0000_0000 as real);
}

/// A count is found to be above a multiple of a mean as the numbers say, but for one
/// part in `2^49`: it is, where it is clearly above, and is not, where it is clearly
/// below.
pub proof fn thresholds_follow_their_factor(n: nat, factor: Binary64, sum: nat, count: nat)
    requires
        factor.positive(),
        sum > 0,
        count > 0,
    ensures
        ({
            let limit = value(factor.magnitude()) * (sum as real);
            let have = (n as real) * (count as real);
            let parts = 0x2_0000_0000_0000 as real;
            let one = 1 as real;
            &&& count_exceeds(n, factor, mean_value(sum, count)) ==> have * (parts + one) > limit
                * parts
            &&& !count_exceeds(n, factor, mean_value(sum, count)) ==> have * parts <= limit * (parts
                + one)
        }),
{
    means_are_close(sum, count);
    factor_is_exact(factor);
    let mean = mean_value(sum, count);
    let f = factor.magnitude();
    let (e, m) = product_is_near(f, mean);
    near_is_close(value(f) * value(mean), e, m);
    let a = value(f);
    let q = value(mean);
    let t = value(product(f, mean));
    let c = count as real;
    let s = sum as real;
    let h = SIGNIFICAND_END as int as real;
    let g = value(count_value(n));
    let nr = n as real;
    less_means_less(product(f, mean), count_value(n));
    assert(count_exceeds(n, factor, mean) == (t < g));
    let limit = a * s;
    let aqc = a * (q * c);
    let tc = t * c;
    let gc = g * c;
    let have = nr * c;
    let parts = 0x4_0000_0000_0000 as real;
    assert(a * q * c == aqc) by (nonlinear_arith)
        requires
            aqc == a * (q * c),
    ;
    assert((tc - aqc) * h <= aqc && (aqc - tc) * h <= aqc) by (nonlinear_arith)
        requires
            (t - a * q) * h <= a * q,
            (a * q - t) * h <= a * q,
            tc == t * c,
            aqc == a * q * c,
            c > (0 as real),
    ;
    let qc = q * c;
    assert((aqc - limit) * parts <= limit && (limit - aqc) * parts <= limit) by (nonlinear_arith)
        requires
            (qc - s) * parts <= s,
            (s - qc) * parts <= s,
            aqc == a * qc,
            limit == a * s,
            a > (0 as real),
    ;
    assert(limit > (0 as real)) by (nonlinear_arith)
        requires
            limit == a * s,
            a > (0 as real),
            s > (0 as real),
    ;
    assert(t < g <==> tc < gc) by (nonlinear_arith)
        requires
            tc == t * c,
            gc == g * c,
            c > (0 as real),
    ;
    if n == 0 {
        small_counts_are_exact(0);
        assert(gc == 0 as real && have == 0 as real) by (nonlinear_arith)
            requires
                gc == g * c,
                g == 0 as real,
                have == nr * c,
                nr == 0 as real,
        ;
    } else {
        let (e3, m3) = count_is_near(n);
        near_is_close(nr, e3, m3);
        assert((gc - have) * h <= have && (have - gc) * h <= have && have > (0 as real))
            by (nonlinear_arith)
            requires
                (g - nr) * h <= nr,
                (nr - g) * h <= nr,
                gc == g * c,
                have == nr * c,
                nr > (0 as real),
                c > (0 as real),
        ;
    }
    assert(h == 0x20_0000_0000_0000 as real);
}

/// The number that the bits of a double stand for, its sign aside: the significand, with
/// the bit that is not stored, times the power of two of its exponent.
pub proof fn factor_is_exact(x: Binary64)
    requires
        x.finite(),
    ensures
        ({
            let field = (x.bits / 0x10_0000_0000_0000) as int % 2048;
            let fraction = (x.bits % 0x10_0000_0000_0000) as int;
            value(x.magnitude()) == (if field == 0 {
                fraction as real
            } else {
                (fraction + 0x10_0000_0000_0000) as real
            }) * power(if field == 0 {
                -1074
            } else {
                field - 1075
            })
        }),
        x.significand() > 0 ==> x.magnitude().significand > 0 && value(x.magnitude()) > (0 as real),
        normal(x.magnitude()),
{
    let n = x.significand();
    let k = if x.exponent_field() == 0 {
        -1074
    } else {
        x.exponent_field() - 1075
    };
    small_counts_are_exact(n);
    let s = rounded(n, 1);
    power_adds(s.exponent, k);
    power_step(k);
    let v = s.significand as real;
    let w = power(s.exponent);
    let t = power(k);
    assert(v * (w * t) == (v * w) * t) by (nonlinear_arith);
    if n > 0 {
        let r = count_is_near(n);
        assert((n as real) * t > (0 as real)) by (nonlinear_arith)
            requires
                n as real > (0 as real),
                t > (0 as real),
        ;
    } else {
        power_step(0);
        assert((0 as real) * power(0) == 0 as real) by (nonlinear_arith);
        assert((0 as real) * t == 0 as real) by (nonlinear_arith);
    }
}

/// Where sum and factor come out even, a count is above the multiple of the mean exactly
/// if it is larger: not where it is equal.
pub proof fn even_thresholds_are_exact(
    n: nat,
    factor: Binary64,
    multiple: nat,
    sum: nat,
    count: nat,
    mean: nat,
)
    requires
        factor.positive(),
        value(factor.magnitude()) == multiple as real,
        count > 0,
        mean > 0,
        sum == mean * count,
        sum < SIGNIFICAND_END,
        multiple * mean < SIGNIFICAND_END,
        n < SIGNIFICAND_END,
    ensures
        count_exceeds(n, factor, mean_value(sum, count)) <==> n > multiple * mean,
{
    assert(count <= sum && mean <= sum) by (nonlinear_arith)
        requires
            sum == mean * count,
            count > 0,
            mean > 0,
    ;
    small_counts_are_exact(sum);
    small_counts_are_exact(count);
    small_counts_are_exact(n);
    factor_is_exact(factor);
    let near_sum = count_is_near(sum);
    let near_count = count_is_near(count);
    let (e, m) = quotient_is_near(count_value(sum), count_value(count));
    real_product(mean as int, count as int);
    let s = sum as real;
    let c = count as real;
    let q = mean as real;
    assert(s / c == q) by (nonlinear_arith)
        requires
            s == q * c,
            c > (0 as real),
    ;
    integers_are_exact(mean, e, m);
    let f = factor.magnitude();
    let center = mean_value(sum, count);
    let (g, k) = product_is_near(f, center);
    real_product(multiple as int, mean as int);
    integers_are_exact((multiple * mean) as nat, g, k);
    less_means_less(product(f, center), count_value(n));
}

/// A number that is neither too small nor too large is packed without loss.
pub proof fn packed_numbers_are_kept(x: Scaled, packed: Binary64)
    requires
        normal(x),
        -1074 <= x.exponent <= 971,
        packed.bits == encoded(x),
    ensures
        packed.finite(),
        !packed.negative(),
        value(packed.magnitude()) == value(x),
{
    if x.significand > 0 {
        let field = x.exponent + 1075;
        let rest = x.significand - SIGNIFICAND_MIN;
        let bits = packed.bits as int;
        assert(bits / 0x10_0000_0000_0000 == field && bits % 0x10_0000_0000_0000 == rest)
            by (nonlinear_arith)
            requires
                bits == field * 0x10_0000_0000_0000 + rest,
                0 <= rest < 0x10_0000_0000_0000,
        ;
    } else {
        power_step(-1074);
        power_step(0);
        assert((0 as real) * power(0) == 0 as real) by (nonlinear_arith);
        assert((0 as real) * power(-1074) == 0 as real) by (nonlinear_arith);
    }
    factor_is_exact(packed);
}

proof fn means_have_small_exponents(sum: nat, count: nat)
    requires
        0 < sum <= u64::MAX,
        0 < count <= u64::MAX,
    ensures
        normal(mean_value(sum, count)),
        -1074 <= mean_value(sum, count).exponent <= 971,
{
    let near_sum = count_is_near(sum);
    let near_count = count_is_near(count);
    let near_mean = quotient_is_near(count_value(sum), count_value(count));
    means_are_close(sum, count);
    let mean = mean_value(sum, count);
    let v = value(mean);
    let n = count as real;
    let t = sum as real;
    vstd::arithmetic::power2::lemma2_to64();
    vstd::arithmetic::power2::lemma2_to64_rest();
    let e = mean.exponent;
    let p = power(e);
    let m = mean.significand as real;
    power_step(e);
    assert(power(52) == SIGNIFICAND_MIN as int as real);
    assert(power(53) == SIGNIFICAND_END as int as real);
    assert(power(64) == 0x1_0000_0000_0000_0000 as real);
    let c = power(64);
    power_adds(52, e);
    power_adds(53, e);
    power_adds(64, -66);
    power_step(64);
    power_step(65);
    power_step(-2);
    power_step(-1);
    power_step(-66);
    assert(power(0) == 1 as real);
    assert(v >= power(52 + e)) by (nonlinear_arith)
        requires
            v == m * p,
            m >= power(52),
            power(52 + e) == power(52) * p,
            p > (0 as real),
    ;
    assert(v <= power(53 + e)) by (nonlinear_arith)
        requires
            v == m * p,
            m <= power(53),
            power(53 + e) == power(53) * p,
            p > (0 as real),
    ;
    let w = v * n;
    assert(w <= (2 as real) * t && (2 as real) * w >= t);
    assert(v < (4 as real) * c) by (nonlinear_arith)
        requires
            w == v * n,
            w <= (2 as real) * t,
            t <= c,
            n >= (1 as real),
            v > (0 as real),
            c > (0 as real),
    ;
    let d = power(-66);
    assert(v > d) by (nonlinear_arith)
        requires
            w == v * n,
            (2 as real) * w >= t,
            t >= (1 as real),
            n <= c,
            n >= (1 as real),
            c * d == (1 as real) / (4 as real),
            d > (0 as real),
            c > (0 as real),
            v > (0 as real),
    ;
    if 52 + e > 66 {
        power_grows(66, 52 + e);
    }
    if 53 + e < -66 {
        power_grows(53 + e, -66);
    }
}

/// A mean that is recorded is the sum by the count, but for one part in `2^50`.
pub proof fn recorded_means_are_close(sum: nat, count: nat, packed: Binary64)
    requires
        0 < sum <= u64::MAX,
        0 < count <= u64::MAX,
        packed.bits == encoded(mean_value(sum, count)),
    ensures
        packed.finite(),
        !packed.negative(),
        close(
            value(packed.magnitude()) * (count as real),
            sum as real,
            0x4_0000_0000_0000 as real,
        ),
{
    means_are_close(sum, count);
    means_have_small_exponents(sum, count);
    packed_numbers_are_kept(mean_value(sum, count), packed);
}

/// Among numbers that are not negative, one is above another exactly if what its bits
/// stand for is.
pub proof fn comparison_follows_the_numbers(a: Binary64, b: Binary64)
    requires
        a.finite(),
        b.finite(),
        !a.negative(),
        !b.negative(),
    ensures
        value_exceeds(a, b) <==> value(a.magnitude()) > value(b.magnitude()),
{
    factor_is_exact(a);
    factor_is_exact(b);
    if a.bits > b.bits {
        bits_keep_order(b, a);
    } else if a.bits < b.bits {
        bits_keep_order(a, b);
    }
}

proof fn bits_keep_order(a: Binary64, b: Binary64)
    requires
        a.finite(),
        b.finite(),
        !a.negative(),
        !b.negative(),
        a.bits < b.bits,
    ensures
        value(a.magnitude()) < value(b.magnitude()),
{
    factor_is_exact(a);
    factor_is_exact(b);
    let fa = (a.bits / 0x10_0000_0000_0000) as int;
    let fb = (b.bits / 0x10_0000_0000_0000) as int;
    let ra = (a.bits % 0x10_0000_0000_0000) as int;
    let rb = (b.bits % 0x10_0000_0000_0000) as int;
    assert(fa < 2048 && fb < 2048);
    assert(fa < fb || (fa == fb && ra < rb));
    let ea = if fa == 0 { -1074int } else { fa - 1075 };
    let eb = if fb == 0 { -1074int } else { fb - 1075 };
    let sa = (if fa == 0 { ra } else { ra + 0x10_0000_0000_0000 }) as real;
    let sb = (if fb == 0 { rb } else { rb + 0x10_0000_0000_0000 }) as real;
    let pa = power(ea);
    let pb = power(eb);
    power_step(ea);
    power_step(eb);
    assert(value(a.magnitude()) == sa * pa);
    assert(value(b.magnitude()) == sb * pb);
    if ea == eb {
        assert(sa * pa < sb * pa) by (nonlinear_arith)
            requires
                sa < sb,
                pa > (0 as real),
        ;
    } else {
        power_grows(ea, eb);
        let lo = 0x10_0000_0000_0000 as real;
        assert(sa * pa < sb * pb) by (nonlinear_arith)
            requires
                sa < (2 as real) * lo,
                sb >= lo,
                (2 as real) * pa <= pb,
                pa > (0 as real),
                lo > (0 as real),
        ;
    }
}

/// The ratio of a maximum to a mean, times the sum, is the maximum times the number of
/// parts, but for one part in `2^48`.
pub proof fn ratios_are_close(max: nat, sum: nat, count: nat)
    requires
        max > 0,
        sum > 0,
        count > 0,
    ensures
        close(
            value(max_mean_ratio(max, sum, count)) * (sum as real),
            (max as real) * (count as real),
            0x1_0000_0000_0000 as real,
        ),
{
    means_are_close(sum, count);
    let (e1, m1) = count_is_near(max);
    near_is_close(max as real, e1, m1);
    let mean = mean_value(sum, count);
    let (e, m) = quotient_is_near(count_value(max), mean);
    let u = value(count_value(max));
    let w = value(mean);
    near_is_close(u / w, e, m);
    let q = value(max_mean_ratio(max, sum, count));
    let r = u / w;
    let n = count as real;
    let t = sum as real;
    let k = max as real;
    let h = SIGNIFICAND_END as int as real;
    let g = 0x4_0000_0000_0000 as real;
    assert(r * w == u) by (nonlinear_arith)
        requires
            r == u / w,
            w > (0 as real),
    ;
    assert(r > (0 as real));
    let x = r * t;
    let y = u * n;
    let z = k * n;
    let v = q * t;
    assert((v - x) * h <= x && (x - v) * h <= x && x > (0 as real)) by (nonlinear_arith)
        requires
            (q - r) * h <= r,
            (r - q) * h <= r,
            v == q * t,
            x == r * t,
            t > (0 as real),
            r > (0 as real),
    ;
    let s = w * n;
    assert((y - x) * g <= x && (x - y) * g <= x) by (nonlinear_arith)
        requires
            (s - t) * g <= t,
            (t - s) * g <= t,
            s == w * n,
            y == u * n,
            u == r * w,
            x == r * t,
            r > (0 as real),
    ;
    assert((y - z) * h <= z && (z - y) * h <= z) by (nonlinear_arith)
        requires
            (u - k) * h <= k,
            (k - u) * h <= k,
            y == u * n,
            z == k * n,
            n > (0 as real),
    ;
    assert(h == 0x20_0000_0000_0000 as real);
}

/// Factors that are no positive numbers: no count is above a multiple by what is no number
/// or by infinity; above nothing lies any count but zero; and any count but zero lies
/// above a negative multiple.
pub proof fn odd_factors_are_compared(n: nat, factor: Binary64, base: Scaled)
    ensures
        ({
            let size = factor.bits as int % 0x8000_0000_0000_0000;
            let infinite: int = 0x7FF0_0000_0000_0000;
            &&& size > infinite ==> !count_exceeds(n, factor, base)
            &&& factor.bits == infinite ==> !count_exceeds(n, factor, base)
            &&& size == 0 ==> (count_exceeds(n, factor, base) <==> n > 0)
            &&& 0x8000_0000_0000_0000 < factor.bits && size < infinite && n > 0 ==> count_exceeds(
                n,
                factor,
                base,
            )
            &&& size == infinite && factor.bits > infinite ==> (count_exceeds(n, factor, base)
                <==> base.significand > 0)
        }),
{
    let field = factor.bits as int / 0x10_0000_0000_0000;
    let rest = factor.bits as int % 0x10_0000_0000_0000;
    assert(factor.bits == field * 0x10_0000_0000_0000 + rest);
    assert(0 <= field < 4096);
}

} // verus!
