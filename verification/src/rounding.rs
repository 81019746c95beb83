//! How near binary64 results are to the exact ones.

use vstd::prelude::*;
use vstd::arithmetic::power2::*;

use crate::binary64::{
    binade, fixed, half_even, in_binade, lemma_binade, lemma_binade_not_below, nearest, product,
    quotient, rounded, scaled_den, scaled_num, Dyadic, MANT_END, MANT_MIN,
};

verus! {

proof fn lemma_scale_up(n: nat, d: nat, k: nat) -> (e: int)
    requires
        n > 0,
        d > 0,
        n * pow2(k) < MANT_END * d,
    ensures
        in_binade(n, d, e),
    decreases MANT_END * d - n * pow2(k),
{
    lemma_pow2_pos(k);
    assert(n * pow2(k) > 0) by (nonlinear_arith)
        requires
            n > 0,
            pow2(k) > 0,
    ;
    if n * pow2(k) < MANT_MIN * d {
        lemma_pow2_unfold(k + 1);
        assert(n * (2 * pow2(k)) == 2 * (n * pow2(k))) by (nonlinear_arith);
        lemma_scale_up(n, d, k + 1)
    } else {
        lemma2_to64();
        assert(n * 1 == n);
        -(k as int)
    }
}

proof fn lemma_scale_down(n: nat, d: nat, k: nat) -> (e: int)
    requires
        n > 0,
        d > 0,
        n >= MANT_MIN * (d * pow2(k)),
    ensures
        in_binade(n, d, e),
    decreases n - d * pow2(k),
{
    lemma_pow2_pos(k);
    assert(d * pow2(k) > 0) by (nonlinear_arith)
        requires
            d > 0,
            pow2(k) > 0,
    ;
    if n >= MANT_END * (d * pow2(k)) {
        lemma_pow2_unfold(k + 1);
        assert(d * (2 * pow2(k)) == 2 * (d * pow2(k))) by (nonlinear_arith);
        lemma_scale_down(n, d, k + 1)
    } else {
        lemma2_to64();
        assert(d * 1 == d);
        k as int
    }
}

/// Every positive quotient lies in a binade.
pub proof fn lemma_binade_exists(n: nat, d: nat)
    requires
        n > 0,
        d > 0,
    ensures
        in_binade(n, d, binade(n, d)),
{
    lemma2_to64();
    assert(n * 1 == n && d * 1 == d);
    let e = if n < MANT_END * d {
        lemma_scale_up(n, d, 0)
    } else {
        lemma_scale_down(n, d, 0)
    };
    lemma_binade(n, d, e);
}

/// Rounding to an integer moves a quotient by at most one half.
pub proof fn lemma_half_even_near(n: nat, d: nat)
    requires
        d > 0,
    ensures
        -(d as int) <= 2 * (half_even(n, d) * d - n) <= d,
{
    let q = n / d;
    let r = n % d;
    vstd::arithmetic::div_mod::lemma_fundamental_div_mod(n as int, d as int);
    assert(d * q == q * d) by (nonlinear_arith);
    assert((q + 1) * d == q * d + d) by (nonlinear_arith);
}

/// An integer less than one half away from a quotient is what it rounds to.
pub proof fn lemma_half_even_is(n: nat, d: nat, v: nat)
    requires
        d > 0,
        -(d as int) < 2 * (v * d - n) < d,
    ensures
        half_even(n, d) == v,
{
    lemma_half_even_near(n, d);
    let h = half_even(n, d);
    assert(h == v) by (nonlinear_arith)
        requires
            -(d as int) < 2 * (v * d - n) < d,
            -(d as int) <= 2 * (h * d - n) <= d,
    ;
}

/// The distance of `nearest(n, d)` from `n / d` is at most half a unit in the
/// last place.
pub proof fn lemma_nearest_near(n: nat, d: nat)
    requires
        n > 0,
        d > 0,
    ensures
        MANT_MIN <= nearest(n, d).mant < MANT_END,
        nearest(n, d).exp < 0 ==> ({
            let p = pow2((-nearest(n, d).exp) as nat);
            -(d as int) <= 2 * (nearest(n, d).mant * d - n * p) <= d
        }),
        nearest(n, d).exp >= 0 ==> ({
            let p = d * pow2(nearest(n, d).exp as nat);
            -(p as int) <= 2 * (nearest(n, d).mant * p - n) <= p
        }),
{
    lemma_binade_exists(n, d);
    lemma2_to64();
    assert(n * 1 == n && d * 1 == d);
    let e = binade(n, d);
    let num = scaled_num(n, e);
    let den = scaled_den(d, e);
    let m = half_even(num, den);
    if e > 0 {
        lemma_pow2_pos(e as nat);
        assert(d * pow2(e as nat) > 0) by (nonlinear_arith)
            requires
                d > 0,
                pow2(e as nat) > 0,
        ;
    }
    lemma_half_even_near(num, den);
    assert(MANT_MIN <= m <= MANT_END) by (nonlinear_arith)
        requires
            den > 0,
            MANT_MIN * den <= num < MANT_END * den,
            -(den as int) <= 2 * (m * den - num) <= den,
    ;
    if m == MANT_END {
        if e < -1 {
            let p = pow2((-e - 1) as nat);
            lemma_pow2_unfold((-e) as nat);
            assert(n * (2 * p) == 2 * (n * p)) by (nonlinear_arith);
        } else if e == -1 {
            assert(pow2(1) == 2 && pow2(0) == 1);
            assert(num == n * 2);
            assert(MANT_MIN * (d * 1) == MANT_MIN * d);
        } else {
            lemma_pow2_unfold((e + 1) as nat);
            let p = pow2(e as nat);
            assert(den == d * p);
            assert(d * (2 * p) == 2 * (d * p)) by (nonlinear_arith);
            assert(MANT_MIN * (2 * (d * p)) == MANT_END * (d * p)) by (nonlinear_arith)
                requires
                    MANT_END == 2 * MANT_MIN,
            ;
        }
    } else if e == 0 {
        assert(pow2(0) == 1);
        assert(m * (d * 1) == m * d);
    }
}

/// An integer below 2^53 is a binary64 number itself.
pub proof fn lemma_small_integer_exact(n: nat)
    requires
        0 < n < MANT_END,
    ensures
        nearest(n, 1).exp <= 0,
        nearest(n, 1).mant == n * pow2((-nearest(n, 1).exp) as nat),
        MANT_MIN <= nearest(n, 1).mant < MANT_END,
{
    lemma_binade_exists(n, 1);
    lemma2_to64();
    let e = binade(n, 1);
    if e > 0 {
        lemma_pow2_unfold(e as nat);
        lemma_pow2_pos((e - 1) as nat);
    }
    assert(n * 1 == n);
}

/// Rounding to an integer does not depend on a common factor.
pub proof fn lemma_half_even_common_factor(n: nat, d: nat, f: nat)
    requires
        d > 0,
        f > 0,
    ensures
        half_even(n * f, d * f) == half_even(n, d),
{
    let q = n / d;
    let r = n % d;
    vstd::arithmetic::div_mod::lemma_fundamental_div_mod(n as int, d as int);
    assert(d * f > 0 && r * f < d * f && r * f >= 0 && n * f == q * (d * f) + r * f)
        by (nonlinear_arith)
        requires
            n == d * q + r,
            0 <= r < d,
            f > 0,
    ;
    vstd::arithmetic::div_mod::lemma_fundamental_div_mod_converse(
        (n * f) as int,
        (d * f) as int,
        q as int,
        (r * f) as int,
    );
    assert((2 * (r * f) < d * f <==> 2 * r < d) && (2 * (r * f) == d * f <==> 2 * r == d))
        by (nonlinear_arith)
        requires
            f > 0,
    ;
}

/// A quotient and the same quotient written with a common factor lie in the
/// same way in their binades, and round to the same mantissa.
proof fn lemma_same_mantissa(n1: nat, d1: nat, e1: int, n2: nat, d2: nat, e2: int, f: nat)
    requires
        n1 > 0,
        d1 > 0,
        n2 > 0,
        d2 > 0,
        f > 0,
        e1 == binade(n1, d1),
        scaled_num(n2, e2) == scaled_num(n1, e1) * f,
        scaled_den(d2, e2) == scaled_den(d1, e1) * f,
    ensures
        nearest(n2, d2) == (Dyadic {
            mant: nearest(n1, d1).mant,
            exp: nearest(n1, d1).exp + e2 - e1,
        }),
{
    lemma_binade_exists(n1, d1);
    let num = scaled_num(n1, e1);
    let den = scaled_den(d1, e1);
    if e1 > 0 {
        lemma_pow2_pos(e1 as nat);
        assert(d1 * pow2(e1 as nat) > 0) by (nonlinear_arith)
            requires
                d1 > 0,
                pow2(e1 as nat) > 0,
        ;
    }
    assert(MANT_MIN * (den * f) <= num * f < MANT_END * (den * f)) by (nonlinear_arith)
        requires
            f > 0,
            MANT_MIN * den <= num < MANT_END * den,
    ;
    lemma_binade(n2, d2, e2);
    lemma_half_even_common_factor(num, den, f);
}

/// Rounding commutes with doubling: `n * 2^k / d` rounds to `2^k` times what
/// `n / d` rounds to.
pub proof fn lemma_nearest_times_power(n: nat, d: nat, k: nat)
    requires
        n > 0,
        d > 0,
    ensures
        n * pow2(k) > 0,
        nearest(n * pow2(k), d) == (Dyadic {
            mant: nearest(n, d).mant,
            exp: nearest(n, d).exp + k,
        }),
{
    lemma2_to64();
    lemma_pow2_pos(k);
    assert(n * pow2(k) > 0) by (nonlinear_arith)
        requires
            n > 0,
            pow2(k) > 0,
    ;
    let e = binade(n, d);
    let e2 = e + k;
    let p = pow2(k);
    if e >= 0 {
        lemma_pow2_adds(e as nat, k);
        let b = pow2(e as nat);
        assert(d * (b * p) == (d * b) * p) by (nonlinear_arith);
        assert(d * 1 == d && d * p == d * p);
        lemma_same_mantissa(n, d, e, n * p, d, e2, p);
    } else if e2 <= 0 {
        let b = pow2((-e2) as nat);
        lemma_pow2_adds(k, (-e2) as nat);
        assert((n * p) * b == n * (p * b)) by (nonlinear_arith);
        assert((n * p) * 1 == n * p);
        assert(scaled_num(n, e) * 1 == scaled_num(n, e));
        assert(scaled_den(d, e) * 1 == scaled_den(d, e));
        lemma_same_mantissa(n, d, e, n * p, d, e2, 1);
    } else {
        let b = pow2(e2 as nat);
        let c = pow2((-e) as nat);
        lemma_pow2_adds((-e) as nat, e2 as nat);
        lemma_pow2_pos(e2 as nat);
        assert(n * (c * b) == (n * c) * b) by (nonlinear_arith);
        lemma_same_mantissa(n, d, e, n * p, d, e2, b);
    }
}

/// Rounding commutes with halving: `n / (d * 2^k)` rounds to what `n / d`
/// rounds to, divided by `2^k`.
pub proof fn lemma_nearest_over_power(n: nat, d: nat, k: nat)
    requires
        n > 0,
        d > 0,
    ensures
        d * pow2(k) > 0,
        nearest(n, d * pow2(k)) == (Dyadic {
            mant: nearest(n, d).mant,
            exp: nearest(n, d).exp - k,
        }),
{
    lemma2_to64();
    lemma_pow2_pos(k);
    assert(d * pow2(k) > 0) by (nonlinear_arith)
        requires
            d > 0,
            pow2(k) > 0,
    ;
    let e = binade(n, d);
    let e2 = e - k;
    let p = pow2(k);
    if e <= 0 {
        lemma_pow2_adds((-e) as nat, k);
        let b = pow2((-e) as nat);
        assert(n * (b * p) == (n * b) * p) by (nonlinear_arith);
        assert(n * 1 == n);
        lemma_same_mantissa(n, d, e, n, d * p, e2, p);
    } else if e2 >= 0 {
        let b = pow2(e2 as nat);
        lemma_pow2_adds(k, e2 as nat);
        assert((d * p) * b == d * (p * b)) by (nonlinear_arith);
        assert((d * p) * 1 == d * p);
        assert(scaled_num(n, e) * 1 == scaled_num(n, e));
        assert(scaled_den(d, e) * 1 == scaled_den(d, e));
        lemma_same_mantissa(n, d, e, n, d * p, e2, 1);
    } else {
        let b = pow2((-e2) as nat);
        let c = pow2(e as nat);
        lemma_pow2_adds(e as nat, (-e2) as nat);
        lemma_pow2_pos((-e2) as nat);
        assert(d * (c * b) == (d * c) * b) by (nonlinear_arith);
        lemma_same_mantissa(n, d, e, n, d * p, e2, b);
    }
}

/// The quotient of two integers below 2^53 is their exact quotient, rounded
/// once.
pub proof fn lemma_quotient_of_integers(a: nat, b: nat)
    requires
        0 < a < MANT_END,
        0 < b < MANT_END,
    ensures
        quotient(nearest(a, 1), nearest(b, 1)) == nearest(a, b),
{
    lemma_small_integer_exact(a);
    lemma_small_integer_exact(b);
    let k = (-nearest(a, 1).exp) as nat;
    let j = (-nearest(b, 1).exp) as nat;
    lemma_nearest_over_power(a, b, j);
    lemma_nearest_times_power(a, b * pow2(j), k);
    lemma_nearest_near(a, b);
}

/// The product of two integers below 2^53 is their exact product, rounded
/// once.
pub proof fn lemma_product_of_integers(a: nat, b: nat)
    requires
        0 < a < MANT_END,
        0 < b < MANT_END,
    ensures
        product(nearest(a, 1), nearest(b, 1)) == nearest(a * b, 1),
{
    lemma_small_integer_exact(a);
    lemma_small_integer_exact(b);
    let k = (-nearest(a, 1).exp) as nat;
    let j = (-nearest(b, 1).exp) as nat;
    let x = pow2(k);
    let y = pow2(j);
    assert(a * b > 0) by (nonlinear_arith)
        requires
            a > 0,
            b > 0,
    ;
    assert((a * x) * (b * y) == (a * b) * (x * y)) by (nonlinear_arith);
    lemma_pow2_adds(k, j);
    lemma_nearest_times_power(a * b, 1, k + j);
    lemma_nearest_near(a * b, 1);
}

/// A quotient `a / u` below 2^33, printed with as many places as `u` has zeros,
/// shows exactly the digits of `a`.
pub proof fn lemma_fixed_shows_all_digits(a: nat, u: nat)
    requires
        0 < a < 0x2_0000_0000 * u,
        0 < u <= 1_000_000,
    ensures
        fixed(nearest(a, u), u) == a,
{
    let x = nearest(a, u);
    lemma_nearest_near(a, u);
    let m = x.mant;
    if x.exp >= 0 {
        let q = pow2(x.exp as nat);
        lemma_pow2_pos(x.exp as nat);
        assert(false) by (nonlinear_arith)
            requires
                q >= 1,
                u > 0,
                m >= 0x10_0000_0000_0000,
                2 * (m * (u * q) - a) <= u * q,
                a < 0x2_0000_0000 * u,
        {
            assert((2 * m - 1) * (u * q) <= 2 * a);
            assert((2 * m - 1) * (u * q) >= (2 * m - 1) * u);
        }
    }
    let p = pow2((-x.exp) as nat);
    assert(p > 0x8_0000) by (nonlinear_arith)
        requires
            a < 0x2_0000_0000 * u,
            u <= 1_000_000,
            m >= 0x10_0000_0000_0000,
            2 * (m * u - a * p) <= u,
    {
        if p <= 0x8_0000 {
            assert(a * p <= a * 0x8_0000);
            assert(m * u >= 0x10_0000_0000_0000 * u);
        }
    }
    lemma2_to64();
    lemma2_to64_rest();
    if -x.exp < 20 {
        if -x.exp < 19 {
            lemma_pow2_strictly_increases((-x.exp) as nat, 19);
        }
    } else if -x.exp > 20 {
        lemma_pow2_strictly_increases(20, (-x.exp) as nat);
    }
    lemma_half_even_is(m * u, p, a);
}

/// `k` is the integer that `(2 * m + p) / (2 * p)` rounds down to, when an exact
/// half is hit.
proof fn lemma_round_at_half(a: int, d: int, m: int, p: int, half: int, k: int)
    requires
        d > 0,
        p == 2 * half,
        -2 * d < 2 * (m * d - a * p) < 2 * d,
        2 * a + d == 2 * d * k,
    ensures
        2 * m + p == 2 * p * k,
{
    let w = 2 * half * k - half;
    assert(a * p == d * w) by (nonlinear_arith)
        requires
            2 * a + d == 2 * d * k,
            p == 2 * half,
            w == 2 * half * k - half,
    {
        assert(2 * (a * p) == (2 * d * k - d) * (2 * half));
        assert((2 * d * k - d) * (2 * half) == 2 * (d * w));
    }
    assert(m == w) by (nonlinear_arith)
        requires
            d > 0,
            -2 * d < 2 * (m * d - d * w) < 2 * d,
    {
        assert(m * d - d * w == d * (m - w));
    }
    assert(2 * p * k == 4 * (half * k)) by (nonlinear_arith)
        requires
            p == 2 * half,
    ;
    assert(2 * half * k == 2 * (half * k)) by (nonlinear_arith);
}

/// `k` is the integer that `(2 * m + p) / (2 * p)` rounds down to, away from an
/// exact half: `r` says how far.
proof fn lemma_round_off_half(a: int, d: int, m: int, p: int, k: int, r: int)
    requires
        d > 0,
        p > 0,
        2 <= r <= 2 * d - 2,
        2 * a + d == 2 * d * k + r,
        -2 * p <= 2 * (m * d - a * p) < 2 * p,
    ensures
        2 * p * k <= 2 * m + p < 2 * p * k + 2 * p,
{
    let x = 2 * p * k;
    let t = 2 * m + p;
    assert(2 * (a * p) + d * p == d * x + r * p) by (nonlinear_arith)
        requires
            2 * a + d == 2 * d * k + r,
            x == 2 * p * k,
    {
        assert((2 * a + d) * p == 2 * (a * p) + d * p);
        assert((2 * d * k + r) * p == d * (2 * p * k) + r * p);
    }
    assert(2 * p <= r * p <= 2 * (d * p) - 2 * p) by (nonlinear_arith)
        requires
            2 <= r <= 2 * d - 2,
            p > 0,
    ;
    assert(d * t == 2 * (m * d) + d * p) by (nonlinear_arith)
        requires
            t == 2 * m + p,
    ;
    assert(d * x <= d * t < d * x + 2 * (d * p));
    assert(x <= t < x + 2 * p) by (nonlinear_arith)
        requires
            d > 0,
            d * x <= d * t < d * x + 2 * (d * p),
    {
        assert(d * x + 2 * (d * p) == d * (x + 2 * p));
    }
}

/// The integer nearest to `a / d`, ties upwards, found from a mantissa `m` at
/// the scale `1 / p` that is off by less than one.
proof fn lemma_round_half_up(a: nat, d: nat, m: nat, p: nat, half: nat)
    requires
        d > 0,
        d % 2 == 0,
        p == 2 * half,
        p > 0,
        -2 * d < 2 * (m * d - a * p) < 2 * d,
        p >= d || (2 * p > d && -(d as int) <= 2 * (m * d - a * p) <= d),
    ensures
        (2 * m + p) / (2 * p) == (2 * a + d) / (2 * d),
{
    let k = (2 * a + d) / (2 * d);
    let r = (2 * a + d) % (2 * d);
    vstd::arithmetic::div_mod::lemma_fundamental_div_mod((2 * a + d) as int, (2 * d) as int);
    let h = d / 2;
    assert(2 * d * k == 4 * (h * k)) by (nonlinear_arith)
        requires
            d == 2 * h,
    ;
    assert(r % 2 == 0);
    if r == 0 {
        lemma_round_at_half(a as int, d as int, m as int, p as int, half as int, k as int);
    } else {
        lemma_round_off_half(a as int, d as int, m as int, p as int, k as int, r as int);
    }
    let rest = 2 * m + p - 2 * p * k;
    assert(2 * p * k == k * (2 * p)) by (nonlinear_arith);
    vstd::arithmetic::div_mod::lemma_fundamental_div_mod_converse(
        (2 * m + p) as int,
        (2 * p) as int,
        k as int,
        rest,
    );
}

/// A quotient by an even number `d` of at most one hundred rounds to the
/// integer nearest to it, ties upwards, as if it had been computed exactly.
pub proof fn lemma_rounded_quotient(a: nat, d: nat)
    requires
        0 < a < MANT_END - 1,
        0 < d <= 100,
        d % 2 == 0,
    ensures
        rounded(nearest(a, d)) == (2 * a + d) / (2 * d),
{
    let x = nearest(a, d);
    lemma_nearest_near(a, d);
    let m = x.mant;
    if x.exp >= 0 {
        let q = pow2(x.exp as nat);
        lemma_pow2_pos(x.exp as nat);
        assert(false) by (nonlinear_arith)
            requires
                q >= 1,
                d >= 2,
                m >= 0x10_0000_0000_0000,
                2 * (m * (d * q) - a) <= d * q,
                a < 0x1f_ffff_ffff_ffff,
        {
            assert((2 * m - 1) * (d * q) <= 2 * a);
            assert((2 * m - 1) * (d * q) >= (2 * m - 1) * 2);
        }
    }
    let p = pow2((-x.exp) as nat);
    lemma_pow2_unfold((-x.exp) as nat);
    let half = pow2((-x.exp - 1) as nat);
    lemma_pow2_pos((-x.exp - 1) as nat);
    assert(2 * p > d) by (nonlinear_arith)
        requires
            a < 0x1f_ffff_ffff_ffff,
            0 < d <= 100,
            m >= 0x10_0000_0000_0000,
            2 * (m * d - a * p) <= d,
    {
        if 2 * p <= d {
            assert(a * (2 * p) <= a * d);
            assert(m * d >= 0x10_0000_0000_0000 * d);
        }
    }
    lemma_round_half_up(a, d, m, p, half);
}

/// `n` times a fraction in `[1/2, 1)`, rounded to an integer, when the fraction
/// itself is held with a mantissa `c` that is off by `off / den`.
proof fn lemma_rounded_fraction(n: nat, num: nat, den: nat, c: nat, off: int)
    requires
        0 < n < 0x4000_0000_0000,
        0 < num < den <= 100,
        den % 2 == 0,
        nearest(num, den) == (Dyadic { mant: c, exp: -53 }),
        MANT_MIN <= c < MANT_END,
        den * c == num * MANT_END + off,
        -4 * den <= 16 * off <= 4 * den,
    ensures
        rounded(product(nearest(n, 1), nearest(num, den))) == (2 * (n * num) + den) / (2 * den),
{
    lemma_small_integer_exact(n);
    let k = (-nearest(n, 1).exp) as nat;
    let y = pow2(k);
    assert(n * c > 0) by (nonlinear_arith)
        requires
            n > 0,
            c > 0,
    ;
    assert((n * y) * c == (n * c) * y) by (nonlinear_arith);
    lemma_nearest_times_power(n * c, 1, k);
    lemma_nearest_near(n * c, 1);
    lemma2_to64();
    lemma2_to64_rest();
    lemma_nearest_over_power(n * c, 1, 53);
    let w = MANT_END as nat;
    assert(1 * w == w);
    let x = nearest(n * c, w);
    assert(product(nearest(n, 1), nearest(num, den)) == x);
    lemma_nearest_near(n * c, w);
    let m = x.mant;
    if x.exp >= 0 {
        let q = pow2(x.exp as nat);
        lemma_pow2_pos(x.exp as nat);
        assert(false) by (nonlinear_arith)
            requires
                q >= 1,
                w == 0x20_0000_0000_0000,
                m >= 0x10_0000_0000_0000,
                2 * (m * (w * q) - n * c) <= w * q,
                c < w,
                0 < n < 0x4000_0000_0000,
        {
            assert((2 * m - 1) * (w * q) <= 2 * (n * c));
            assert((2 * m - 1) * (w * q) >= (2 * m - 1) * w);
            assert(n * c <= n * w);
            assert((2 * m - 1) * w > 2 * (n * w));
        }
    }
    let p = pow2((-x.exp) as nat);
    lemma_pow2_unfold((-x.exp) as nat);
    let half = pow2((-x.exp - 1) as nat);
    lemma_pow2_pos((-x.exp - 1) as nat);
    assert(p > 64) by (nonlinear_arith)
        requires
            w == 0x20_0000_0000_0000,
            m >= 0x10_0000_0000_0000,
            2 * (m * w - n * c * p) <= w,
            c < w,
            0 < n < 0x4000_0000_0000,
    {
        if p <= 64 {
            assert(n * c * p <= n * c * 64);
            assert(n * c <= n * (w - 1));
            assert(n * (w - 1) <= 0x3fff_ffff_ffff * (w - 1));
            assert(m * w >= 0x10_0000_0000_0000 * w);
        }
    }
    if -x.exp < 7 {
        if -x.exp < 6 {
            lemma_pow2_strictly_increases((-x.exp) as nat, 6);
        }
    } else if -x.exp > 7 {
        lemma_pow2_strictly_increases(7, (-x.exp) as nat);
    }
    let np = n * p;
    assert(n * c * p == c * np) by (nonlinear_arith)
        requires
            np == n * p,
    ;
    assert(np < 2 * w) by (nonlinear_arith)
        requires
            w == 0x20_0000_0000_0000,
            m < w,
            -(w as int) <= 2 * (m * w - c * np),
            c >= 0x10_0000_0000_0000,
    {
        if np >= 2 * w {
            assert(c * np >= 0x10_0000_0000_0000 * (2 * w));
            assert(m * w <= (w - 1) * w);
        }
    }
    let a = n * num;
    assert(-2 * den < 2 * (m * den - a * p) < 2 * den) by (nonlinear_arith)
        requires
            w == 0x20_0000_0000_0000,
            0 < den,
            np == n * p,
            a == n * num,
            np < 2 * w,
            -(w as int) <= 2 * (m * w - c * np) <= w,
            den * c == num * w + off,
            -4 * den <= 16 * off <= 4 * den,
    {
        assert(a * p == num * np);
        assert(den * (c * np) == num * np * w + off * np) by {
            assert(den * (c * np) == (den * c) * np);
        }
        let t = m * den - a * p;
        assert(den * (m * w - c * np) == t * w - off * np);
        assert(-(den * w) <= 2 * (t * w - off * np) <= den * w);
        assert(-(den * np) <= 4 * (off * np) <= den * np);
        assert(den * np < den * (2 * w));
        assert(-2 * (den * w) < 2 * (t * w) < 2 * (den * w));
        assert(2 * (t * w) == (2 * t) * w);
        assert(2 * (den * w) == (2 * den) * w);
    }
    lemma_round_half_up(a, den, m, p, half);
}

/// The fractions one half, 0.9 and 0.99 as binary64 numbers.
pub proof fn lemma_known_fractions()
    ensures
        nearest(1, 2) == (Dyadic { mant: MANT_MIN as nat, exp: -53 }),
        nearest(9, 10) == (Dyadic { mant: 8106479329266893, exp: -53 }),
        nearest(99, 100) == (Dyadic { mant: 8917127262193582, exp: -53 }),
{
    lemma2_to64();
    lemma2_to64_rest();
    assert(scaled_num(1, -53) == MANT_END);
    lemma_binade(1, 2, -53);
    assert(half_even(MANT_END as nat, 2) == MANT_MIN);
    assert(scaled_num(9, -53) == 9 * MANT_END);
    lemma_binade(9, 10, -53);
    assert(half_even((9 * MANT_END) as nat, 10) == 8106479329266893);
    assert(scaled_num(99, -53) == 99 * MANT_END);
    lemma_binade(99, 100, -53);
    assert(half_even((99 * MANT_END) as nat, 100) == 8917127262193582);
}

/// `n / 2`, `n * 0.9` and `n * 0.99` in binary64, rounded to an integer, are as
/// exact as integer division.
pub proof fn lemma_rounded_fractions(n: nat)
    requires
        0 < n < 0x4000_0000_0000,
    ensures
        rounded(product(nearest(n, 1), nearest(1, 2))) == (2 * n + 2) / 4,
        rounded(product(nearest(n, 1), nearest(9, 10))) == (2 * (9 * n) + 10) / 20,
        rounded(product(nearest(n, 1), nearest(99, 100))) == (2 * (99 * n) + 100) / 200,
{
    lemma_known_fractions();
    assert(n * 1 == n);
    lemma_rounded_fraction(n, 1, 2, MANT_MIN as nat, 0);
    lemma_rounded_fraction(n, 9, 10, 8106479329266893, 2);
    lemma_rounded_fraction(n, 99, 100, 8917127262193582, -8);
}

/// Half of an integer below 2^53 in binary64, rounded to an integer, is as exact
/// as integer division.
pub proof fn lemma_rounded_half(n: nat)
    requires
        0 < n < MANT_END,
    ensures
        rounded(product(nearest(n, 1), nearest(1, 2))) == (n + 1) / 2,
{
    lemma_known_fractions();
    lemma_small_integer_exact(n);
    lemma2_to64();
    lemma2_to64_rest();
    let k = (-nearest(n, 1).exp) as nat;
    let y = pow2(k);
    lemma_pow2_pos(k);
    assert((n * y) * pow2(52) == n * (y * pow2(52))) by (nonlinear_arith);
    lemma_pow2_adds(k, 52);
    lemma_nearest_times_power(n, 1, k + 52);
    lemma_nearest_near(n, 1);
    let x = product(nearest(n, 1), nearest(1, 2));
    assert(x.mant == n * y && x.exp == -k - 1);
    lemma_pow2_unfold(k + 1);
    let a = (n + 1) as int;
    assert(2 * (n * y) + 2 * y == (2 * y) * a && 2 * (2 * y) == (2 * y) * 2) by (nonlinear_arith)
        requires
            a == n + 1,
    ;
    vstd::arithmetic::div_mod::lemma_div_multiples_vanish_quotient((2 * y) as int, a, 2);
}

/// The first number is not greater than the second one.
pub open spec fn at_most(x: Dyadic, y: Dyadic) -> bool {
    if x.exp <= y.exp {
        x.mant <= y.mant * pow2((y.exp - x.exp) as nat)
    } else {
        x.mant * pow2((x.exp - y.exp) as nat) <= y.mant
    }
}

/// Of two numbers with one exponent the mantissas give the order.
pub proof fn lemma_mantissas_ordered(x: Dyadic, y: Dyadic)
    requires
        x.exp == y.exp,
        x.mant <= y.mant,
    ensures
        at_most(x, y),
{
    lemma2_to64();
    assert(y.mant * 1 == y.mant);
}

/// Rounding to an integer keeps the order of numerators.
proof fn lemma_half_even_ordered(n1: nat, n2: nat, d: nat)
    requires
        d > 0,
        n1 <= n2,
    ensures
        half_even(n1, d) <= half_even(n2, d),
{
    if n1 < n2 {
        lemma_half_even_near(n1, d);
        lemma_half_even_near(n2, d);
        let h1 = half_even(n1, d);
        let h2 = half_even(n2, d);
        assert(h1 <= h2) by (nonlinear_arith)
            requires
                n1 < n2,
                2 * (h1 * d - n1) <= d,
                -(d as int) <= 2 * (h2 * d - n2),
        {
            if h1 >= h2 + 1 {
                assert(h1 * d >= h2 * d + d);
            }
        }
    }
}

/// Rounding to 53 bits keeps the order of numerators.
pub proof fn lemma_nearest_ordered(n1: nat, n2: nat, d: nat)
    requires
        0 < n1 <= n2,
        d > 0,
    ensures
        at_most(nearest(n1, d), nearest(n2, d)),
{
    lemma2_to64();
    lemma_binade_exists(n1, d);
    lemma_binade_exists(n2, d);
    lemma_nearest_near(n1, d);
    lemma_nearest_near(n2, d);
    let e1 = binade(n1, d);
    let e2 = binade(n2, d);
    let x = nearest(n1, d);
    let y = nearest(n2, d);
    if e1 < 0 {
        let p = pow2((-e1) as nat);
        assert(n1 * p <= n2 * p) by (nonlinear_arith)
            requires
                n1 <= n2,
        ;
    }
    lemma_binade_not_below(n2, d, e2, e1);
    if e1 == e2 {
        if e1 > 0 {
            lemma_pow2_pos(e1 as nat);
            assert(d * pow2(e1 as nat) > 0) by (nonlinear_arith)
                requires
                    d > 0,
                    pow2(e1 as nat) > 0,
            ;
        }
        lemma_half_even_ordered(scaled_num(n1, e1), scaled_num(n2, e1), scaled_den(d, e1));
        assert(half_even(scaled_num(n2, e1), scaled_den(d, e1)) <= MANT_END) by {
            if y.exp == e2 {
                assert(y.mant < MANT_END);
            }
        }
        assert(pow2(1) == 2 && pow2(0) == 1);
        assert(y.mant * 1 == y.mant && x.mant * 1 == x.mant);
    } else if x.exp <= y.exp {
        let g = pow2((y.exp - x.exp) as nat);
        lemma_pow2_pos((y.exp - x.exp) as nat);
        if x.exp == e1 {
            lemma_pow2_unfold((y.exp - x.exp) as nat);
            lemma_pow2_pos((y.exp - x.exp - 1) as nat);
            assert(g >= 2);
            assert(y.mant * g >= MANT_MIN * 2) by (nonlinear_arith)
                requires
                    y.mant >= MANT_MIN,
                    g >= 2,
            ;
        } else {
            assert(x.mant == MANT_MIN);
            assert(y.mant * g >= MANT_MIN) by (nonlinear_arith)
                requires
                    y.mant >= MANT_MIN,
                    g >= 1,
            ;
        }
    }
}

/// A common power of two does not change the order.
proof fn lemma_shift_keeps_order(x: Dyadic, y: Dyadic, k: int)
    requires
        at_most(x, y),
    ensures
        at_most(
            (Dyadic { mant: x.mant, exp: x.exp + k }),
            (Dyadic { mant: y.mant, exp: y.exp + k }),
        ),
{
}

/// Of two ordered dividends the quotients by one number are ordered.
pub proof fn lemma_quotient_ordered(x: Dyadic, y: Dyadic, c: Dyadic)
    requires
        x.mant > 0,
        y.mant > 0,
        c.mant > 0,
        at_most(x, y),
    ensures
        at_most(quotient(x, c), quotient(y, c)),
{
    lemma_nearest_near(x.mant, c.mant);
    lemma_nearest_near(y.mant, c.mant);
    if x.exp <= y.exp {
        let s = (y.exp - x.exp) as nat;
        lemma_nearest_times_power(y.mant, c.mant, s);
        lemma_nearest_ordered(x.mant, y.mant * pow2(s), c.mant);
        lemma_shift_keeps_order(
            nearest(x.mant, c.mant),
            nearest(y.mant * pow2(s), c.mant),
            x.exp - c.exp,
        );
    } else {
        let s = (x.exp - y.exp) as nat;
        lemma_nearest_times_power(x.mant, c.mant, s);
        lemma_nearest_ordered(x.mant * pow2(s), y.mant, c.mant);
        lemma_shift_keeps_order(
            nearest(x.mant * pow2(s), c.mant),
            nearest(y.mant, c.mant),
            y.exp - c.exp,
        );
    }
}

/// The order of two factors does not matter.
pub proof fn lemma_product_commutes(a: Dyadic, b: Dyadic)
    ensures
        product(a, b) == product(b, a),
{
    assert(a.mant * b.mant == b.mant * a.mant) by (nonlinear_arith);
}

/// Of two ordered factors the products with one number are ordered.
pub proof fn lemma_product_ordered(a: Dyadic, b1: Dyadic, b2: Dyadic)
    requires
        a.mant > 0,
        b1.mant > 0,
        b2.mant > 0,
        at_most(b1, b2),
    ensures
        at_most(product(a, b1), product(a, b2)),
        product(a, b1).mant > 0,
        product(a, b2).mant > 0,
{
    let m = a.mant;
    let n1 = m * b1.mant;
    let n2 = m * b2.mant;
    assert(n1 > 0 && n2 > 0) by (nonlinear_arith)
        requires
            m > 0,
            b1.mant > 0,
            b2.mant > 0,
            n1 == m * b1.mant,
            n2 == m * b2.mant,
    ;
    lemma_nearest_near(n1, 1);
    lemma_nearest_near(n2, 1);
    if b1.exp <= b2.exp {
        let s = (b2.exp - b1.exp) as nat;
        let f = pow2(s);
        assert(n1 <= n2 * f) by (nonlinear_arith)
            requires
                b1.mant <= b2.mant * f,
                n1 == m * b1.mant,
                n2 == m * b2.mant,
        ;
        lemma_nearest_times_power(n2, 1, s);
        lemma_nearest_ordered(n1, n2 * f, 1);
        lemma_shift_keeps_order(nearest(n1, 1), nearest(n2 * f, 1), a.exp + b1.exp);
    } else {
        let s = (b1.exp - b2.exp) as nat;
        let f = pow2(s);
        assert(n1 * f <= n2) by (nonlinear_arith)
            requires
                b1.mant * f <= b2.mant,
                n1 == m * b1.mant,
                n2 == m * b2.mant,
        ;
        lemma_nearest_times_power(n1, 1, s);
        lemma_nearest_ordered(n1 * f, n2, 1);
        lemma_shift_keeps_order(nearest(n1 * f, 1), nearest(n2, 1), a.exp + b2.exp);
    }
}

/// A number over itself is one: multiplying by it changes no small integer.
pub proof fn lemma_whole_of_integer(x: Dyadic, p: nat)
    requires
        x.mant > 0,
        0 < p < MANT_END,
    ensures
        quotient(x, x).mant > 0,
        product(nearest(p, 1), quotient(x, x)) == nearest(p, 1),
{
    let m = x.mant;
    lemma2_to64_rest();
    assert(pow2(52) == MANT_MIN);
    assert(MANT_MIN * m <= m * pow2(52) < MANT_END * m) by (nonlinear_arith)
        requires
            pow2(52) == MANT_MIN,
            m > 0,
    ;
    lemma_binade(m, m, -52);
    assert(-(m as int) < 2 * (MANT_MIN * m - m * pow2(52)) < m) by (nonlinear_arith)
        requires
            pow2(52) == MANT_MIN,
            m > 0,
    ;
    lemma_half_even_is(m * pow2(52), m, MANT_MIN as nat);
    lemma_small_integer_exact(p);
    let j = (-nearest(p, 1).exp) as nat;
    assert((p * pow2(j)) * pow2(52) == p * (pow2(j) * pow2(52))) by (nonlinear_arith);
    lemma_pow2_adds(j, 52);
    lemma_nearest_times_power(p, 1, j + 52);
    lemma_nearest_near(p, 1);
}

/// The product with a small integer is the product with its plain value.
pub proof fn lemma_product_with_integer(a: Dyadic, p: nat)
    requires
        a.mant > 0,
        0 < p < MANT_END,
    ensures
        product(a, nearest(p, 1)) == product(a, (Dyadic { mant: p, exp: 0 })),
{
    lemma_small_integer_exact(p);
    let j = (-nearest(p, 1).exp) as nat;
    let y = pow2(j);
    assert(a.mant * (p * y) == (a.mant * p) * y) by (nonlinear_arith);
    assert(a.mant * p > 0) by (nonlinear_arith)
        requires
            a.mant > 0,
            p > 0,
    ;
    lemma_nearest_times_power(a.mant * p, 1, j);
    lemma_nearest_near(a.mant * p, 1);
}

/// Rounding half up, read at a finer scale.
proof fn lemma_rounded_at(x: Dyadic, k: nat)
    requires
        x.exp + k >= 0,
    ensures
        rounded(x) == (2 * (x.mant * pow2((x.exp + k) as nat)) + pow2(k)) / (2 * pow2(k)),
{
    let m = x.mant;
    let p = pow2(k);
    lemma_pow2_pos(k);
    if x.exp >= 0 {
        let q = pow2(x.exp as nat);
        lemma_pow2_adds(x.exp as nat, k);
        let r = m * q;
        assert(2 * (m * (q * p)) + p == r * (2 * p) + p) by (nonlinear_arith)
            requires
                r == m * q,
        ;
        vstd::arithmetic::div_mod::lemma_fundamental_div_mod_converse(
            (2 * (m * (q * p)) + p) as int,
            (2 * p) as int,
            r as int,
            p as int,
        );
    } else {
        let h = pow2((-x.exp) as nat);
        let f = pow2((x.exp + k) as nat);
        lemma_pow2_pos((-x.exp) as nat);
        lemma_pow2_pos((x.exp + k) as nat);
        lemma_pow2_adds((-x.exp) as nat, (x.exp + k) as nat);
        let n = (2 * m + h) as int;
        let d = (2 * h) as int;
        assert(2 * (m * f) + h * f == n * f && 2 * (h * f) == d * f) by (nonlinear_arith)
            requires
                n == 2 * m + h,
                d == 2 * h,
        ;
        vstd::arithmetic::div_mod::lemma_div_multiples_vanish_quotient(f as int, n, d);
        assert(n * f == f * n && d * f == f * d) by (nonlinear_arith);
    }
}

/// Read at one scale, two ordered numbers are ordered integers.
proof fn lemma_ordered_at(x: Dyadic, y: Dyadic, k: nat)
    requires
        at_most(x, y),
        x.exp + k >= 0,
        y.exp + k >= 0,
    ensures
        x.mant * pow2((x.exp + k) as nat) <= y.mant * pow2((y.exp + k) as nat),
{
    if x.exp <= y.exp {
        let s = (y.exp - x.exp) as nat;
        let f = pow2((x.exp + k) as nat);
        let g = pow2(s);
        lemma_pow2_adds(s, (x.exp + k) as nat);
        assert(x.mant * f <= y.mant * (g * f)) by (nonlinear_arith)
            requires
                x.mant <= y.mant * g,
        ;
    } else {
        let s = (x.exp - y.exp) as nat;
        let f = pow2((y.exp + k) as nat);
        let g = pow2(s);
        lemma_pow2_adds(s, (y.exp + k) as nat);
        assert(x.mant * (g * f) <= y.mant * f) by (nonlinear_arith)
            requires
                x.mant * g <= y.mant,
        ;
    }
}

/// A scale at which both numbers are integers.
spec fn common_scale(x: Dyadic, y: Dyadic) -> nat {
    let low = if x.exp <= y.exp {
        x.exp
    } else {
        y.exp
    };
    if low < 0 {
        (-low) as nat
    } else {
        0
    }
}

/// Rounding half up keeps the order.
pub proof fn lemma_rounded_ordered(x: Dyadic, y: Dyadic)
    requires
        at_most(x, y),
    ensures
        rounded(x) <= rounded(y),
{
    let k = common_scale(x, y);
    lemma_rounded_at(x, k);
    lemma_rounded_at(y, k);
    let p = pow2(k);
    lemma_pow2_pos(k);
    let a = x.mant * pow2((x.exp + k) as nat);
    let b = y.mant * pow2((y.exp + k) as nat);
    lemma_ordered_at(x, y, k);
    vstd::arithmetic::div_mod::lemma_div_is_ordered(
        (2 * a + p) as int,
        (2 * b + p) as int,
        (2 * p) as int,
    );
}

/// A decimal print, read at a finer scale.
proof fn lemma_fixed_at(x: Dyadic, scale: nat, k: nat)
    requires
        x.exp + k >= 0,
    ensures
        fixed(x, scale) == half_even(x.mant * pow2((x.exp + k) as nat) * scale, pow2(k)),
{
    let m = x.mant;
    let p = pow2(k);
    lemma_pow2_pos(k);
    if x.exp >= 0 {
        let q = pow2(x.exp as nat);
        lemma_pow2_adds(x.exp as nat, k);
        let v = m * scale * q;
        assert(m * (q * p) * scale == v * p) by (nonlinear_arith)
            requires
                v == m * scale * q,
        ;
        lemma_half_even_is(v * p, p, v);
    } else {
        let h = pow2((-x.exp) as nat);
        let f = pow2((x.exp + k) as nat);
        lemma_pow2_pos((-x.exp) as nat);
        lemma_pow2_pos((x.exp + k) as nat);
        lemma_pow2_adds((-x.exp) as nat, (x.exp + k) as nat);
        assert(m * f * scale == (m * scale) * f) by (nonlinear_arith);
        lemma_half_even_common_factor(m * scale, h, f);
    }
}

/// A decimal print keeps the order.
pub proof fn lemma_fixed_ordered(x: Dyadic, y: Dyadic, scale: nat)
    requires
        at_most(x, y),
    ensures
        fixed(x, scale) <= fixed(y, scale),
{
    let k = common_scale(x, y);
    lemma_fixed_at(x, scale, k);
    lemma_fixed_at(y, scale, k);
    lemma_ordered_at(x, y, k);
    lemma_pow2_pos(k);
    let a = x.mant * pow2((x.exp + k) as nat);
    let b = y.mant * pow2((y.exp + k) as nat);
    assert(a * scale <= b * scale) by (nonlinear_arith)
        requires
            a <= b,
    ;
    lemma_half_even_ordered(a * scale, b * scale, pow2(k));
}

/// A decimal print of a small integer shows the integer.
pub proof fn lemma_fixed_integer(n: nat, scale: nat)
    requires
        0 < n < MANT_END,
    ensures
        fixed(nearest(n, 1), scale) == n * scale,
{
    lemma2_to64();
    lemma_small_integer_exact(n);
    let j = (-nearest(n, 1).exp) as nat;
    let p = pow2(j);
    lemma_pow2_pos(j);
    let v = n * scale;
    assert(n * p * scale == v * p) by (nonlinear_arith)
        requires
            v == n * scale,
    ;
    if j > 0 {
        lemma_half_even_is(v * p, p, v);
    } else {
        assert(v * 1 == v);
    }
}

/// The mantissa and the exponent of an integer from 2^52 up to 2^63.
proof fn lemma_long_integer(a: nat)
    requires
        0x10_0000_0000_0000 <= a < 0x8000_0000_0000_0000,
    ensures
        MANT_MIN <= nearest(a, 1).mant < MANT_END,
        0 <= nearest(a, 1).exp <= 11,
        ({
            let p = pow2(nearest(a, 1).exp as nat);
            &&& 1 <= p <= 2048
            &&& -(p as int) <= 2 * (nearest(a, 1).mant * p - a) <= p
        }),
{
    lemma_nearest_near(a, 1);
    lemma2_to64();
    let x = nearest(a, 1);
    let m = x.mant;
    if x.exp < 0 {
        let p = pow2((-x.exp) as nat);
        lemma_pow2_unfold((-x.exp) as nat);
        lemma_pow2_pos((-x.exp - 1) as nat);
        assert(false) by (nonlinear_arith)
            requires
                p >= 2,
                a >= 0x10_0000_0000_0000,
                m < 0x20_0000_0000_0000,
                -1 <= 2 * (m * 1 - a * p),
        {
            assert(a * p >= 0x10_0000_0000_0000 * 2);
        }
    }
    let p = pow2(x.exp as nat);
    lemma_pow2_pos(x.exp as nat);
    assert(1 * p == p);
    assert(p <= 2048) by (nonlinear_arith)
        requires
            2 * (m * p - a) <= p,
            m >= 0x10_0000_0000_0000,
            a < 0x8000_0000_0000_0000,
    {
        assert((2 * m - 1) * p <= 2 * a);
        if p >= 2049 {
            assert((2 * m - 1) * p >= 0x1f_ffff_ffff_ffff * 2049);
        }
    }
    if x.exp > 11 {
        lemma_pow2_strictly_increases(11, x.exp as nat);
    }
}

/// A number of 2^52 nanoseconds or more, printed as milliseconds, is at most
/// three microseconds off.
pub proof fn lemma_fixed_of_long(a: nat)
    requires
        0x10_0000_0000_0000 <= a < 0x8000_0000_0000_0000,
    ensures
        -3_000 <= fixed(quotient(nearest(a, 1), nearest(1_000_000, 1)), 1_000_000) - a <= 3_000,
{
    lemma_long_integer(a);
    let x = nearest(a, 1);
    let m = x.mant;
    let e = x.exp as nat;
    let g = pow2(e);
    let u = 1_000_000nat;
    lemma_small_integer_exact(u);
    let j = (-nearest(u, 1).exp) as nat;
    lemma_nearest_over_power(m, u, j);
    lemma_nearest_near(m, u);
    let y = nearest(m, u);
    let n = y.mant;
    assert(quotient(x, nearest(u, 1)) == (Dyadic { mant: n, exp: y.exp + e }));
    lemma2_to64();
    lemma2_to64_rest();
    if y.exp >= 0 {
        let q = pow2(y.exp as nat);
        lemma_pow2_pos(y.exp as nat);
        assert(false) by (nonlinear_arith)
            requires
                q >= 1,
                u == 1_000_000,
                n >= 0x10_0000_0000_0000,
                2 * (n * (u * q) - m) <= u * q,
                m < 0x20_0000_0000_0000,
        {
            assert((2 * n - 1) * (u * q) <= 2 * m);
            assert((2 * n - 1) * (u * q) >= (2 * n - 1) * u);
        }
    }
    let p = pow2((-y.exp) as nat);
    assert(p > 0x4_0000) by (nonlinear_arith)
        requires
            u == 1_000_000,
            n >= 0x10_0000_0000_0000,
            2 * (n * u - m * p) <= u,
            m < 0x20_0000_0000_0000,
    {
        if p <= 0x4_0000 {
            assert(m * p <= m * 0x4_0000);
            assert(n * u >= 0x10_0000_0000_0000 * u);
        }
    }
    if -y.exp <= 18 {
        if -y.exp < 18 {
            lemma_pow2_strictly_increases((-y.exp) as nat, 18);
        }
    }
    assert(-y.exp >= 19);
    let k = (-y.exp - e) as nat;
    let h = pow2(k);
    lemma_pow2_adds(k, e);
    if k > 8 {
        lemma_pow2_strictly_increases(8, k);
    }
    assert(h >= 256);
    let f = half_even(n * u, h);
    lemma_half_even_near(n * u, h);
    assert(fixed(quotient(x, nearest(u, 1)), u) == f);
    assert(-3_000 <= f - a <= 3_000) by (nonlinear_arith)
        requires
            u == 1_000_000,
            h >= 256,
            1 <= g <= 2048,
            p == h * g,
            -(h as int) <= 2 * (f * h - n * u) <= h,
            -(u as int) <= 2 * (n * u - m * p) <= u,
            -(g as int) <= 2 * (m * g - a) <= g,
    {
        let w = m * g;
        assert(m * p == w * h);
        let d = f - w;
        assert(2 * (f * h) - 2 * (w * h) == 2 * (d * h));
        assert(-(h + 1_000_000) <= 2 * (d * h) <= h + 1_000_000);
        if d > 1960 {
            assert(d * h >= 1961 * h);
        }
        if d < -1960 {
            assert(d * h <= -1961 * h);
        }
    }
}

/// A part of a total as a percentage, printed with one place: at most half a unit
/// of the last place off, but for a trace.
pub proof fn lemma_percentage_near(c: nat, t: nat)
    requires
        0 < c <= t < MANT_END,
    ensures
        ({
            let f = fixed(product(quotient(nearest(c, 1), nearest(t, 1)), nearest(100, 1)), 10);
            &&& 2 * 0x10_0000_0000 * (f * t - 1_000 * c) <= 0x10_0000_0001 * t
            &&& -(0x10_0000_0001 * t) <= 2 * 0x10_0000_0000 * (f * t - 1_000 * c)
        }),
{
    lemma2_to64();
    lemma2_to64_rest();
    lemma_quotient_of_integers(c, t);
    let q = nearest(c, t);
    lemma_nearest_near(c, t);
    let m = q.mant;
    lemma_product_with_integer(q, 100);
    if q.exp >= 0 {
        let g = pow2(q.exp as nat);
        lemma_pow2_pos(q.exp as nat);
        assert(false) by (nonlinear_arith)
            requires
                g >= 1,
                0 < c <= t,
                m >= 0x10_0000_0000_0000,
                2 * (m * (t * g) - c) <= t * g,
        {
            assert((2 * m - 1) * (t * g) <= 2 * c);
            assert((2 * m - 1) * (t * g) >= (2 * m - 1) * t);
        }
    }
    let p = pow2((-q.exp) as nat);
    assert(p > 0x8_0000_0000_0000) by (nonlinear_arith)
        requires
            0 < c <= t,
            m >= 0x10_0000_0000_0000,
            2 * (m * t - c * p) <= t,
    {
        if p <= 0x8_0000_0000_0000 {
            assert(c * p <= t * p);
            assert(t * p <= t * 0x8_0000_0000_0000);
            assert(m * t >= 0x10_0000_0000_0000 * t);
        }
    }
    assert(pow2(51) == 0x8_0000_0000_0000);
    if -q.exp < 51 {
        lemma_pow2_strictly_increases((-q.exp) as nat, 51);
    }
    assert(-q.exp > 51);
    if -q.exp > 52 {
        lemma_pow2_strictly_increases(52, (-q.exp) as nat);
    }
    assert(p >= 0x10_0000_0000_0000);
    let n = m * 100;
    assert(n < 0x8000_0000_0000_0000);
    lemma_long_integer(n);
    let y = nearest(n, 1);
    let k = y.mant;
    let e = y.exp as nat;
    let g = pow2(e);
    assert(q.exp + 0 == q.exp);
    assert(product(q, (Dyadic { mant: 100, exp: 0 })) == (Dyadic { mant: k, exp: e + q.exp }));
    let r = (-q.exp - e) as nat;
    let h = pow2(r);
    lemma_pow2_adds(r, e);
    lemma_pow2_pos(r);
    let f = half_even(k * 10, h);
    lemma_half_even_near(k * 10, h);
    assert(fixed((Dyadic { mant: k, exp: e + q.exp }), 10) == f);
    // All three roundings, read at the scale `p`.
    assert(-(p as int) <= 2 * (f * p - 10 * (k * g)) <= p) by (nonlinear_arith)
        requires
            p == h * g,
            g >= 1,
            -(h as int) <= 2 * (f * h - k * 10) <= h,
    {
        let d = f * h - k * 10;
        assert(f * p - 10 * (k * g) == d * g);
        assert(2 * d * g <= h * g);
        assert(-(h * g) <= 2 * d * g);
    }
    assert(-20_480 <= 2 * (10 * (k * g) - 1_000 * m) <= 20_480);
    let d = f * p - 1_000 * m;
    assert(-(p + 20_480) <= 2 * d <= p + 20_480);
    let z = f * t - 1_000 * c;
    assert(-(p * t + 21_480 * t) <= 2 * (z * p) <= p * t + 21_480 * t) by (nonlinear_arith)
        requires
            d == f * p - 1_000 * m,
            z == f * t - 1_000 * c,
            -(p + 20_480) <= 2 * d <= p + 20_480,
            -(t as int) <= 2 * (m * t - c * p) <= t,
            t > 0,
    {
        assert(z * p == d * t + 1_000 * (m * t - c * p));
        assert(2 * d * t <= (p + 20_480) * t);
        assert(-((p + 20_480) * t) <= 2 * d * t);
    }
    let w = 0x10_0000_0000int;
    assert(2 * w * z <= (w + 1) * t && -((w + 1) * t) <= 2 * w * z) by (nonlinear_arith)
        requires
            w == 0x10_0000_0000,
            p >= 0x10_0000_0000_0000,
            t > 0,
            -(p * t + 21_480 * t) <= 2 * (z * p) <= p * t + 21_480 * t,
    {
        let x = 2 * w * z;
        let y = (w + 1) * t;
        assert(21_480 * w * t <= p * t);
        assert(x * p == w * (2 * (z * p)));
        assert(y * p == w * (p * t) + p * t);
        assert(w * (p * t + 21_480 * t) == w * (p * t) + 21_480 * w * t);
        assert(w * (2 * (z * p)) <= w * (p * t + 21_480 * t));
        assert(-(w * (p * t + 21_480 * t)) <= w * (2 * (z * p)));
        assert(-(y * p) <= x * p <= y * p);
        if x > y {
            assert(x * p >= (y + 1) * p);
        }
        if x < -y {
            assert(x * p <= (-y - 1) * p);
        }
    }
}

/// `h` is `n / d` rounded to an integer: none lies nearer, and of two that lie
/// equally near it is the even one.
pub open spec fn rounds_to(n: nat, d: nat, h: nat) -> bool {
    &&& -(d as int) <= 2 * (h * d - n) <= d
    &&& 2 * (h * d - n) == d || 2 * (h * d - n) == -(d as int) ==> h % 2 == 0
}

/// Rounding to an integer takes the nearest one, of two the even one.
pub proof fn law_half_even(n: nat, d: nat)
    requires
        d > 0,
    ensures
        rounds_to(n, d, half_even(n, d)),
{
    lemma_half_even_near(n, d);
    let q = n / d;
    let r = n % d;
    let h = half_even(n, d);
    vstd::arithmetic::div_mod::lemma_fundamental_div_mod(n as int, d as int);
    vstd::arithmetic::div_mod::lemma_mod_bound(n as int, d as int);
    assert(q * d == d * q && (q + 1) * d == d * q + d) by (nonlinear_arith);
    if h == q {
        assert(2 * (h * d - n) == -2 * r);
    } else {
        assert(2 * (h * d - n) == 2 * d - 2 * r);
    }
}

/// A binary64 number is the quotient rounded to 53 binary digits: in units of
/// `2^e`, where it has 53 of them in front of the point, it is the nearest
/// integer, of two the even one.
pub proof fn law_nearest(n: nat, d: nat) -> (r: (int, nat))
    requires
        n > 0,
        d > 0,
    ensures
        ({
            let (e, m) = r;
            let up = if e < 0 {
                pow2((-e) as nat)
            } else {
                1
            };
            let down = if e < 0 {
                1
            } else {
                pow2(e as nat)
            };
            &&& 0x10_0000_0000_0000 * (d * down) <= n * up < 0x20_0000_0000_0000 * (d * down)
            &&& rounds_to(n * up, d * down, m)
            &&& m < 0x20_0000_0000_0000 ==> nearest(n, d) == (Dyadic { mant: m, exp: e })
            &&& m >= 0x20_0000_0000_0000 ==> m == 0x20_0000_0000_0000 && nearest(n, d) == (Dyadic {
                mant: 0x10_0000_0000_0000,
                exp: e + 1,
            })
        }),
{
    lemma_binade_exists(n, d);
    lemma2_to64();
    let e = binade(n, d);
    let num = scaled_num(n, e);
    let den = scaled_den(d, e);
    let m = half_even(num, den);
    assert(n * 1 == n && d * 1 == d);
    if e > 0 {
        lemma_pow2_pos(e as nat);
        assert(d * pow2(e as nat) > 0) by (nonlinear_arith)
            requires
                d > 0,
                pow2(e as nat) > 0,
        ;
    }
    law_half_even(num, den);
    assert(m <= MANT_END) by (nonlinear_arith)
        requires
            den > 0,
            num < MANT_END * den,
            2 * (m * den - num) <= den,
    ;
    (e, m)
}

/// Zero stays zero. Products and quotients of binary64 numbers are the exact ones
/// of the mantissas, rounded once; the exponents are added or subtracted.
pub proof fn law_arithmetic(a: Dyadic, b: Dyadic)
    requires
        b.mant > 0,
    ensures
        nearest(0, 1).mant == 0,
        a.mant == 0 ==> product(a, b).mant == 0 && quotient(a, b).mant == 0,
        a.mant > 0 ==> product(a, b).mant == nearest(a.mant * b.mant, 1).mant && product(a, b).exp
            == nearest(a.mant * b.mant, 1).exp + a.exp + b.exp,
        a.mant > 0 ==> quotient(a, b).mant == nearest(a.mant, b.mant).mant && quotient(a, b).exp
            == nearest(a.mant, b.mant).exp + a.exp - b.exp,
{
    if a.mant == 0 {
        assert(a.mant * b.mant == 0) by (nonlinear_arith)
            requires
                a.mant == 0,
        ;
    } else {
        assert(a.mant * b.mant > 0) by (nonlinear_arith)
            requires
                a.mant > 0,
                b.mant > 0,
        ;
        lemma_nearest_near(a.mant * b.mant, 1);
        lemma_nearest_near(a.mant, b.mant);
    }
}

/// A decimal print shows the nearest number with its places, of two the even
/// one.
pub proof fn law_fixed(x: Dyadic, scale: nat)
    ensures
        x.exp < 0 ==> rounds_to(x.mant * scale, pow2((-x.exp) as nat), fixed(x, scale)),
        x.exp >= 0 ==> fixed(x, scale) == (x.mant * pow2(x.exp as nat)) * scale,
{
    if x.exp < 0 {
        lemma_pow2_pos((-x.exp) as nat);
        law_half_even(x.mant * scale, pow2((-x.exp) as nat));
    } else {
        let m = x.mant;
        let p = pow2(x.exp as nat);
        assert(m * scale * p == (m * p) * scale) by (nonlinear_arith);
    }
}

/// Rounding to a position takes the nearest integer, of two the greater one.
pub proof fn law_rounded(x: Dyadic)
    ensures
        x.exp < 0 ==> {
            let p = pow2((-x.exp) as nat);
            -(p as int) < 2 * (rounded(x) * p - x.mant) <= p
        },
        x.exp >= 0 ==> rounded(x) == x.mant * pow2(x.exp as nat),
{
    if x.exp < 0 {
        let p = pow2((-x.exp) as nat) as int;
        lemma_pow2_pos((-x.exp) as nat);
        let n = 2 * x.mant + p;
        let q = n / (2 * p);
        let r = n % (2 * p);
        vstd::arithmetic::div_mod::lemma_fundamental_div_mod(n, 2 * p);
        vstd::arithmetic::div_mod::lemma_mod_bound(n, 2 * p);
        assert((2 * p) * q == 2 * (q * p)) by (nonlinear_arith);
    }
}

/// A small integer is rounded to itself.
pub proof fn lemma_rounded_integer(n: nat)
    requires
        0 < n < MANT_END,
    ensures
        rounded(nearest(n, 1)) == n,
{
    lemma2_to64();
    lemma_small_integer_exact(n);
    let x = nearest(n, 1);
    let p = pow2((-x.exp) as nat) as int;
    lemma_pow2_pos((-x.exp) as nat);
    if x.exp < 0 {
        assert(2 * (n * p) + p == n * (2 * p) + p) by (nonlinear_arith);
        vstd::arithmetic::div_mod::lemma_fundamental_div_mod_converse(
            2 * (n * p) + p,
            2 * p,
            n as int,
            p,
        );
    } else {
        assert(n * 1 == n);
    }
}

} // verus!
