//! Non-negative binary64 arithmetic on integers.
//!
//! A number is a mantissa and a power of two. Every operation takes the exact
//! rational result and rounds it once to 53 significant bits, to nearest and
//! ties to even. Exponents stay far inside the range of the format here, so
//! neither subnormal numbers nor infinities occur.

use vstd::prelude::*;
use vstd::arithmetic::power2::*;

verus! {

/// 2^52, the least mantissa of a normalised number.
pub const MANT_MIN: u64 = 0x10_0000_0000_0000;

/// 2^53, the first mantissa that needs another bit.
pub const MANT_END: u64 = 0x20_0000_0000_0000;

/// The number `mant * 2^exp`.
#[verifier::ext_equal]
pub struct Dyadic {
    pub mant: nat,
    pub exp: int,
}

/// `n / d` rounded to the nearest integer, ties to the even one.
pub open spec fn half_even(n: nat, d: nat) -> nat {
    let q = n / d;
    let r = n % d;
    if 2 * r < d || (2 * r == d && q % 2 == 0) {
        q
    } else {
        q + 1
    }
}

/// Numerator of `(n / d) / 2^e` as a quotient of integers.
pub open spec fn scaled_num(n: nat, e: int) -> nat {
    if e < 0 {
        n * pow2((-e) as nat)
    } else {
        n
    }
}

/// Denominator of `(n / d) / 2^e` as a quotient of integers.
pub open spec fn scaled_den(d: nat, e: int) -> nat {
    if e > 0 {
        d * pow2(e as nat)
    } else {
        d
    }
}

/// `n / d` lies in `[2^52 * 2^e, 2^53 * 2^e)`.
pub open spec fn in_binade(n: nat, d: nat, e: int) -> bool {
    MANT_MIN * scaled_den(d, e) <= scaled_num(n, e) < MANT_END * scaled_den(d, e)
}

/// The exponent that gives `n / d` a mantissa of 53 bits.
pub open spec fn binade(n: nat, d: nat) -> int {
    choose|e: int| in_binade(n, d, e)
}

/// The binary64 number nearest to `n / d`.
pub open spec fn nearest(n: nat, d: nat) -> Dyadic {
    if n == 0 {
        Dyadic { mant: 0, exp: 0 }
    } else {
        let e = binade(n, d);
        let m = half_even(scaled_num(n, e), scaled_den(d, e));
        if m == MANT_END {
            Dyadic { mant: MANT_MIN as nat, exp: e + 1 }
        } else {
            Dyadic { mant: m, exp: e }
        }
    }
}

/// `x * 2^k`, which is exact.
pub open spec fn shifted(x: Dyadic, k: int) -> Dyadic {
    if x.mant == 0 {
        x
    } else {
        Dyadic { mant: x.mant, exp: x.exp + k }
    }
}

/// The product of two numbers.
pub open spec fn product(a: Dyadic, b: Dyadic) -> Dyadic {
    shifted(nearest(a.mant * b.mant, 1), a.exp + b.exp)
}

/// The quotient of two numbers; `b` is not zero.
pub open spec fn quotient(a: Dyadic, b: Dyadic) -> Dyadic {
    shifted(nearest(a.mant, b.mant), a.exp - b.exp)
}

/// `x * scale` rounded to the nearest integer, ties to even: with a scale of
/// `10^k`, the digits that a decimal print with `k` places shows.
pub open spec fn fixed(x: Dyadic, scale: nat) -> nat {
    if x.exp >= 0 {
        x.mant * scale * pow2(x.exp as nat)
    } else {
        half_even(x.mant * scale, pow2((-x.exp) as nat))
    }
}

/// `x` rounded to the nearest integer, ties upwards.
pub open spec fn rounded(x: Dyadic) -> nat {
    if x.exp >= 0 {
        x.mant * pow2(x.exp as nat)
    } else {
        (2 * x.mant + pow2((-x.exp) as nat)) / (2 * pow2((-x.exp) as nat))
    }
}

/// A quotient below the end of one binade and not below the start of another:
/// the first is not the lower of the two.
pub proof fn lemma_binade_not_below(n: nat, d: nat, e1: int, e2: int)
    requires
        n > 0,
        d > 0,
        scaled_num(n, e1) < MANT_END * scaled_den(d, e1),
        MANT_MIN * scaled_den(d, e2) <= scaled_num(n, e2),
    ensures
        e1 >= e2,
{
    // Multiply both readings out to one numerator and one denominator.
    let p = if e1 < 0 { (-e1) as nat } else { 0 };
    let q = if e1 > 0 { e1 as nat } else { 0 };
    let r = if e2 < 0 { (-e2) as nat } else { 0 };
    let s = if e2 > 0 { e2 as nat } else { 0 };
    lemma_pow2_pos(p);
    lemma_pow2_pos(q);
    lemma_pow2_pos(r);
    lemma_pow2_pos(s);
    assert(pow2(0) == 1) by {
        lemma2_to64();
    }
    let a = pow2(p);
    let b = pow2(q);
    let c = pow2(r);
    let f = pow2(s);
    assert(n * 1 == n && d * 1 == d);
    assert(n * a < MANT_END * (d * b));
    assert(MANT_MIN * (d * f) <= n * c);
    assert(a * f < 2 * (b * c)) by (nonlinear_arith)
        requires
            n > 0,
            d > 0,
            a > 0,
            b > 0,
            c > 0,
            f > 0,
            n * a < MANT_END * (d * b),
            MANT_MIN * (d * f) <= n * c,
            MANT_END == 2 * MANT_MIN,
            MANT_MIN > 0,
    {
        assert(n * a * c < MANT_END * (d * b) * c);
        assert(MANT_MIN * (d * f) * a <= n * c * a);
        assert(n * a * c == n * c * a);
        assert(MANT_MIN * (d * f) * a == MANT_MIN * d * (a * f));
        assert(MANT_END * (d * b) * c == MANT_MIN * d * (2 * (b * c)));
    }
    lemma_pow2_adds(p, s);
    lemma_pow2_adds(q, r);
    lemma_pow2_unfold((q + r + 1) as nat);
    if p + s > q + r + 1 {
        lemma_pow2_strictly_increases((q + r + 1) as nat, p + s);
    }
}

/// The exponent of `n / d` is the only one whose binade holds it.
pub proof fn lemma_binade(n: nat, d: nat, e: int)
    requires
        n > 0,
        d > 0,
        in_binade(n, d, e),
    ensures
        binade(n, d) == e,
{
    let c = binade(n, d);
    assert(in_binade(n, d, c));
    if c < e {
        lemma_binade_not_below(n, d, c, e);
    } else if e < c {
        lemma_binade_not_below(n, d, e, c);
    }
}

/// A number in hand: zero, or a mantissa of exactly 53 bits.
#[derive(Clone, Copy)]
pub struct Binary64 {
    mant: u64,
    exp: i32,
}

impl View for Binary64 {
    type V = Dyadic;

    closed spec fn view(&self) -> Dyadic {
        Dyadic { mant: self.mant as nat, exp: self.exp as int }
    }
}

/// The mantissa is normalised, or the number is zero.
pub open spec fn normal(x: Dyadic) -> bool {
    ||| x.mant == 0 && x.exp == 0
    ||| MANT_MIN <= x.mant < MANT_END
}

proof fn lemma_pow2_order(k: nat, j: nat)
    requires
        pow2(k) < pow2(j),
    ensures
        k < j,
{
    if j < k {
        lemma_pow2_strictly_increases(j, k);
    }
}

proof fn lemma_pow2_wide()
    ensures
        pow2(0) == 1,
        pow2(1) == 2,
        pow2(52) == MANT_MIN,
        pow2(53) == MANT_END,
        pow2(56) == 0x100_0000_0000_0000,
        pow2(107) == 0x800_0000_0000_0000_0000_0000_0000,
{
    lemma2_to64();
    lemma2_to64_rest();
    lemma_pow2_adds(53, 54);
    assert(0x20_0000_0000_0000 * 0x40_0000_0000_0000
        == 0x800_0000_0000_0000_0000_0000_0000int);
}

impl Binary64 {
    /// The number nearest to `n / d`.
    pub(crate) fn from_ratio(n: u128, d: u128) -> (r: Binary64)
        requires
            n < 0x800_0000_0000_0000_0000_0000_0000u128,
            0 < d <= 0x40_0000_0000_0000u128,
        ensures
            r@ == nearest(n as nat, d as nat),
            normal(r@),
            n > 0 ==> in_binade(n as nat, d as nat, binade(n as nat, d as nat)),
            n > 0 ==> r@.exp == binade(n as nat, d as nat) || r@.exp == binade(n as nat, d as nat)
                + 1,
            -107 <= r@.exp <= 56,
            0 < n <= d ==> r@.exp <= -51,
    {
        if n == 0 {
            return Binary64 { mant: 0, exp: 0 };
        }
        let mut num: u128 = n;
        let mut den: u128 = d;
        let mut up: i32 = 0;
        let mut down: i32 = 0;
        proof {
            lemma_pow2_wide();
            assert(n * 1 == n && d * 1 == d);
        }
        while num >= den * 0x20_0000_0000_0000u128
            invariant
                num == n,
                n < 0x800_0000_0000_0000_0000_0000_0000u128,
                0 < d <= den,
                den <= 0x80_0000_0000_0000u128,
                den == d * pow2(up as nat),
                up > 0 ==> 0x10_0000_0000_0000u128 * den <= num,
                0 <= up <= 55,
            decreases num - den,
        {
            proof {
                lemma_pow2_unfold((up + 1) as nat);
                assert(d * (2 * pow2(up as nat)) == 2 * (d * pow2(up as nat)))
                    by (nonlinear_arith);
            }
            den = den * 2;
            up = up + 1;
            proof {
                assert(pow2(up as nat) <= d * pow2(up as nat)) by (nonlinear_arith)
                    requires
                        d >= 1,
                ;
                lemma_pow2_wide();
                lemma_pow2_order(up as nat, 56);
            }
        }
        while num < den * 0x10_0000_0000_0000u128
            invariant
                0 < n <= num,
                num < den * 0x20_0000_0000_0000u128,
                0 < d <= den <= 0x80_0000_0000_0000u128,
                den == d * pow2(up as nat),
                num == n * pow2(down as nat),
                up == 0 ==> d == den && d <= 0x40_0000_0000_0000u128,
                up > 0 ==> down == 0 && 0x10_0000_0000_0000u128 * den <= num,
                0 <= up <= 55,
                0 <= down <= 106,
            decreases 107 - down,
        {
            proof {
                lemma_pow2_unfold((down + 1) as nat);
                assert(n * (2 * pow2(down as nat)) == 2 * (n * pow2(down as nat)))
                    by (nonlinear_arith);
            }
            num = num * 2;
            down = down + 1;
            proof {
                assert(pow2(down as nat) <= n * pow2(down as nat)) by (nonlinear_arith)
                    requires
                        n >= 1,
                ;
                lemma_pow2_wide();
                lemma_pow2_order(down as nat, 107);
            }
        }
        let q: u128 = num / den;
        let r: u128 = num % den;
        let m: u128 = if 2 * r < den || (2 * r == den && q % 2 == 0) {
            q
        } else {
            q + 1
        };
        proof {
            lemma_pow2_wide();
            assert(n * 1 == n && d * 1 == d);
            lemma_binade(n as nat, d as nat, up - down);
            if n <= d {
                assert(scaled_num(n as nat, -52) == n * MANT_MIN);
                lemma_binade_not_below(n as nat, d as nat, -52, up - down);
            }
            assert(MANT_MIN <= q < MANT_END) by (nonlinear_arith)
                requires
                    q == num / den,
                    den > 0,
                    MANT_MIN * den <= num < MANT_END * den,
            ;
        }
        if m == 0x20_0000_0000_0000u128 {
            Binary64 { mant: MANT_MIN, exp: up - down + 1 }
        } else {
            Binary64 { mant: m as u64, exp: up - down }
        }
    }

    /// The number nearest to an integer.
    pub(crate) fn from_u64(x: u64) -> (r: Binary64)
        ensures
            r@ == nearest(x as nat, 1),
            normal(r@),
            x > 0 ==> r@.mant > 0,
            -52 <= r@.exp <= 13,
            x <= MANT_MIN ==> r@.exp <= 0,
    {
        proof {
            lemma_pow2_wide();
            if x > 0 {
                assert forall|e: int| in_binade(x as nat, 1, e) implies -52 <= e <= 12 && (x
                    <= MANT_MIN ==> e <= 0) by {
                    lemma2_to64();
                    assert(x * 0x10_0000_0000_0000 >= 0x10_0000_0000_0000);
                    lemma_binade_not_below(x as nat, 1, e, -52);
                    lemma2_to64_rest();
                    lemma_binade_not_below(x as nat, 1, 12, e);
                    if x <= MANT_MIN {
                        lemma_binade_not_below(x as nat, 1, 0, e);
                    }
                }
            }
        }
        Binary64::from_ratio(x as u128, 1)
    }

    /// The product of two numbers.
    pub(crate) fn times(self, other: Binary64) -> (r: Binary64)
        requires
            normal(self@),
            normal(other@),
            -1000 <= self@.exp <= 1000,
            -1000 <= other@.exp <= 1000,
        ensures
            r@ == product(self@, other@),
            normal(r@),
            r@.mant > 0 ==> self@.exp + other@.exp + 52 <= r@.exp <= self@.exp + other@.exp + 54,
            r@.mant > 0 <==> self@.mant > 0 && other@.mant > 0,
    {
        proof {
            lemma_pow2_wide();
            assert(self.mant * other.mant < 0x800_0000_0000_0000_0000_0000_0000) by (nonlinear_arith)
                requires
                    self.mant < 0x20_0000_0000_0000,
                    other.mant < 0x20_0000_0000_0000,
            ;
            if self.mant > 0 && other.mant > 0 {
                let n = (self.mant * other.mant) as nat;
                assert(MANT_MIN * MANT_MIN <= n < MANT_END * MANT_END) by (nonlinear_arith)
                    requires
                        n == self.mant * other.mant,
                        MANT_MIN <= self.mant < MANT_END,
                        MANT_MIN <= other.mant < MANT_END,
                ;
                assert forall|e: int| in_binade(n, 1, e) implies 52 <= e <= 53 by {
                    lemma_binade_not_below(n, 1, e, 52);
                    lemma_binade_not_below(n, 1, 53, e);
                }
            } else {
                assert(self.mant * other.mant == 0) by (nonlinear_arith)
                    requires
                        self.mant == 0 || other.mant == 0,
                ;
            }
        }
        let r = Binary64::from_ratio((self.mant as u128) * (other.mant as u128), 1);
        if r.mant == 0 {
            r
        } else {
            Binary64 { mant: r.mant, exp: r.exp + (self.exp + other.exp) }
        }
    }

    /// The quotient of two numbers.
    pub(crate) fn over(self, other: Binary64) -> (r: Binary64)
        requires
            normal(self@),
            normal(other@),
            other@.mant > 0,
            -1000 <= self@.exp <= 1000,
            -1000 <= other@.exp <= 1000,
        ensures
            r@ == quotient(self@, other@),
            normal(r@),
            r@.mant > 0 ==> self@.exp - other@.exp - 53 <= r@.exp <= self@.exp - other@.exp - 51,
            r@.mant > 0 <==> self@.mant > 0,
    {
        proof {
            lemma_pow2_wide();
            if self.mant > 0 {
                let n = self.mant as nat;
                let d = other.mant as nat;
                assert forall|e: int| in_binade(n, d, e) implies -53 <= e <= -52 by {
                    assert(scaled_num(n, -53) == n * MANT_END);
                    assert(scaled_num(n, -52) == n * MANT_MIN);
                    lemma_binade_not_below(n, d, e, -53);
                    lemma_binade_not_below(n, d, -52, e);
                }
            }
        }
        let r = Binary64::from_ratio(self.mant as u128, other.mant as u128);
        if r.mant == 0 {
            r
        } else {
            Binary64 { mant: r.mant, exp: r.exp + (self.exp - other.exp) }
        }
    }

    /// The number as an integer count of `1 / scale`, ties to even.
    pub(crate) fn to_fixed(self, scale: u32) -> (r: u128)
        requires
            normal(self@),
            0 < scale <= 1_000_000,
            -120 <= self@.exp <= 68,
            self@.exp > 14 ==> scale <= 10,
        ensures
            r == fixed(self@, scale as nat),
    {
        proof {
            assert(self.mant * scale < 0x20_0000_0000_0000 * 1_000_000) by (nonlinear_arith)
                requires
                    self.mant < 0x20_0000_0000_0000,
                    0 < scale <= 1_000_000,
            ;
        }
        let n: u128 = (self.mant as u128) * (scale as u128);
        if self.exp >= 0 {
            let p: u128 = power_of_two(self.exp as u32);
            proof {
                lemma_pow2_wide();
                lemma2_to64();
                lemma2_to64_rest();
                lemma_pow2_adds(53, 15);
                if self.exp <= 14 {
                    lemma_pow2_at_most(self.exp as nat, 14);
                    assert(n * p <= 0x20_0000_0000_0000 * 1_000_000 * 0x4000) by (nonlinear_arith)
                        requires
                            n <= 0x20_0000_0000_0000 * 1_000_000,
                            p <= 0x4000,
                    ;
                } else {
                    lemma_pow2_at_most(self.exp as nat, 68);
                    assert(n <= 0x20_0000_0000_0000 * 10) by (nonlinear_arith)
                        requires
                            n == self.mant * scale,
                            self.mant < 0x20_0000_0000_0000,
                            scale <= 10,
                    ;
                    assert(n * p <= 0x20_0000_0000_0000 * 10 * 0x10_0000_0000_0000_0000) by (nonlinear_arith)
                        requires
                            n <= 0x20_0000_0000_0000 * 10,
                            p <= 0x10_0000_0000_0000_0000,
                    ;
                }
            }
            n * p
        } else {
            let d: u128 = power_of_two((-self.exp) as u32);
            proof {
                lemma_pow2_pos((-self.exp) as nat);
            }
            let q: u128 = n / d;
            let r: u128 = n % d;
            if r < d - r || (r == d - r && q % 2 == 0) {
                q
            } else {
                proof {
                    assert(q <= n) by (nonlinear_arith)
                        requires
                            q == n / d,
                            d > 0,
                    ;
                }
                q + 1
            }
        }
    }

    /// The number as an integer, ties upwards.
    pub(crate) fn to_rounded(self) -> (r: u128)
        requires
            normal(self@),
            -120 <= self@.exp <= 68,
        ensures
            r == rounded(self@),
    {
        if self.exp >= 0 {
            let p: u128 = power_of_two(self.exp as u32);
            proof {
                lemma_pow2_wide();
                lemma2_to64();
                lemma2_to64_rest();
                lemma_pow2_adds(53, 15);
                lemma_pow2_at_most(self.exp as nat, 68);
                assert(self.mant * p <= 0x20_0000_0000_0000 * 0x10_0000_0000_0000_0000) by (nonlinear_arith)
                    requires
                        self.mant <= 0x20_0000_0000_0000,
                        p <= 0x10_0000_0000_0000_0000,
                ;
            }
            (self.mant as u128) * p
        } else {
            let p: u128 = power_of_two((-self.exp) as u32);
            proof {
                lemma_pow2_pos((-self.exp) as nat);
                lemma_pow2_wide();
                lemma_pow2_adds(107, 13);
                lemma2_to64();
                lemma_pow2_at_most((-self.exp) as nat, 120);
            }
            (2 * (self.mant as u128) + p) / (2 * p)
        }
    }
}

proof fn lemma_pow2_at_most(k: nat, j: nat)
    requires
        k <= j,
    ensures
        pow2(k) <= pow2(j),
{
    if k < j {
        lemma_pow2_strictly_increases(k, j);
    }
}

/// `2^k`.
fn power_of_two(k: u32) -> (r: u128)
    requires
        k <= 120,
    ensures
        r == pow2(k as nat),
{
    let mut r: u128 = 1;
    let mut i: u32 = 0;
    proof {
        lemma_pow2_wide();
    }
    while i < k
        invariant
            i <= k <= 120,
            r == pow2(i as nat),
        decreases k - i,
    {
        proof {
            lemma_pow2_unfold((i + 1) as nat);
            lemma_pow2_wide();
            lemma_pow2_adds(107, 13);
            lemma2_to64();
            lemma_pow2_at_most((i + 1) as nat, 120);
        }
        r = r * 2;
        i = i + 1;
    }
    r
}

} // verus!
