//! Percentiles of delay samples.
//!
//! The sample at percentile `p` of `n + 1` sorted samples stands at position
//! `n * p / 100`, computed in binary64 and rounded to the nearest integer.

use vstd::prelude::*;
use vstd::relations::*;

use crate::binary64::{nearest, product, quotient, rounded, Binary64, Dyadic};
use crate::sort::sorted;

verus! {

/// The order of the samples.
pub open spec fn sample_order() -> spec_fn(i64, i64) -> bool {
    |x: i64, y: i64| x <= y
}

/// The samples from the least to the greatest.
pub open spec fn ascending(data: Seq<i64>) -> Seq<i64> {
    data.sort_by(sample_order())
}

/// The smaller of two numbers.
pub open spec fn least(a: nat, b: nat) -> nat {
    if a <= b {
        a
    } else {
        b
    }
}

/// Where percentile `p` stands among `len` sorted samples.
pub open spec fn percentile_position(len: nat, p: nat) -> nat {
    let x = quotient(
        product(
            nearest((len - 1) as nat, 1),
            nearest(p, 1),
        ),
        nearest(100, 1),
    );
    least(rounded(x), (len - 1) as nat)
}

/// Where the fraction `num / den` stands among `len` sorted samples.
pub open spec fn fraction_position(len: nat, num: nat, den: nat) -> nat {
    let x = product(
        nearest((len - 1) as nat, 1),
        nearest(num, den),
    );
    least(rounded(x), (len - 1) as nat)
}

/// The percentiles of a full report.
pub open spec fn report_levels() -> Seq<nat> {
    seq![1, 5, 10, 25, 50, 75, 80, 90, 95, 99]
}

/// The samples at the percentiles of a full report; zeros where there are no
/// samples.
pub open spec fn report_percentiles(data: Seq<i64>) -> Seq<i64> {
    Seq::new(
        10,
        |k: int|
            if data.len() == 0 {
                0i64
            } else {
                ascending(data)[percentile_position(data.len(), report_levels()[k]) as int]
            },
    )
}

/// The median and two high percentiles of some samples, in nanoseconds.
#[derive(Clone, Copy, Debug, PartialEq, Eq)]
pub struct Percentiles {
    pub p50: i64,
    pub p90: i64,
    pub p99: i64,
}

/// The summary of some samples; none where there are no samples.
pub open spec fn summary_percentiles(data: Seq<i64>) -> Option<Percentiles> {
    if data.len() == 0 {
        None
    } else {
        Some(
            Percentiles {
                p50: ascending(data)[fraction_position(data.len(), 1, 2) as int],
                p90: ascending(data)[fraction_position(data.len(), 9, 10) as int],
                p99: ascending(data)[fraction_position(data.len(), 99, 100) as int],
            },
        )
    }
}

/// A sequence in ascending order with the samples as its elements is the
/// sequence that `ascending` gives.
pub proof fn lemma_ascending_is(data: Seq<i64>, s: Seq<i64>)
    requires
        s.to_multiset() == data.to_multiset(),
        forall|i: int, j: int| 0 <= i <= j < s.len() ==> s[i] <= s[j],
    ensures
        ascending(data) == s,
        s.len() == data.len(),
{
    let leq = sample_order();
    assert(total_ordering(leq));
    data.lemma_sort_by_ensures(leq);
    vstd::seq_lib::lemma_sorted_unique(ascending(data), s, leq);
    data.to_multiset_ensures();
    s.to_multiset_ensures();
}

/// The samples in ascending order.
fn sorted_samples(data: &[i64]) -> (r: Vec<i64>)
    ensures
        r@ == ascending(data@),
        r.len() == data.len(),
{
    let r = sorted(data);
    proof {
        assert forall|i: int, j: int| 0 <= i <= j < r@.len() implies r@[i] <= r@[j] by {
            assert(crate::sort::SortKey::order(r@[i]) <= crate::sort::SortKey::order(r@[j]));
        }
        lemma_ascending_is(data@, r@);
    }
    r
}

/// A position rounded to an integer, but not behind the last position.
fn clamp_position(x: Binary64, last: usize) -> (r: usize)
    requires
        crate::binary64::normal(x@),
        -120 <= x@.exp <= 68,
    ensures
        r == least(rounded(x@), last as nat),
{
    let i: u128 = x.to_rounded();
    if i <= last as u128 {
        i as usize
    } else {
        last
    }
}

/// Where percentile `p` stands among `len` sorted samples.
pub fn percentile_index(len: usize, p: u64) -> (r: usize)
    requires
        len > 0,
        p <= 100,
    ensures
        r == percentile_position(len as nat, p as nat),
        r < len,
{
    let x = Binary64::from_u64((len - 1) as u64).times(Binary64::from_u64(p)).over(
        Binary64::from_u64(100),
    );
    clamp_position(x, len - 1)
}

/// Where the fraction `num / den` stands among `len` sorted samples.
pub fn fraction_index(len: usize, num: u64, den: u64) -> (r: usize)
    requires
        len > 0,
        0 < num <= den <= 100,
    ensures
        r == fraction_position(len as nat, num as nat, den as nat),
        r < len,
{
    let x = Binary64::from_u64((len - 1) as u64).times(
        Binary64::from_ratio(num as u128, den as u128),
    );
    clamp_position(x, len - 1)
}

/// The ten percentiles of a report, in the unit of the samples.
pub fn calculate_percentiles_i64(data: &[i64]) -> (r: [i64; 10])
    ensures
        r@ == report_percentiles(data@),
{
    let mut r: [i64; 10] = [0; 10];
    if data.len() == 0 {
        assert(r@ =~= report_percentiles(data@));
        return r;
    }
    let s = sorted_samples(data);
    let levels: [u64; 10] = [1, 5, 10, 25, 50, 75, 80, 90, 95, 99];
    let mut k: usize = 0;
    while k < 10
        invariant
            k <= 10,
            s.len() == data.len(),
            data.len() > 0,
            s@ == ascending(data@),
            levels@ =~= seq![1u64, 5, 10, 25, 50, 75, 80, 90, 95, 99],
            forall|i: int| 0 <= i < k ==> r@[i] == report_percentiles(data@)[i],
        decreases 10 - k,
    {
        r[k] = s[percentile_index(s.len(), levels[k])];
        k = k + 1;
    }
    assert(r@ =~= report_percentiles(data@));
    r
}

/// The median, the ninetieth and the ninety-ninth percentile.
pub fn calculate_percentiles_f64(data: &[i64]) -> (r: Option<Percentiles>)
    ensures
        r == summary_percentiles(data@),
{
    if data.len() == 0 {
        return None;
    }
    let s = sorted_samples(data);
    Some(
        Percentiles {
            p50: s[fraction_index(s.len(), 1, 2)],
            p90: s[fraction_index(s.len(), 9, 10)],
            p99: s[fraction_index(s.len(), 99, 100)],
        },
    )
}

/// With fewer than 2^53 percent points of position, percentile `p` of `len`
/// samples stands at `(len - 1) * p / 100`, rounded to the nearest integer,
/// ties upwards.
pub proof fn law_percentile_position(len: nat, p: nat)
    requires
        len > 0,
        p <= 100,
        (len - 1) * p < 0x1f_ffff_ffff_ffff,
    ensures
        percentile_position(len, p) == ((len - 1) * p + 50) / 100,
{
    let n = (len - 1) as nat;
    if n == 0 || p == 0 {
        vstd::arithmetic::power2::lemma2_to64();
        assert(0 * nearest(p, 1).mant == 0);
        assert(nearest(n, 1).mant * 0 == 0);
        assert((len - 1) * p == 0) by (nonlinear_arith)
            requires
                len == 1 || p == 0,
        ;
    } else {
        assert(n <= n * p && p <= n * p) by (nonlinear_arith)
            requires
                n > 0,
                p > 0,
        ;
        let a = n * p;
        assert((2 * a + 100) / 200 == (a + 50) / 100);
        assert((len - 1) * p == a);
        crate::rounding::lemma_product_of_integers(n, p);
        crate::rounding::lemma_quotient_of_integers(n * p, 100);
        crate::rounding::lemma_rounded_quotient(n * p, 100);
        assert(a <= n * 100) by (nonlinear_arith)
            requires
                a == n * p,
                0 < p <= 100,
                n > 0,
        ;
    }
}

/// With at most 2^46 samples the median, the ninetieth and the ninety-ninth
/// percentile stand at the exact fraction of the last position, rounded to the
/// nearest integer, ties upwards.
pub proof fn law_fraction_positions(len: nat)
    requires
        0 < len <= 0x4000_0000_0000,
    ensures
        fraction_position(len, 1, 2) == len / 2,
        fraction_position(len, 9, 10) == (9 * (len - 1) + 5) / 10,
        fraction_position(len, 99, 100) == (99 * (len - 1) + 50) / 100,
{
    let n = (len - 1) as nat;
    if n == 0 {
        vstd::arithmetic::power2::lemma2_to64();
        assert(0 * nearest(1, 2).mant == 0);
        assert(0 * nearest(9, 10).mant == 0);
        assert(0 * nearest(99, 100).mant == 0);
    } else {
        crate::rounding::lemma_rounded_fractions(n);
    }
}

/// The percentiles depend on which samples there are, not on their order.
pub proof fn law_order_of_samples(a: Seq<i64>, b: Seq<i64>)
    requires
        a.to_multiset() == b.to_multiset(),
    ensures
        report_percentiles(a) == report_percentiles(b),
        summary_percentiles(a) == summary_percentiles(b),
{
    a.lemma_sort_by_ensures(sample_order());
    b.lemma_sort_by_ensures(sample_order());
    vstd::seq_lib::lemma_sorted_unique(ascending(a), ascending(b), sample_order());
    a.to_multiset_ensures();
    b.to_multiset_ensures();
    assert(report_percentiles(a) =~= report_percentiles(b));
}

/// Every percentile is one of the samples.
pub proof fn law_percentiles_are_samples(data: Seq<i64>)
    requires
        data.len() > 0,
    ensures
        forall|k: int| 0 <= k < 10 ==> data.contains(#[trigger] report_percentiles(data)[k]),
        summary_percentiles(data) matches Some(p) && data.contains(p.p50) && data.contains(p.p90)
            && data.contains(p.p99),
{
    let s = ascending(data);
    data.lemma_sort_by_ensures(sample_order());
    data.to_multiset_ensures();
    s.to_multiset_ensures();
    assert forall|i: int| 0 <= i < s.len() implies data.contains(#[trigger] s[i]) by {
        assert(s.contains(s[i]));
    }
    assert forall|k: int| 0 <= k < 10 implies data.contains(
        #[trigger] report_percentiles(data)[k],
    ) by {
        let i = percentile_position(data.len(), report_levels()[k]) as int;
        assert(data.contains(s[i]));
    }
    assert(data.contains(s[fraction_position(data.len(), 1, 2) as int]));
    assert(data.contains(s[fraction_position(data.len(), 9, 10) as int]));
    assert(data.contains(s[fraction_position(data.len(), 99, 100) as int]));
}

/// A higher percentile does not stand before a lower one.
pub proof fn law_positions_ascend(len: nat, p: nat, q: nat)
    requires
        len > 0,
        0 < p <= q <= 100,
    ensures
        percentile_position(len, p) <= percentile_position(len, q) < len,
{
    let n = (len - 1) as nat;
    if n > 0 {
        let a = nearest(n, 1);
        crate::rounding::lemma_nearest_near(n, 1);
        crate::rounding::lemma_nearest_near(100, 1);
        crate::rounding::lemma_product_with_integer(a, p);
        crate::rounding::lemma_product_with_integer(a, q);
        let b = Dyadic { mant: p, exp: 0 };
        let c = Dyadic { mant: q, exp: 0 };
        crate::rounding::lemma_mantissas_ordered(b, c);
        crate::rounding::lemma_product_ordered(a, b, c);
        crate::rounding::lemma_quotient_ordered(product(a, b), product(a, c), nearest(100, 1));
        crate::rounding::lemma_rounded_ordered(
            quotient(product(a, b), nearest(100, 1)),
            quotient(product(a, c), nearest(100, 1)),
        );
    }
}

/// The positions of the median, the ninetieth and the ninety-ninth percentile
/// ascend.
pub proof fn law_fractions_ascend(len: nat)
    requires
        len > 0,
    ensures
        fraction_position(len, 1, 2) <= fraction_position(len, 9, 10) <= fraction_position(
            len,
            99,
            100,
        ) < len,
{
    let n = (len - 1) as nat;
    if n > 0 {
        let a = nearest(n, 1);
        crate::rounding::lemma_nearest_near(n, 1);
        crate::rounding::lemma_known_fractions();
        let x = nearest(1, 2);
        let y = nearest(9, 10);
        let z = nearest(99, 100);
        crate::rounding::lemma_mantissas_ordered(x, y);
        crate::rounding::lemma_mantissas_ordered(y, z);
        crate::rounding::lemma_product_ordered(a, x, y);
        crate::rounding::lemma_product_ordered(a, y, z);
        crate::rounding::lemma_rounded_ordered(product(a, x), product(a, y));
        crate::rounding::lemma_rounded_ordered(product(a, y), product(a, z));
    }
}

/// A higher percentile is not less than a lower one.
pub proof fn law_percentiles_ascend(data: Seq<i64>)
    requires
        data.len() > 0,
    ensures
        forall|i: int, j: int|
            0 <= i <= j < 10 ==> #[trigger] report_percentiles(data)[i]
                <= #[trigger] report_percentiles(data)[j],
        summary_percentiles(data) matches Some(p) && p.p50 <= p.p90 <= p.p99,
{
    let s = ascending(data);
    data.lemma_sort_by_ensures(sample_order());
    data.to_multiset_ensures();
    s.to_multiset_ensures();
    assert forall|i: int, j: int| 0 <= i <= j < s.len() implies s[i] <= s[j] by {
        if i < j {
            assert(sample_order()(s[i], s[j]));
        }
    }
    assert forall|i: int, j: int| 0 <= i <= j < 10 implies #[trigger] report_percentiles(data)[i]
        <= #[trigger] report_percentiles(data)[j] by {
        law_positions_ascend(data.len(), report_levels()[i], report_levels()[j]);
    }
    law_fractions_ascend(data.len());
}

/// `t` are the samples from the least to the greatest.
pub open spec fn arranged(data: Seq<i64>, t: Seq<i64>) -> bool {
    &&& t.to_multiset() == data.to_multiset()
    &&& forall|i: int, j: int| 0 <= i <= j < t.len() ==> t[i] <= t[j]
}

/// The ten percentiles of a report are the samples that stand, with the samples
/// arranged from the least to the greatest, at 1, 5, 10, 25, 50, 75, 80, 90, 95
/// and 99 hundredths of the last position, rounded to the nearest one, ties
/// upwards. They are zeros where there are no samples.
pub proof fn law_report_percentiles_stand_at(data: Seq<i64>, t: Seq<i64>)
    requires
        arranged(data, t),
        data.len() <= 0x4000_0000_0000,
    ensures
        t.len() == data.len(),
        report_percentiles(data).len() == 10,
        data.len() == 0 ==> forall|k: int|
            0 <= k < 10 ==> #[trigger] report_percentiles(data)[k] == 0,
        data.len() > 0 ==> {
            let n = data.len() - 1;
            let r = report_percentiles(data);
            &&& r[0] == t[(n * 1 + 50) / 100]
            &&& r[1] == t[(n * 5 + 50) / 100]
            &&& r[2] == t[(n * 10 + 50) / 100]
            &&& r[3] == t[(n * 25 + 50) / 100]
            &&& r[4] == t[(n * 50 + 50) / 100]
            &&& r[5] == t[(n * 75 + 50) / 100]
            &&& r[6] == t[(n * 80 + 50) / 100]
            &&& r[7] == t[(n * 90 + 50) / 100]
            &&& r[8] == t[(n * 95 + 50) / 100]
            &&& r[9] == t[(n * 99 + 50) / 100]
        },
{
    lemma_ascending_is(data, t);
    if data.len() > 0 {
        law_percentile_position(data.len(), 1);
        law_percentile_position(data.len(), 5);
        law_percentile_position(data.len(), 10);
        law_percentile_position(data.len(), 25);
        law_percentile_position(data.len(), 50);
        law_percentile_position(data.len(), 75);
        law_percentile_position(data.len(), 80);
        law_percentile_position(data.len(), 90);
        law_percentile_position(data.len(), 95);
        law_percentile_position(data.len(), 99);
    }
}

/// With fewer than 2^53 samples the median is the one in the middle, with the
/// samples arranged from the least to the greatest; of the two in the middle,
/// the greater one.
pub proof fn law_median_position(len: nat)
    requires
        0 < len <= 0x20_0000_0000_0000,
    ensures
        fraction_position(len, 1, 2) == len / 2,
{
    let n = (len - 1) as nat;
    if n == 0 {
        vstd::arithmetic::power2::lemma2_to64();
        assert(0 * nearest(1, 2).mant == 0);
    } else {
        crate::rounding::lemma_rounded_half(n);
    }
}

/// The median, the ninetieth and the ninety-ninth percentile of a summary are
/// the samples that stand, with the samples arranged from the least to the
/// greatest, in the middle, at nine tenths and at 99 hundredths of the last
/// position, rounded to the nearest one, ties upwards. There is no summary
/// exactly where there are no samples.
pub proof fn law_summary_stands_at(data: Seq<i64>, t: Seq<i64>)
    requires
        arranged(data, t),
    ensures
        t.len() == data.len(),
        summary_percentiles(data) is None <==> data.len() == 0,
        0 < data.len() <= 0x20_0000_0000_0000 ==> summary_percentiles(data)->0.p50
            == t[data.len() as int / 2],
        0 < data.len() <= 0x4000_0000_0000 ==> {
            let n = data.len() - 1;
            &&& summary_percentiles(data)->0.p90 == t[(n * 9 + 5) / 10]
            &&& summary_percentiles(data)->0.p99 == t[(n * 99 + 50) / 100]
        },
{
    lemma_ascending_is(data, t);
    if 0 < data.len() <= 0x20_0000_0000_0000 {
        law_median_position(data.len());
    }
    if 0 < data.len() <= 0x4000_0000_0000 {
        law_fraction_positions(data.len());
    }
}

/// A greater fraction does not stand before a smaller one, and the whole stands
/// at the last position.
pub proof fn law_fraction_positions_ordered(len: nat, num: nat, more: nat, den: nat)
    requires
        0 < len <= 0x20_0000_0000_0000,
        0 < num <= more <= den,
    ensures
        fraction_position(len, num, den) <= fraction_position(len, more, den) < len,
        fraction_position(len, den, den) == len - 1,
{
    let n = (len - 1) as nat;
    vstd::arithmetic::power2::lemma2_to64();
    if n > 0 {
        let a = nearest(n, 1);
        let x = nearest(num, den);
        let y = nearest(more, den);
        crate::rounding::lemma_nearest_near(n, 1);
        crate::rounding::lemma_nearest_near(num, den);
        crate::rounding::lemma_nearest_near(more, den);
        crate::rounding::lemma_nearest_near(den, den);
        crate::rounding::lemma_nearest_ordered(num, more, den);
        crate::rounding::lemma_product_ordered(a, x, y);
        crate::rounding::lemma_rounded_ordered(product(a, x), product(a, y));
        let one = Dyadic { mant: den, exp: 0 };
        crate::rounding::lemma_whole_of_integer(one, n);
        assert(quotient(one, one) == nearest(den, den));
        crate::rounding::lemma_rounded_integer(n);
    } else {
        assert(0 * nearest(num, den).mant == 0);
        assert(0 * nearest(more, den).mant == 0);
        assert(0 * nearest(den, den).mant == 0);
    }
}

} // verus!
