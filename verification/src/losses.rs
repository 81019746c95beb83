//! What the losses of a source are, told from the differences alone.

use vstd::prelude::*;

use crate::percentiles::{law_order_of_samples, law_summary_stands_at};
use crate::report::{losses_of, median, port0_delays, port0_lost, port1_delays, port1_lost};
use crate::state::ProcessorView;

verus! {

/// `t` are the delays of port 0 from the least to the greatest: its positive
/// differences, each as often as it occurs.
pub open spec fn are_delays_of_port0(diffs: Seq<i64>, t: Seq<i64>) -> bool {
    &&& forall|i: int, j: int| 0 <= i <= j < t.len() ==> t[i] <= t[j]
    &&& forall|x: i64| #[trigger]
        t.to_multiset().count(x) == if x > 0 {
            diffs.to_multiset().count(x)
        } else {
            0
        }
}

/// `t` are the delays of port 1 from the least to the greatest: its negative
/// differences without their sign, each as often as it occurs.
pub open spec fn are_delays_of_port1(diffs: Seq<i64>, t: Seq<i64>) -> bool {
    &&& forall|i: int, j: int| 0 <= i <= j < t.len() ==> t[i] <= t[j]
    &&& forall|x: i64| #[trigger]
        t.to_multiset().count(x) == if x > 0 {
            diffs.to_multiset().count((-x) as i64)
        } else {
            0
        }
}

/// How often a delay occurs.
pub proof fn law_delays_occur(diffs: Seq<i64>, x: i64)
    requires
        !diffs.contains(i64::MIN),
    ensures
        port0_delays(diffs).to_multiset().count(x) == if x > 0 {
            diffs.to_multiset().count(x)
        } else {
            0
        },
        port1_delays(diffs).to_multiset().count(x) == if x > 0 {
            diffs.to_multiset().count((-x) as i64)
        } else {
            0
        },
    decreases diffs.len(),
{
    reveal(Seq::filter);
    diffs.to_multiset_ensures();
    if diffs.len() == 0 {
        assert(port0_delays(diffs) =~= diffs);
        assert(port1_delays(diffs) =~= diffs);
    } else {
        let rest = diffs.drop_last();
        let d = diffs.last();
        assert(diffs =~= rest.push(d));
        assert forall|e: i64| rest.contains(e) implies diffs.contains(e) by {
            let i = choose|i: int| 0 <= i < rest.len() && rest[i] == e;
            assert(diffs[i] == e);
        }
        assert(diffs.contains(diffs[diffs.len() - 1]));
        law_delays_occur(rest, x);
        law_delays_after_pair(rest, d);
        rest.to_multiset_ensures();
        port0_delays(rest).to_multiset_ensures();
        port1_delays(rest).to_multiset_ensures();
    }
}

/// One more pair adds its difference to the delays of port 0 where it is
/// positive, and to those of port 1, without its sign, where it is negative;
/// before the first pair there are none.
pub proof fn law_delays_after_pair(diffs: Seq<i64>, d: i64)
    ensures
        port0_delays(seq![]).len() == 0,
        port1_delays(seq![]).len() == 0,
        port0_delays(diffs.push(d)) == if d > 0 {
            port0_delays(diffs).push(d)
        } else {
            port0_delays(diffs)
        },
        port1_delays(diffs.push(d)) == if d < 0 {
            port1_delays(diffs).push((-d) as i64)
        } else {
            port1_delays(diffs)
        },
{
    reveal(Seq::filter);
    assert(diffs.push(d).drop_last() =~= diffs);
    if d < 0 {
        assert(port1_delays(diffs.push(d)) =~= port1_delays(diffs).push((-d) as i64));
    }
}

/// A source has lost as many pairs as it has delays. Its median delay is the one
/// in the middle, with its delays arranged from the least to the greatest; of
/// the two in the middle, the greater one. So half of its delays at least are
/// not greater, and half at least are not less. There is none exactly where it
/// has lost no pair. The order in which the pairs came does not matter.
pub proof fn law_losses(v: ProcessorView, t0: Seq<i64>, t1: Seq<i64>)
    requires
        !v.diffs.contains(i64::MIN),
        are_delays_of_port0(v.diffs, t0),
        are_delays_of_port1(v.diffs, t1),
        v.diffs.len() <= usize::MAX,
    ensures
        ({
            let s = losses_of(v);
            let n0 = t0.len() as int;
            let n1 = t1.len() as int;
            &&& s.port0_losses == n0
            &&& s.port1_losses == n1
            &&& s.port0_median_delay is None <==> n0 == 0
            &&& s.port1_median_delay is None <==> n1 == 0
            &&& 0 < n0 <= 0x20_0000_0000_0000 ==> {
                &&& s.port0_median_delay == Some(t0[n0 / 2])
                &&& forall|i: int| 0 <= i <= n0 / 2 ==> t0[i] <= s.port0_median_delay->0
                &&& forall|i: int| n0 / 2 <= i < n0 ==> t0[i] >= s.port0_median_delay->0
            }
            &&& 0 < n1 <= 0x20_0000_0000_0000 ==> {
                &&& s.port1_median_delay == Some(t1[n1 / 2])
                &&& forall|i: int| 0 <= i <= n1 / 2 ==> t1[i] <= s.port1_median_delay->0
                &&& forall|i: int| n1 / 2 <= i < n1 ==> t1[i] >= s.port1_median_delay->0
            }
        }),
{
    let d0 = port0_delays(v.diffs);
    let d1 = port1_delays(v.diffs);
    assert forall|x: i64| t0.to_multiset().count(x) == d0.to_multiset().count(x)
        && t1.to_multiset().count(x) == d1.to_multiset().count(x) by {
        law_delays_occur(v.diffs, x);
    }
    assert(t0.to_multiset() =~= d0.to_multiset());
    assert(t1.to_multiset() =~= d1.to_multiset());
    law_summary_stands_at(d0, t0);
    law_summary_stands_at(d1, t1);
    v.diffs.lemma_filter_len(port0_lost());
    v.diffs.lemma_filter_len(port1_lost());
}

/// Losses and medians depend on which differences there are, not on the order in
/// which the pairs came.
pub proof fn law_order_of_pairs(a: Seq<i64>, b: Seq<i64>)
    requires
        a.to_multiset() == b.to_multiset(),
        !a.contains(i64::MIN),
    ensures
        port0_delays(a).len() == port0_delays(b).len(),
        port1_delays(a).len() == port1_delays(b).len(),
        median(port0_delays(a)) == median(port0_delays(b)),
        median(port1_delays(a)) == median(port1_delays(b)),
{
    a.to_multiset_ensures();
    b.to_multiset_ensures();
    assert(!b.contains(i64::MIN)) by {
        assert(b.contains(i64::MIN) <==> b.to_multiset().count(i64::MIN) > 0);
        assert(a.contains(i64::MIN) <==> a.to_multiset().count(i64::MIN) > 0);
    }
    assert forall|x: i64|
        port0_delays(a).to_multiset().count(x) == port0_delays(b).to_multiset().count(x)
            && port1_delays(a).to_multiset().count(x) == port1_delays(b).to_multiset().count(x) by {
        law_delays_occur(a, x);
        law_delays_occur(b, x);
    }
    assert(port0_delays(a).to_multiset() =~= port0_delays(b).to_multiset());
    assert(port1_delays(a).to_multiset() =~= port1_delays(b).to_multiset());
    port0_delays(a).to_multiset_ensures();
    port0_delays(b).to_multiset_ensures();
    port1_delays(a).to_multiset_ensures();
    port1_delays(b).to_multiset_ensures();
    law_order_of_samples(port0_delays(a), port0_delays(b));
    law_order_of_samples(port1_delays(a), port1_delays(b));
}

/// A summary shows what the ports hold and how many pairs there are.
pub proof fn law_losses_show_counts(v: ProcessorView)
    requires
        v.port0.dom().len() <= usize::MAX,
        v.port1.dom().len() <= usize::MAX,
        v.matched_pairs <= usize::MAX,
    ensures
        losses_of(v).port0_shreds == v.port0.dom().len(),
        losses_of(v).port1_shreds == v.port1.dom().len(),
        losses_of(v).matched_pairs == v.matched_pairs,
{
}

} // verus!
