//! The statistics as lines of text.

use vstd::prelude::*;
use vstd::string::*;

use crate::binary64::{fixed, nearest, product, quotient, Binary64, Dyadic};
use crate::format::{format_nanos, nanos_text};
use crate::percentiles::{
    calculate_percentiles_f64, calculate_percentiles_i64, law_percentiles_are_samples,
    report_percentiles, summary_percentiles,
};
use crate::state::{ProcessorState, ProcessorView};
use crate::text::{append_decimal, append_point, decimal, point_decimal};

verus! {

/// `count` as a percentage of `total` in binary64; zero where there is no
/// total.
pub open spec fn percentage(count: nat, total: nat) -> Dyadic {
    if total > 0 {
        product(quotient(nearest(count, 1), nearest(total, 1)), nearest(100, 1))
    } else {
        Dyadic { mant: 0, exp: 0 }
    }
}

/// A percentage with one place behind the point.
pub open spec fn percentage_text(count: nat, total: nat) -> Seq<char> {
    point_decimal(fixed(percentage(count, total), 10), 1)
}

/// How many shreds one source delivered first.
pub open spec fn share_text(name: Seq<char>, count: nat, total: nat) -> Seq<char> {
    "{From:"@ + name + ", Nums:"@ + decimal(count) + ", Percent:"@ + percentage_text(count, total)
        + "%}"@
}

/// How many shreds each source delivered first.
pub open spec fn first_seen_text(
    name_0: Seq<char>,
    count_0: nat,
    name_1: Seq<char>,
    count_1: nat,
) -> Seq<char> {
    share_text(name_0, count_0, count_0 + count_1)
        + ", {From:others, Nums:0, Percent:0.0%}, "@ + share_text(
        name_1,
        count_1,
        count_0 + count_1,
    )
}

/// The ten percentiles of some samples.
pub open spec fn percentiles_text(
    name_0: Seq<char>,
    title: Seq<char>,
    samples: Seq<i64>,
    name_1: Seq<char>,
) -> Seq<char> {
    let p = report_percentiles(samples);
    name_0 + title + decimal(samples.len()) + ") against "@ + name_1 + ": P1="@ + nanos_text(
        p[0] as int,
    ) + ", P5="@ + nanos_text(p[1] as int) + ", P10="@ + nanos_text(p[2] as int) + ", P25="@
        + nanos_text(p[3] as int) + ", P50="@ + nanos_text(p[4] as int) + ", P75="@ + nanos_text(
        p[5] as int,
    ) + ", P80="@ + nanos_text(p[6] as int) + ", P90="@ + nanos_text(p[7] as int) + ", P95="@
        + nanos_text(p[8] as int) + ", P99="@ + nanos_text(p[9] as int)
}

/// The line with the percentiles of some samples; none where there are none.
pub open spec fn samples_text(
    name_0: Seq<char>,
    title: Seq<char>,
    samples: Seq<i64>,
    name_1: Seq<char>,
) -> Seq<Seq<char>> {
    if samples.len() == 0 {
        seq![]
    } else {
        seq![percentiles_text(name_0, title, samples, name_1)]
    }
}

/// The lines that every report starts with.
pub open spec fn head_text(v: ProcessorView, name_0: Seq<char>, name_1: Seq<char>) -> Seq<
    Seq<char>,
> {
    seq![
        "First seen shred in 1min"@,
        ""@,
        first_seen_text(name_0, v.first_seen_port0, name_1, v.first_seen_port1),
    ]
}

/// The statistics, line by line.
pub open spec fn report_text(v: ProcessorView, name_0: Seq<char>, name_1: Seq<char>) -> Seq<
    Seq<char>,
> {
    head_text(v, name_0, name_1) + samples_text(
        name_0,
        "-led shred lead time (n="@,
        v.lead_times,
        name_1,
    ) + samples_text(name_0, "-diff shred diff time (n="@, v.diffs, name_1)
}

/// Samples whose percentiles all have a magnitude.
pub open spec fn printable(samples: Seq<i64>) -> bool {
    forall|k: int| 0 <= k < 10 ==> #[trigger] report_percentiles(samples)[k] != i64::MIN
}

/// A comparison that can be reported: the total can be counted and every
/// percentile can be printed.
pub open spec fn reportable(v: ProcessorView) -> bool {
    &&& v.first_seen_port0 + v.first_seen_port1 <= usize::MAX
    &&& printable(v.lead_times)
    &&& printable(v.diffs)
}

/// Whether the percentiles of some samples all have a magnitude.
fn can_print(samples: &[i64]) -> (r: bool)
    ensures
        r == printable(samples@),
{
    let p = calculate_percentiles_i64(samples);
    let mut k: usize = 0;
    while k < 10
        invariant
            k <= 10,
            p@ == report_percentiles(samples@),
            forall|i: int| 0 <= i < k ==> #[trigger] report_percentiles(samples@)[i] != i64::MIN,
        decreases 10 - k,
    {
        if p[k] == i64::MIN {
            assert(report_percentiles(samples@)[k as int] == i64::MIN);
            return false;
        }
        k = k + 1;
    }
    true
}

/// Whether the statistics can be reported.
pub fn can_report(state: &ProcessorState) -> (r: bool)
    ensures
        r == reportable(state@),
{
    state.first_seen_port0 <= usize::MAX - state.first_seen_port1 && can_print(
        state.lead_times_ns.as_slice(),
    ) && can_print(state.all_diffs_ns.as_slice())
}

/// Appends a percentage with one place behind the point.
fn append_percentage(out: &mut String, count: u64, total: u64)
    ensures
        final(out)@ == old(out)@ + percentage_text(count as nat, total as nat),
{
    if total > 0 {
        let x = Binary64::from_u64(count).over(Binary64::from_u64(total)).times(
            Binary64::from_u64(100),
        );
        append_point(out, x.to_fixed(10), 1);
    } else {
        proof {
            assert(0nat * 10 * vstd::arithmetic::power2::pow2(0) == 0) by (nonlinear_arith);
        }
        append_point(out, 0, 1);
    }
}

/// Appends how many shreds one source delivered first.
fn append_share(out: &mut String, name: &str, count: usize, total: usize)
    ensures
        final(out)@ == old(out)@ + share_text(name@, count as nat, total as nat),
{
    out.append("{From:");
    out.append(name);
    out.append(", Nums:");
    append_decimal(out, count as u128);
    out.append(", Percent:");
    append_percentage(out, count as u64, total as u64);
    out.append("%}");
    assert(out@ =~= old(out)@ + share_text(name@, count as nat, total as nat));
}

/// How many shreds each source delivered first, as a line.
fn first_seen_line(name_0: &str, count_0: usize, name_1: &str, count_1: usize) -> (out: String)
    requires
        count_0 + count_1 <= usize::MAX,
    ensures
        out@ == first_seen_text(name_0@, count_0 as nat, name_1@, count_1 as nat),
{
    let total: usize = count_0 + count_1;
    let mut out = String::new();
    append_share(&mut out, name_0, count_0, total);
    out.append(", {From:others, Nums:0, Percent:0.0%}, ");
    append_share(&mut out, name_1, count_1, total);
    assert(out@ =~= first_seen_text(name_0@, count_0 as nat, name_1@, count_1 as nat));
    out
}

/// Appends a label and a duration.
fn append_labelled(out: &mut String, label: &str, nanos: i64)
    requires
        nanos != i64::MIN,
    ensures
        final(out)@ == old(out)@ + label@ + nanos_text(nanos as int),
{
    out.append(label);
    out.append(format_nanos(nanos).as_str());
}

/// The ten percentiles of some samples as a line.
fn percentiles_line(name_0: &str, title: &str, samples: &[i64], name_1: &str) -> (out: String)
    requires
        printable(samples@),
    ensures
        out@ == percentiles_text(name_0@, title@, samples@, name_1@),
{
    let p = calculate_percentiles_i64(samples);
    let ghost q = report_percentiles(samples@);
    proof {
        assert(forall|k: int| 0 <= k < 10 ==> p@[k] == #[trigger] q[k] && q[k] != i64::MIN);
    }
    let mut out = String::new();
    out.append(name_0);
    out.append(title);
    append_decimal(&mut out, samples.len() as u128);
    out.append(") against ");
    out.append(name_1);
    assert(out@ =~= name_0@ + title@ + decimal(samples@.len()) + ") against "@ + name_1@);
    append_labelled(&mut out, ": P1=", p[0]);
    append_labelled(&mut out, ", P5=", p[1]);
    append_labelled(&mut out, ", P10=", p[2]);
    append_labelled(&mut out, ", P25=", p[3]);
    append_labelled(&mut out, ", P50=", p[4]);
    append_labelled(&mut out, ", P75=", p[5]);
    append_labelled(&mut out, ", P80=", p[6]);
    append_labelled(&mut out, ", P90=", p[7]);
    append_labelled(&mut out, ", P95=", p[8]);
    append_labelled(&mut out, ", P99=", p[9]);
    out
}

/// Adds the line with the percentiles of some samples, where there are any.
fn push_percentiles(
    lines: &mut Vec<String>,
    name_0: &str,
    title: &str,
    samples: &[i64],
    name_1: &str,
)
    requires
        printable(samples@),
    ensures
        final(lines)@.map_values(|s: String| s@) == old(lines)@.map_values(|s: String| s@)
            + samples_text(name_0@, title@, samples@, name_1@),
{
    if samples.len() > 0 {
        lines.push(percentiles_line(name_0, title, samples, name_1));
    }
    assert(lines@.map_values(|s: String| s@) =~= old(lines)@.map_values(|s: String| s@)
        + samples_text(name_0@, title@, samples@, name_1@));
}

/// The statistics, line by line.
pub fn report_stats(state: &ProcessorState, name_0: &str, name_1: &str) -> (r: Vec<String>)
    requires
        reportable(state@),
    ensures
        r@.map_values(|s: String| s@) == report_text(state@, name_0@, name_1@),
{
    let mut r: Vec<String> = Vec::new();
    r.push(String::from_str("First seen shred in 1min"));
    r.push(String::from_str(""));
    r.push(first_seen_line(name_0, state.first_seen_port0, name_1, state.first_seen_port1));
    assert(r@.map_values(|s: String| s@) =~= head_text(state@, name_0@, name_1@));
    push_percentiles(
        &mut r,
        name_0,
        "-led shred lead time (n=",
        state.lead_times_ns.as_slice(),
        name_1,
    );
    push_percentiles(
        &mut r,
        name_0,
        "-diff shred diff time (n=",
        state.all_diffs_ns.as_slice(),
        name_1,
    );
    r
}

/// A pair that port 0 lost: its copy came later.
pub open spec fn port0_lost() -> spec_fn(i64) -> bool {
    |d: i64| d > 0
}

/// A pair that port 1 lost: its copy came later.
pub open spec fn port1_lost() -> spec_fn(i64) -> bool {
    |d: i64| d < 0
}

/// A difference seen from the other port.
pub open spec fn mirrored() -> spec_fn(i64) -> i64 {
    |d: i64| (-d) as i64
}

/// How far port 0 was behind in the pairs that it lost.
pub open spec fn port0_delays(diffs: Seq<i64>) -> Seq<i64> {
    diffs.filter(port0_lost())
}

/// How far port 1 was behind in the pairs that it lost.
pub open spec fn port1_delays(diffs: Seq<i64>) -> Seq<i64> {
    diffs.filter(port1_lost()).map_values(mirrored())
}

/// The median of some samples.
pub open spec fn median(samples: Seq<i64>) -> Option<i64> {
    match summary_percentiles(samples) {
        Some(p) => Some(p.p50),
        None => None,
    }
}

/// Which source loses how often, and by how much.
#[derive(Clone, Copy, Debug, PartialEq, Eq)]
pub struct LossSummary {
    /// Shreds that port 0 holds.
    pub port0_shreds: usize,
    /// Shreds that port 1 holds.
    pub port1_shreds: usize,
    /// Shreds that have arrived on both ports.
    pub matched_pairs: usize,
    /// Pairs whose copy on port 0 came later.
    pub port0_losses: usize,
    /// Pairs whose copy on port 1 came later.
    pub port1_losses: usize,
    /// The median delay of port 0 in the pairs that it lost.
    pub port0_median_delay: Option<i64>,
    /// The median delay of port 1 in the pairs that it lost.
    pub port1_median_delay: Option<i64>,
}

/// The losses of both sources in a comparison. Every count is that of a
/// collection in memory, so it fits.
pub open spec fn losses_of(v: ProcessorView) -> LossSummary {
    LossSummary {
        port0_shreds: v.port0.dom().len() as usize,
        port1_shreds: v.port1.dom().len() as usize,
        matched_pairs: v.matched_pairs as usize,
        port0_losses: port0_delays(v.diffs).len() as usize,
        port1_losses: port1_delays(v.diffs).len() as usize,
        port0_median_delay: median(port0_delays(v.diffs)),
        port1_median_delay: median(port1_delays(v.diffs)),
    }
}

/// The delay of a source in a pair that it lost is positive.
pub proof fn law_delays_are_positive(diffs: Seq<i64>)
    requires
        !diffs.contains(i64::MIN),
    ensures
        forall|i: int|
            0 <= i < port0_delays(diffs).len() ==> (#[trigger] port0_delays(diffs)[i]) > 0,
        forall|i: int|
            0 <= i < port1_delays(diffs).len() ==> (#[trigger] port1_delays(diffs)[i]) > 0,
    decreases diffs.len(),
{
    reveal(Seq::filter);
    if diffs.len() > 0 {
        let rest = diffs.drop_last();
        assert forall|d: i64| rest.contains(d) implies diffs.contains(d) by {
            let i = choose|i: int| 0 <= i < rest.len() && rest[i] == d;
            assert(diffs[i] == d);
        }
        law_delays_are_positive(rest);
        assert(diffs.contains(diffs.last()));
        if diffs.last() > 0 {
            assert(port0_delays(diffs) =~= port0_delays(rest).push(diffs.last()));
            assert(port1_delays(diffs) =~= port1_delays(rest));
        } else if diffs.last() < 0 {
            assert(port0_delays(diffs) =~= port0_delays(rest));
            assert(port1_delays(diffs) =~= port1_delays(rest).push((-diffs.last()) as i64));
        } else {
            assert(port0_delays(diffs) =~= port0_delays(rest));
            assert(port1_delays(diffs) =~= port1_delays(rest));
        }
    }
}

/// Every pair is lost by port 0, lost by port 1, or a tie.
pub proof fn law_every_pair_counts_once(diffs: Seq<i64>)
    ensures
        port0_delays(diffs).len() + port1_delays(diffs).len() + diffs.filter(|d: i64| d == 0).len()
            == diffs.len(),
    decreases diffs.len(),
{
    reveal(Seq::filter);
    if diffs.len() > 0 {
        law_every_pair_counts_once(diffs.drop_last());
    }
}

/// Sums up which source loses how often, and by how much.
pub fn loss_summary(state: &ProcessorState) -> (r: LossSummary)
    requires
        state.wf(),
        !state@.diffs.contains(i64::MIN),
    ensures
        r == losses_of(state@),
        r.port0_shreds == state@.port0.dom().len(),
        r.port1_shreds == state@.port1.dom().len(),
        r.matched_pairs == state@.matched_pairs,
        r.port0_losses == port0_delays(state@.diffs).len(),
        r.port1_losses == port1_delays(state@.diffs).len(),
        r.port0_median_delay == median(port0_delays(state@.diffs)),
        r.port1_median_delay == median(port1_delays(state@.diffs)),
        r.port0_median_delay matches Some(d) ==> d > 0,
        r.port1_median_delay matches Some(d) ==> d > 0,
{
    let diffs = &state.all_diffs_ns;
    let mut behind0: Vec<i64> = Vec::new();
    let mut behind1: Vec<i64> = Vec::new();
    let mut i: usize = 0;
    proof {
        reveal(Seq::filter);
        assert(behind0@ =~= port0_delays(diffs@.take(0)));
        assert(behind1@ =~= port1_delays(diffs@.take(0)));
    }
    while i < diffs.len()
        invariant
            i <= diffs.len(),
            !diffs@.contains(i64::MIN),
            behind0@ == port0_delays(diffs@.take(i as int)),
            behind1@ == port1_delays(diffs@.take(i as int)),
        decreases diffs.len() - i,
    {
        let d: i64 = diffs[i];
        proof {
            reveal(Seq::filter);
            assert(diffs@.take(i + 1).drop_last() =~= diffs@.take(i as int));
            assert(diffs@.contains(diffs@[i as int]));
        }
        if d > 0 {
            behind0.push(d);
        } else if d < 0 {
            behind1.push(-d);
        }
        assert(behind0@ =~= port0_delays(diffs@.take(i + 1)));
        assert(behind1@ =~= port1_delays(diffs@.take(i + 1)));
        i = i + 1;
    }
    proof {
        assert(diffs@.take(i as int) =~= diffs@);
        law_delays_are_positive(diffs@);
        if behind0@.len() > 0 {
            law_percentiles_are_samples(behind0@);
        }
        if behind1@.len() > 0 {
            law_percentiles_are_samples(behind1@);
        }
    }
    let port0_median_delay = match calculate_percentiles_f64(behind0.as_slice()) {
        Some(p) => Some(p.p50),
        None => None,
    };
    let port1_median_delay = match calculate_percentiles_f64(behind1.as_slice()) {
        Some(p) => Some(p.p50),
        None => None,
    };
    LossSummary {
        port0_shreds: state.port0_data.len(),
        port1_shreds: state.port1_data.len(),
        matched_pairs: state.matched_pairs,
        port0_losses: behind0.len(),
        port1_losses: behind1.len(),
        port0_median_delay,
        port1_median_delay,
    }
}

/// A median delay; there is none where nothing was lost.
pub open spec fn delay_text(delay: Option<i64>) -> Seq<char> {
    match delay {
        Some(d) => nanos_text(d as int),
        None => "n/a"@,
    }
}

/// The line that says which source loses how often, and by how much. The
/// percentages come as text: all their digits are shown, which is floating
/// point.
pub open spec fn loss_text(
    s: LossSummary,
    name_0: Seq<char>,
    percent_0: Seq<char>,
    name_1: Seq<char>,
    percent_1: Seq<char>,
) -> Seq<char> {
    "Port "@ + name_0 + ": "@ + decimal(s.port0_shreds as nat) + " | Port "@ + name_1 + ": "@
        + decimal(s.port1_shreds as nat) + " | Matched: "@ + decimal(s.matched_pairs as nat)
        + " | "@ + name_0 + " loses in "@ + percent_0 + "% with median delay : "@
        + delay_text(s.port0_median_delay) + " AND "@ + name_1 + " loses in "@ + percent_1
        + "% with median delay: "@ + delay_text(s.port1_median_delay)
}

/// Appends a median delay.
fn append_delay(out: &mut String, delay: Option<i64>)
    requires
        delay matches Some(d) ==> d != i64::MIN,
    ensures
        final(out)@ == old(out)@ + delay_text(delay),
{
    match delay {
        Some(d) => out.append(format_nanos(d).as_str()),
        None => out.append("n/a"),
    }
}

/// The line that says which source loses how often, and by how much.
pub fn loss_line(
    summary: &LossSummary,
    name_0: &str,
    percent_0: &str,
    name_1: &str,
    percent_1: &str,
) -> (out: String)
    requires
        summary.port0_median_delay matches Some(d) ==> d != i64::MIN,
        summary.port1_median_delay matches Some(d) ==> d != i64::MIN,
    ensures
        out@ == loss_text(*summary, name_0@, percent_0@, name_1@, percent_1@),
{
    let mut out = String::from_str("Port ");
    out.append(name_0);
    out.append(": ");
    append_decimal(&mut out, summary.port0_shreds as u128);
    out.append(" | Port ");
    out.append(name_1);
    out.append(": ");
    append_decimal(&mut out, summary.port1_shreds as u128);
    out.append(" | Matched: ");
    append_decimal(&mut out, summary.matched_pairs as u128);
    out.append(" | ");
    out.append(name_0);
    out.append(" loses in ");
    out.append(percent_0);
    out.append("% with median delay : ");
    append_delay(&mut out, summary.port0_median_delay);
    out.append(" AND ");
    out.append(name_1);
    out.append(" loses in ");
    out.append(percent_1);
    out.append("% with median delay: ");
    append_delay(&mut out, summary.port1_median_delay);
    out
}

/// The whole report, line by line; as soon as there is a pair, its last line
/// says which source loses how often, and by how much.
pub open spec fn full_report_text(
    v: ProcessorView,
    name_0: Seq<char>,
    percent_0: Seq<char>,
    name_1: Seq<char>,
    percent_1: Seq<char>,
) -> Seq<Seq<char>> {
    let losses = if v.matched_pairs > 0 {
        seq![loss_text(losses_of(v), name_0, percent_0, name_1, percent_1)]
    } else {
        seq![]
    };
    report_text(v, name_0, name_1) + losses
}

/// The statistics, line by line; as soon as there is a pair, with the line that
/// says which source loses how often, and by how much.
pub fn full_report(
    state: &ProcessorState,
    name_0: &str,
    percent_0: &str,
    name_1: &str,
    percent_1: &str,
) -> (r: Vec<String>)
    requires
        state.wf(),
        reportable(state@),
        !state@.diffs.contains(i64::MIN),
    ensures
        r@.map_values(|s: String| s@) == full_report_text(
            state@,
            name_0@,
            percent_0@,
            name_1@,
            percent_1@,
        ),
{
    let mut r = report_stats(state, name_0, name_1);
    let ghost lines = r@.map_values(|s: String| s@);
    if state.matched_pairs > 0 {
        let line = loss_line(&loss_summary(state), name_0, percent_0, name_1, percent_1);
        r.push(line);
        assert(r@.map_values(|s: String| s@) =~= lines.push(line@));
    }
    assert(r@.map_values(|s: String| s@) =~= full_report_text(
        state@,
        name_0@,
        percent_0@,
        name_1@,
        percent_1@,
    ));
    r
}

} // verus!
