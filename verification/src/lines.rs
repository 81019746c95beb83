//! The lines that are printed, told from what they show.

use vstd::prelude::*;
use vstd::string::*;

use crate::binary64::{fixed, nearest, quotient, Dyadic};
use crate::format::nanos_text;
use crate::laws::law_percentage_at_most_hundred;
use crate::percentiles::{
    arranged, law_percentiles_are_samples, law_percentiles_ascend, law_report_percentiles_stand_at,
    lemma_ascending_is, report_percentiles,
};
use crate::processor::{announcement_text, progress_text};
use crate::report::{
    first_seen_text, full_report_text, head_text, loss_text, losses_of, percentage,
    percentage_text, percentiles_text, printable, report_text, reportable, samples_text,
    LossSummary,
};
use crate::rounding::{
    law_arithmetic, lemma_half_even_is, lemma_nearest_near, lemma_percentage_near,
    lemma_product_with_integer, lemma_quotient_of_integers,
};
use crate::shred::ParsedShred;
use crate::state::ProcessorView;
use crate::text::{decimal, law_point_reads_back, shows};

verus! {

/// Some texts in a row, with a separator between each two.
pub open spec fn joined(parts: Seq<Seq<char>>, separator: Seq<char>) -> Seq<char>
    decreases parts.len(),
{
    if parts.len() == 0 {
        seq![]
    } else if parts.len() == 1 {
        parts[0]
    } else {
        joined(parts.drop_last(), separator) + separator + parts.last()
    }
}

/// One more text at the end of a row.
proof fn lemma_joined_push(parts: Seq<Seq<char>>, part: Seq<char>, separator: Seq<char>)
    ensures
        joined(parts.push(part), separator) == if parts.len() == 0 {
            part
        } else {
            joined(parts, separator) + separator + part
        },
{
    assert(parts.push(part).drop_last() =~= parts);
}

/// Three texts in a row.
proof fn lemma_joined_three(a: Seq<char>, b: Seq<char>, c: Seq<char>, separator: Seq<char>)
    ensures
        joined(seq![a, b, c], separator) == a + separator + b + separator + c,
{
    lemma_joined_push(seq![], a, separator);
    lemma_joined_push(seq![a], b, separator);
    lemma_joined_push(seq![a, b], c, separator);
    assert(Seq::<Seq<char>>::empty().push(a) =~= seq![a]);
    assert(seq![a].push(b) =~= seq![a, b]);
    assert(seq![a, b].push(c) =~= seq![a, b, c]);
}

/// The percentiles that a line of a report shows, in hundredths.
pub open spec fn shown_percentiles() -> Seq<nat> {
    seq![1, 5, 10, 25, 50, 75, 80, 90, 95, 99]
}

/// Where percentile `p` stands among `len` samples arranged from the least to
/// the greatest: at `p` hundredths of the last position, rounded to the nearest
/// one, ties upwards.
pub open spec fn place(len: nat, p: nat) -> int {
    ((len - 1) * p + 50) / 100
}

/// Percentile `p` with its value.
pub open spec fn labelled(p: nat, nanos: i64) -> Seq<char> {
    "P"@ + decimal(p) + "="@ + nanos_text(nanos as int)
}

/// The percentiles with their values, `t` being the samples arranged from the
/// least to the greatest.
pub open spec fn labelled_percentiles(t: Seq<i64>) -> Seq<Seq<char>> {
    Seq::new(
        10,
        |k: int| labelled(shown_percentiles()[k], t[place(t.len(), shown_percentiles()[k])]),
    )
}

/// The labels of the percentiles.
proof fn lemma_labels()
    ensures
        ": P1="@ == ": "@ + "P"@ + decimal(1) + "="@,
        ", P5="@ == ", "@ + "P"@ + decimal(5) + "="@,
        ", P10="@ == ", "@ + "P"@ + decimal(10) + "="@,
        ", P25="@ == ", "@ + "P"@ + decimal(25) + "="@,
        ", P50="@ == ", "@ + "P"@ + decimal(50) + "="@,
        ", P75="@ == ", "@ + "P"@ + decimal(75) + "="@,
        ", P80="@ == ", "@ + "P"@ + decimal(80) + "="@,
        ", P90="@ == ", "@ + "P"@ + decimal(90) + "="@,
        ", P95="@ == ", "@ + "P"@ + decimal(95) + "="@,
        ", P99="@ == ", "@ + "P"@ + decimal(99) + "="@,
{
    reveal_with_fuel(decimal, 3);
    reveal_strlit(": ");
    reveal_strlit(", ");
    reveal_strlit("P");
    reveal_strlit("=");
    reveal_strlit(": P1=");
    reveal_strlit(", P5=");
    reveal_strlit(", P10=");
    reveal_strlit(", P25=");
    reveal_strlit(", P50=");
    reveal_strlit(", P75=");
    reveal_strlit(", P80=");
    reveal_strlit(", P90=");
    reveal_strlit(", P95=");
    reveal_strlit(", P99=");
    assert(": P1="@ =~= ": "@ + "P"@ + decimal(1) + "="@);
    assert(", P5="@ =~= ", "@ + "P"@ + decimal(5) + "="@);
    assert(", P10="@ =~= ", "@ + "P"@ + decimal(10) + "="@);
    assert(", P25="@ =~= ", "@ + "P"@ + decimal(25) + "="@);
    assert(", P50="@ =~= ", "@ + "P"@ + decimal(50) + "="@);
    assert(", P75="@ =~= ", "@ + "P"@ + decimal(75) + "="@);
    assert(", P80="@ =~= ", "@ + "P"@ + decimal(80) + "="@);
    assert(", P90="@ =~= ", "@ + "P"@ + decimal(90) + "="@);
    assert(", P95="@ =~= ", "@ + "P"@ + decimal(95) + "="@);
    assert(", P99="@ =~= ", "@ + "P"@ + decimal(99) + "="@);
}

/// A row of percentiles behind a heading, with one more of them.
proof fn lemma_row_grows(
    head: Seq<char>,
    row: Seq<char>,
    parts: Seq<Seq<char>>,
    k: int,
    label: Seq<char>,
    p: nat,
    x: Seq<char>,
)
    requires
        0 < k < parts.len(),
        row == head + joined(parts.take(k), ", "@),
        label == ", "@ + "P"@ + decimal(p) + "="@,
        parts[k] == "P"@ + decimal(p) + "="@ + x,
    ensures
        row + label + x == head + joined(parts.take(k + 1), ", "@),
{
    assert(parts.take(k + 1) =~= parts.take(k).push(parts[k]));
    lemma_joined_push(parts.take(k), parts[k], ", "@);
    assert(row + label + x =~= head + (joined(parts.take(k), ", "@) + ", "@ + parts[k]));
}

/// A row of ten percentiles.
proof fn lemma_row(front: Seq<char>, x: Seq<Seq<char>>, parts: Seq<Seq<char>>)
    requires
        x.len() == 10,
        parts.len() == 10,
        forall|k: int|
            0 <= k < 10 ==> #[trigger] parts[k] == "P"@ + decimal(shown_percentiles()[k]) + "="@
                + x[k],
    ensures
        front + ": P1="@ + x[0] + ", P5="@ + x[1] + ", P10="@ + x[2] + ", P25="@ + x[3] + ", P50="@
            + x[4] + ", P75="@ + x[5] + ", P80="@ + x[6] + ", P90="@ + x[7] + ", P95="@ + x[8]
            + ", P99="@ + x[9] == front + ": "@ + joined(parts, ", "@),
{
    lemma_labels();
    let head = front + ": "@;
    let l1 = front + ": P1="@ + x[0];
    assert(parts.take(1) =~= seq![parts[0]]);
    assert(l1 =~= head + parts[0]);
    lemma_row_grows(head, l1, parts, 1, ", P5="@, 5, x[1]);
    let l2 = l1 + ", P5="@ + x[1];
    lemma_row_grows(head, l2, parts, 2, ", P10="@, 10, x[2]);
    let l3 = l2 + ", P10="@ + x[2];
    lemma_row_grows(head, l3, parts, 3, ", P25="@, 25, x[3]);
    let l4 = l3 + ", P25="@ + x[3];
    lemma_row_grows(head, l4, parts, 4, ", P50="@, 50, x[4]);
    let l5 = l4 + ", P50="@ + x[4];
    lemma_row_grows(head, l5, parts, 5, ", P75="@, 75, x[5]);
    let l6 = l5 + ", P75="@ + x[5];
    lemma_row_grows(head, l6, parts, 6, ", P80="@, 80, x[6]);
    let l7 = l6 + ", P80="@ + x[6];
    lemma_row_grows(head, l7, parts, 7, ", P90="@, 90, x[7]);
    let l8 = l7 + ", P90="@ + x[7];
    lemma_row_grows(head, l8, parts, 8, ", P95="@, 95, x[8]);
    let l9 = l8 + ", P95="@ + x[8];
    lemma_row_grows(head, l9, parts, 9, ", P99="@, 99, x[9]);
    assert(parts.take(10) =~= parts);
}

/// The places of the percentiles ascend.
proof fn lemma_places_ascend(len: nat)
    requires
        len > 0,
    ensures
        forall|i: int, j: int|
            0 <= i <= j < 10 ==> 0 <= #[trigger] place(len, shown_percentiles()[i])
                <= #[trigger] place(len, shown_percentiles()[j]) < len,
{
    let levels = shown_percentiles();
    assert forall|i: int, j: int| 0 <= i <= j < 10 implies 0 <= #[trigger] place(len, levels[i])
        <= #[trigger] place(len, levels[j]) < len by {
        let n = len - 1;
        let a = levels[i] as int;
        let b = levels[j] as int;
        assert(0 <= a <= b <= 99);
        assert(0 <= n * a <= n * b <= n * 99) by (nonlinear_arith)
            requires
                0 <= a <= b <= 99,
                n >= 0,
        ;
    }
}

/// The ten percentiles of a report stand at their places.
proof fn lemma_values(samples: Seq<i64>, t: Seq<i64>, k: int)
    requires
        arranged(samples, t),
        0 < samples.len() <= 0x4000_0000_0000,
        0 <= k < 10,
    ensures
        t.len() == samples.len(),
        report_percentiles(samples)[k] == t[place(t.len(), shown_percentiles()[k])],
{
    law_report_percentiles_stand_at(samples, t);
    assert(k == 0 || k == 1 || k == 2 || k == 3 || k == 4 || k == 5 || k == 6 || k == 7 || k == 8
        || k == 9);
}

/// A line of percentiles shows how many samples there are, and behind the label
/// of each percentile the sample that stands at its place, with the samples
/// arranged from the least to the greatest. So the values never descend from
/// left to right.
pub proof fn law_percentiles_line(
    name_0: Seq<char>,
    title: Seq<char>,
    samples: Seq<i64>,
    name_1: Seq<char>,
    t: Seq<i64>,
)
    requires
        arranged(samples, t),
        0 < samples.len() <= 0x4000_0000_0000,
    ensures
        percentiles_text(name_0, title, samples, name_1) == name_0 + title + decimal(samples.len())
            + ") against "@ + name_1 + ": "@ + joined(labelled_percentiles(t), ", "@),
        forall|i: int, j: int|
            0 <= i <= j < 10 ==> 0 <= #[trigger] place(t.len(), shown_percentiles()[i])
                <= #[trigger] place(t.len(), shown_percentiles()[j]) < t.len()
                && t[place(t.len(), shown_percentiles()[i])] <= t[place(
                t.len(),
                shown_percentiles()[j],
            )],
{
    let p = report_percentiles(samples);
    let parts = labelled_percentiles(t);
    let x = Seq::new(10, |k: int| nanos_text(p[k] as int));
    let front = name_0 + title + decimal(samples.len()) + ") against "@ + name_1;
    assert forall|k: int| 0 <= k < 10 implies #[trigger] parts[k] == "P"@ + decimal(
        shown_percentiles()[k],
    ) + "="@ + x[k] by {
        lemma_values(samples, t, k);
    }
    lemma_row(front, x, parts);
    lemma_values(samples, t, 0);
    lemma_places_ascend(t.len());
}

/// A share in a line of first sightings.
pub open spec fn share(name: Seq<char>, count: nat, percent: Seq<char>) -> Seq<char> {
    "{"@ + joined(
        seq!["From:"@ + name, "Nums:"@ + decimal(count), "Percent:"@ + percent + "%"@],
        ", "@,
    ) + "}"@
}

/// The parts of a share.
proof fn lemma_share(name: Seq<char>, count: nat, percent: Seq<char>)
    ensures
        share(name, count, percent) == "{From:"@ + name + ", Nums:"@ + decimal(count)
            + ", Percent:"@ + percent + "%}"@,
{
    reveal_strlit("{");
    reveal_strlit("}");
    reveal_strlit(", ");
    reveal_strlit("%");
    reveal_strlit("%}");
    reveal_strlit("From:");
    reveal_strlit("{From:");
    reveal_strlit("Nums:");
    reveal_strlit(", Nums:");
    reveal_strlit("Percent:");
    reveal_strlit(", Percent:");
    assert("{From:"@ =~= "{"@ + "From:"@);
    assert(", Nums:"@ =~= ", "@ + "Nums:"@);
    assert(", Percent:"@ =~= ", "@ + "Percent:"@);
    assert("%}"@ =~= "%"@ + "}"@);
    let a = "From:"@ + name;
    let b = "Nums:"@ + decimal(count);
    let c = "Percent:"@ + percent + "%"@;
    lemma_joined_three(a, b, c, ", "@);
    assert(share(name, count, percent) =~= "{From:"@ + name + ", Nums:"@ + decimal(count)
        + ", Percent:"@ + percent + "%}"@);
}

/// The line of first sightings shows three shares: that of port 0, that of other
/// sources, which is nothing, and that of port 1, each with its count, and with
/// its percentage of the sightings on both ports.
pub proof fn law_first_seen_line(
    name_0: Seq<char>,
    count_0: nat,
    name_1: Seq<char>,
    count_1: nat,
)
    ensures
        first_seen_text(name_0, count_0, name_1, count_1) == joined(
            seq![
                share(name_0, count_0, percentage_text(count_0, count_0 + count_1)),
                share("others"@, 0, "0.0"@),
                share(name_1, count_1, percentage_text(count_1, count_0 + count_1)),
            ],
            ", "@,
        ),
{
    let p0 = percentage_text(count_0, count_0 + count_1);
    let p1 = percentage_text(count_1, count_0 + count_1);
    let a = share(name_0, count_0, p0);
    let b = share("others"@, 0, "0.0"@);
    let c = share(name_1, count_1, p1);
    lemma_share(name_0, count_0, p0);
    lemma_share("others"@, 0, "0.0"@);
    lemma_share(name_1, count_1, p1);
    lemma_joined_three(a, b, c, ", "@);
    assert(", {From:others, Nums:0, Percent:0.0%}, "@ == ", "@ + b + ", "@) by {
        reveal_strlit(", {From:others, Nums:0, Percent:0.0%}, ");
        reveal_strlit(", ");
        reveal_strlit("{From:");
        reveal_strlit("others");
        reveal_strlit(", Nums:");
        reveal_strlit(", Percent:");
        reveal_strlit("0.0");
        reveal_strlit("%}");
        assert(", {From:others, Nums:0, Percent:0.0%}, "@ =~= ", "@ + b + ", "@);
    }
    assert(first_seen_text(name_0, count_0, name_1, count_1) =~= a + (", "@ + b + ", "@) + c);
    assert(a + (", "@ + b + ", "@) + c =~= a + ", "@ + b + ", "@ + c);
}

/// A percentage is shown with one place behind the point, and what is shown is at
/// most half a tenth off, but for one part in 2^36 of that. It is 0.0 for
/// nothing, and where there is no total.
pub proof fn law_percentage_is_near(count: nat, total: nat) -> (tenths: nat)
    requires
        count <= total < 0x20_0000_0000_0000,
    ensures
        shows(percentage_text(count, total), tenths, 1),
        tenths <= 1_000,
        count == 0 ==> tenths == 0,
        2 * 0x10_0000_0000 * (tenths * total - 1_000 * count) <= 0x10_0000_0001 * total,
        -(0x10_0000_0001 * total) <= 2 * 0x10_0000_0000 * (tenths * total - 1_000 * count),
{
    let tenths = fixed(percentage(count, total), 10);
    law_point_reads_back(tenths, 1);
    law_percentage_at_most_hundred(count, total);
    if count > 0 {
        lemma_percentage_near(count, total);
    } else {
        vstd::arithmetic::power2::lemma2_to64();
        if total > 0 {
            assert(0 * nearest(100, 1).mant == 0);
        }
        assert(percentage(count, total).mant == 0);
        lemma_zero_prints_zero(percentage(count, total));
        assert(tenths * total == 0) by (nonlinear_arith)
            requires
                tenths == 0,
        ;
        assert(tenths * total - 1_000 * count == 0);
    }
    tenths
}

/// Zero is printed as zero.
proof fn lemma_zero_prints_zero(x: Dyadic)
    requires
        x.mant == 0,
    ensures
        fixed(x, 10) == 0,
{
    let scaled = x.mant * 10;
    if x.exp >= 0 {
        let p = vstd::arithmetic::power2::pow2(x.exp as nat);
        assert(scaled * p == 0) by (nonlinear_arith)
            requires
                scaled == 0,
        ;
    } else {
        let p = vstd::arithmetic::power2::pow2((-x.exp) as nat);
        vstd::arithmetic::power2::lemma_pow2_pos((-x.exp) as nat);
        lemma_half_even_is(scaled, p, 0);
    }
}

/// A median delay as it is shown.
pub open spec fn shown_delay(delay: Option<i64>) -> Seq<char> {
    if delay is Some {
        nanos_text(delay->0 as int)
    } else {
        "n/a"@
    }
}

/// The clauses of a line of losses behind its front.
proof fn lemma_loss_order(
    front: Seq<char>,
    name_0: Seq<char>,
    percent_0: Seq<char>,
    x0: Seq<char>,
    name_1: Seq<char>,
    percent_1: Seq<char>,
    x1: Seq<char>,
)
    ensures
        front + name_0 + " loses in "@ + percent_0 + "% with median delay : "@ + x0 + " AND "@
            + name_1 + " loses in "@ + percent_1 + "% with median delay: "@ + x1 == front + (name_0
            + " loses in "@ + percent_0 + "% with median delay : "@) + x0 + " AND "@ + (name_1
            + " loses in "@ + percent_1 + "% with median delay: "@) + x1,
{
    let a = name_0 + " loses in "@ + percent_0 + "% with median delay : "@;
    let b = name_1 + " loses in "@ + percent_1 + "% with median delay: "@;
    assert(front + name_0 + " loses in "@ + percent_0 + "% with median delay : "@ =~= front + a);
    let mid = front + a + x0 + " AND "@;
    assert(mid + name_1 + " loses in "@ + percent_1 + "% with median delay: "@ =~= mid + b);
}

/// The parts of a line of losses.
proof fn lemma_loss_line(
    name_0: Seq<char>,
    n0: Seq<char>,
    name_1: Seq<char>,
    n1: Seq<char>,
    n2: Seq<char>,
    clause_0: Seq<char>,
    x0: Seq<char>,
    clause_1: Seq<char>,
    x1: Seq<char>,
)
    ensures
        "Port "@ + name_0 + ": "@ + n0 + " | Port "@ + name_1 + ": "@ + n1 + " | Matched: "@ + n2
            + " | "@ + clause_0 + x0 + " AND "@ + clause_1 + x1 == joined(
            seq![
                "Port "@ + name_0 + ": "@ + n0,
                "Port "@ + name_1 + ": "@ + n1,
                "Matched: "@ + n2,
            ].push(clause_0 + x0 + " AND "@ + clause_1 + x1),
            " | "@,
        ),
{
    let a = "Port "@ + name_0 + ": "@ + n0;
    let b = "Port "@ + name_1 + ": "@ + n1;
    let c = "Matched: "@ + n2;
    let d = clause_0 + x0 + " AND "@ + clause_1 + x1;
    let bar = " | "@;
    lemma_joined_three(a, b, c, bar);
    lemma_joined_push(seq![a, b, c], d, bar);
    assert(" | Port "@ == bar + "Port "@) by {
        reveal_strlit(" | Port ");
        reveal_strlit(" | ");
        reveal_strlit("Port ");
        assert(" | Port "@ =~= bar + "Port "@);
    }
    assert(" | Matched: "@ == bar + "Matched: "@) by {
        reveal_strlit(" | Matched: ");
        reveal_strlit(" | ");
        reveal_strlit("Matched: ");
        assert(" | Matched: "@ =~= bar + "Matched: "@);
    }
    assert(a + " | Port "@ + name_1 + ": "@ + n1 =~= a + bar + b);
    assert(a + bar + b + " | Matched: "@ + n2 =~= a + bar + b + bar + c);
    let front = a + bar + b + bar + c + bar;
    assert(front + clause_0 + x0 + " AND "@ + clause_1 + x1 =~= front + d);
}

/// The line of losses shows, one behind the other, how many shreds each port
/// holds, how many pairs there are, and for each source its percentage and its
/// median delay, each behind the name of its own source.
pub proof fn law_loss_line(
    s: LossSummary,
    name_0: Seq<char>,
    percent_0: Seq<char>,
    name_1: Seq<char>,
    percent_1: Seq<char>,
)
    ensures
        loss_text(s, name_0, percent_0, name_1, percent_1) == joined(
            seq![
                "Port "@ + name_0 + ": "@ + decimal(s.port0_shreds as nat),
                "Port "@ + name_1 + ": "@ + decimal(s.port1_shreds as nat),
                "Matched: "@ + decimal(s.matched_pairs as nat),
            ].push(
                name_0 + " loses in "@ + percent_0 + "% with median delay : "@ + shown_delay(
                    s.port0_median_delay,
                ) + " AND "@ + name_1 + " loses in "@ + percent_1 + "% with median delay: "@
                    + shown_delay(s.port1_median_delay),
            ),
            " | "@,
        ),
{
    lemma_loss_line(
        name_0,
        decimal(s.port0_shreds as nat),
        name_1,
        decimal(s.port1_shreds as nat),
        decimal(s.matched_pairs as nat),
        name_0 + " loses in "@ + percent_0 + "% with median delay : "@,
        shown_delay(s.port0_median_delay),
        name_1 + " loses in "@ + percent_1 + "% with median delay: "@,
        shown_delay(s.port1_median_delay),
    );
    lemma_loss_order(
        "Port "@ + name_0 + ": "@ + decimal(s.port0_shreds as nat) + " | Port "@ + name_1 + ": "@
            + decimal(s.port1_shreds as nat) + " | Matched: "@ + decimal(s.matched_pairs as nat)
            + " | "@,
        name_0,
        percent_0,
        shown_delay(s.port0_median_delay),
        name_1,
        percent_1,
        shown_delay(s.port1_median_delay),
    );
    assert(name_0 + " loses in "@ + percent_0 + "% with median delay : "@ + shown_delay(
        s.port0_median_delay,
    ) + " AND "@ + (name_1 + " loses in "@ + percent_1 + "% with median delay: "@) + shown_delay(
        s.port1_median_delay,
    ) =~= name_0 + " loses in "@ + percent_0 + "% with median delay : "@ + shown_delay(
        s.port0_median_delay,
    ) + " AND "@ + name_1 + " loses in "@ + percent_1 + "% with median delay: "@ + shown_delay(
        s.port1_median_delay,
    ));
}

/// How many lines of a report there are before the one that shows the losses.
pub open spec fn lines_of_samples(v: ProcessorView) -> int {
    (if v.lead_times.len() > 0 {
        1int
    } else {
        0
    }) + (if v.diffs.len() > 0 {
        1int
    } else {
        0
    })
}

/// Where the lines of four parts of a report stand.
proof fn lemma_lines(
    head: Seq<Seq<char>>,
    lead: Seq<Seq<char>>,
    diff: Seq<Seq<char>>,
    losses: Seq<Seq<char>>,
)
    requires
        head.len() == 3,
        lead.len() <= 1,
        diff.len() <= 1,
        losses.len() <= 1,
    ensures
        ({
            let r = head + lead + diff + losses;
            let n = 3 + lead.len() + diff.len();
            &&& r.len() == n + losses.len()
            &&& r[0] == head[0] && r[1] == head[1] && r[2] == head[2]
            &&& lead.len() > 0 ==> r[3] == lead[0]
            &&& diff.len() > 0 ==> r[n - 1] == diff[0]
            &&& losses.len() > 0 ==> r[n as int] == losses[0]
            &&& head + lead + diff == r.take(n as int)
        }),
{
    let r = head + lead + diff + losses;
    assert(head + lead + diff =~= r.take((3 + lead.len() + diff.len()) as int));
}

/// A report has, in this order: a heading, an empty line, the line of first
/// sightings; the line of the leads where there are any; the line of the
/// differences where there are any; the line of losses where there is a pair.
#[verifier::spinoff_prover]
#[verifier::rlimit(40)]
pub proof fn law_report_lines(
    v: ProcessorView,
    name_0: Seq<char>,
    percent_0: Seq<char>,
    name_1: Seq<char>,
    percent_1: Seq<char>,
)
    ensures
        ({
            let r = full_report_text(v, name_0, percent_0, name_1, percent_1);
            let n = 3 + lines_of_samples(v);
            &&& r.len() == n + (if v.matched_pairs > 0 {
                1int
            } else {
                0
            })
            &&& r[0] == "First seen shred in 1min"@
            &&& r[1].len() == 0
            &&& r[2] == first_seen_text(name_0, v.first_seen_port0, name_1, v.first_seen_port1)
            &&& v.lead_times.len() > 0 ==> r[3] == percentiles_text(
                name_0,
                "-led shred lead time (n="@,
                v.lead_times,
                name_1,
            )
            &&& v.diffs.len() > 0 ==> r[n - 1] == percentiles_text(
                name_0,
                "-diff shred diff time (n="@,
                v.diffs,
                name_1,
            )
            &&& v.matched_pairs > 0 ==> r[n] == loss_text(
                losses_of(v),
                name_0,
                percent_0,
                name_1,
                percent_1,
            )
            &&& report_text(v, name_0, name_1) == r.take(n)
        }),
{
    reveal_strlit("");
    let losses = if v.matched_pairs > 0 {
        seq![loss_text(losses_of(v), name_0, percent_0, name_1, percent_1)]
    } else {
        seq![]
    };
    lemma_lines(
        head_text(v, name_0, name_1),
        samples_text(name_0, "-led shred lead time (n="@, v.lead_times, name_1),
        samples_text(name_0, "-diff shred diff time (n="@, v.diffs, name_1),
        losses,
    );
}

/// Samples can be printed unless the least of their percentiles is the least
/// number of 64 bits, which has no magnitude; so wherever that number is not
/// among them.
pub proof fn law_what_can_be_printed(samples: Seq<i64>, t: Seq<i64>)
    requires
        arranged(samples, t),
    ensures
        samples.len() <= 0x4000_0000_0000 ==> (printable(samples) <==> t.len() == 0 || t[place(
            t.len(),
            1,
        )] != i64::MIN),
        !samples.contains(i64::MIN) ==> printable(samples),
{
    lemma_ascending_is(samples, t);
    if samples.len() > 0 {
        if samples.len() <= 0x4000_0000_0000 {
            lemma_values(samples, t, 0);
        }
        law_percentiles_ascend(samples);
        law_percentiles_are_samples(samples);
        let p = report_percentiles(samples);
        if p[0] != i64::MIN {
            assert forall|k: int| 0 <= k < 10 implies #[trigger] p[k] != i64::MIN by {
                assert(p[0] <= p[k]);
            }
        }
    }
}

/// A comparison can be reported exactly where its first sightings can be added
/// up and its samples can be printed.
pub proof fn law_what_can_be_reported(v: ProcessorView)
    ensures
        reportable(v) <==> v.first_seen_port0 + v.first_seen_port1 <= usize::MAX && printable(
            v.lead_times,
        ) && printable(v.diffs),
{
}

/// The line of progress shows how many slots have been seen and how many there
/// may be; there is one exactly where there is a limit.
pub proof fn law_progress_line(v: ProcessorView, max_slots: u64)
    ensures
        progress_text(v, max_slots) is Some <==> max_slots > 0,
        max_slots > 0 ==> progress_text(v, max_slots)->0 == joined(
            seq![
                "Processed"@,
                decimal(v.seen_slots.len()),
                "/"@ + " "@ + decimal(max_slots as nat) + " "@ + "slots"@,
            ],
            " "@,
        ),
{
    reveal_strlit("Processed ");
    reveal_strlit("Processed");
    reveal_strlit(" / ");
    reveal_strlit("/");
    reveal_strlit(" ");
    reveal_strlit(" slots");
    reveal_strlit("slots");
    let seen = decimal(v.seen_slots.len());
    let limit = decimal(max_slots as nat);
    lemma_joined_three("Processed"@, seen, "/"@ + " "@ + limit + " "@ + "slots"@, " "@);
    assert("Processed "@ =~= "Processed"@ + " "@);
    assert(" / "@ =~= " "@ + "/"@ + " "@);
    assert(" slots"@ =~= " "@ + "slots"@);
    assert("Processed "@ + seen + " / "@ + limit + " slots"@ =~= "Processed"@ + " "@ + seen + " "@
        + ("/"@ + " "@ + limit + " "@ + "slots"@));
}

/// The line that announces a source shows the name of the source, and the
/// version, the slot and the index of its shred.
pub proof fn law_announcement_line(name: Seq<char>, shred: ParsedShred)
    ensures
        announcement_text(name, shred) == joined(
            seq![
                "["@ + name + "] Shred version: "@ + decimal(shred.version as nat),
                "slot: "@ + decimal(shred.slot as nat),
                "index: "@ + decimal(shred.id.index as nat),
            ],
            ", "@,
        ),
{
    reveal_strlit(", ");
    reveal_strlit("slot: ");
    reveal_strlit(", slot: ");
    reveal_strlit("index: ");
    reveal_strlit(", index: ");
    let a = "["@ + name + "] Shred version: "@ + decimal(shred.version as nat);
    let b = "slot: "@ + decimal(shred.slot as nat);
    let c = "index: "@ + decimal(shred.id.index as nat);
    lemma_joined_three(a, b, c, ", "@);
    assert(", slot: "@ =~= ", "@ + "slot: "@);
    assert(", index: "@ =~= ", "@ + "index: "@);
    assert(announcement_text(name, shred) =~= a + ", "@ + b + ", "@ + c);
}

/// A percentage is taken in two steps, each rounded once: the count over the
/// total, and that times a hundred; zero where there is no total.
pub proof fn law_percentage_steps(count: nat, total: nat)
    requires
        count < 0x20_0000_0000_0000,
        total < 0x20_0000_0000_0000,
    ensures
        total == 0 || count == 0 ==> percentage(count, total).mant == 0,
        total > 0 && count > 0 ==> {
            let q = nearest(count, total);
            let y = nearest(q.mant * 100, 1);
            percentage(count, total) == (Dyadic { mant: y.mant, exp: y.exp + q.exp })
        },
{
    lemma_nearest_near(100, 1);
    if total > 0 && count > 0 {
        lemma_quotient_of_integers(count, total);
        let q = nearest(count, total);
        lemma_nearest_near(count, total);
        lemma_product_with_integer(q, 100);
        lemma_nearest_near(q.mant * 100, 1);
    } else if total > 0 {
        lemma_nearest_near(total, 1);
        law_arithmetic(nearest(count, 1), nearest(total, 1));
        law_arithmetic(quotient(nearest(count, 1), nearest(total, 1)), nearest(100, 1));
    }
}

} // verus!
