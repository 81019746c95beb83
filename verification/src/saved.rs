//! What is saved at the end, told from the records and the samples.

use vstd::prelude::*;

use crate::percentiles::{arranged, law_summary_stands_at};
use crate::shred::ShredId;
use crate::state::{ProcessorView, SlotView};
use crate::stats::{is_saved, slot_entry, EndpointSummary, StatsData};

verus! {

/// The delay is the time from `from` to `to`; zero where `to` lies before.
pub open spec fn is_delay(delay: u128, from: u128, to: u128) -> bool {
    &&& from <= to ==> delay == to - from
    &&& from > to ==> delay == 0
}

/// The processing delay of a source in a slot is the time from its first shred
/// to the last one of its record, however many lie between; zero where it has
/// delivered nothing. An entry carries the number of its slot.
pub proof fn law_processing_delay(slot: u64, s: SlotView, now: u128)
    ensures
        ({
            let e = slot_entry(slot, s, now);
            let n0 = s.port0_shreds.len() as int;
            let n1 = s.port1_shreds.len() as int;
            &&& e.slot == slot
            &&& s.port0_first is Some && n0 > 0 ==> is_delay(
                e.endpoint1.processing_delay_ns,
                s.port0_first->0,
                s.port0_shreds[n0 - 1].1,
            )
            &&& s.port1_first is Some && n1 > 0 ==> is_delay(
                e.endpoint2.processing_delay_ns,
                s.port1_first->0,
                s.port1_shreds[n1 - 1].1,
            )
            &&& s.port0_first is None || n0 == 0 ==> e.endpoint1.processing_delay_ns == 0
            &&& s.port1_first is None || n1 == 0 ==> e.endpoint2.processing_delay_ns == 0
        }),
{
}

/// With times that ascend, one more shred of a slot lengthens the processing
/// delay of its source by exactly the time since the shred before it.
pub proof fn law_processing_delay_grows(
    slot: u64,
    a: SlotView,
    b: SlotView,
    now: u128,
    id: ShredId,
    time: u128,
)
    ensures
        ({
            let x = slot_entry(slot, a, now);
            let y = slot_entry(slot, b, now);
            let n0 = a.port0_shreds.len() as int;
            let n1 = a.port1_shreds.len() as int;
            &&& n0 > 0 && a.port0_first is Some && b.port0_first == a.port0_first && b.port0_shreds
                == a.port0_shreds.push((id, time)) && a.port0_first->0 <= a.port0_shreds[n0 - 1].1
                <= time ==> y.endpoint1.processing_delay_ns - x.endpoint1.processing_delay_ns
                == time - a.port0_shreds[n0 - 1].1
            &&& n1 > 0 && a.port1_first is Some && b.port1_first == a.port1_first && b.port1_shreds
                == a.port1_shreds.push((id, time)) && a.port1_first->0 <= a.port1_shreds[n1 - 1].1
                <= time ==> y.endpoint2.processing_delay_ns - x.endpoint2.processing_delay_ns
                == time - a.port1_shreds[n1 - 1].1
        }),
{
}

/// The delay of the first shred of a slot, on both sources: the time since the
/// other source had its first shred, until this one had its own, or until now
/// where it never had one; zero where the other source never had one.
pub proof fn law_first_shred_delay(slot: u64, s: SlotView, now: u128)
    ensures
        ({
            let e = slot_entry(slot, s, now);
            let d1 = e.endpoint1.first_shred_delay_ns;
            let d2 = e.endpoint2.first_shred_delay_ns;
            &&& s.port1_first is None ==> d1 == 0
            &&& s.port0_first is None ==> d2 == 0
            &&& s.port0_first is Some && s.port1_first is Some ==> is_delay(
                d1,
                s.port1_first->0,
                s.port0_first->0,
            ) && is_delay(d2, s.port0_first->0, s.port1_first->0)
            &&& s.port0_first is None && s.port1_first is Some ==> is_delay(
                d1,
                s.port1_first->0,
                now,
            )
            &&& s.port1_first is None && s.port0_first is Some ==> is_delay(
                d2,
                s.port0_first->0,
                now,
            )
        }),
{
}

/// Nothing is saved of what is not measured.
pub open spec fn measures_no_more(s: EndpointSummary) -> bool {
    &&& s.first_shred_delay is None
    &&& s.processing_delay is None
    &&& s.confirmation_delay is None
    &&& s.finalization_delay is None
    &&& s.download_time is None
    &&& s.replay_time is None
    &&& s.confirmation_time is None
    &&& s.finalization_time is None
    &&& s.account_delay is None
}

/// What is saved has one entry for each slot with a record, and no others, by
/// ascending number.
pub proof fn law_saved_slots(v: ProcessorView, now: u128, r: StatsData)
    requires
        is_saved(v, now, r),
    ensures
        forall|i: int, j: int| 0 <= i < j < r.slots@.len() ==> r.slots@[i].slot < r.slots@[j].slot,
        forall|i: int|
            0 <= i < r.slots@.len() ==> v.slots.contains_key((#[trigger] r.slots@[i]).slot),
        forall|slot: u64|
            v.slots.contains_key(slot) ==> exists|i: int|
                0 <= i < r.slots@.len() && (#[trigger] r.slots@[i]).slot == slot,
        r.slots@.len() == v.slots.dom().len(),
{
    assert forall|slot: u64| v.slots.contains_key(slot) implies exists|i: int|
        0 <= i < r.slots@.len() && (#[trigger] r.slots@[i]).slot == slot by {
        assert(v.slots.contains_key(slot));
    }
}

/// The entry that is saved for a slot has the delays of both sources, each told
/// from the record of the slot.
pub proof fn law_saved_entry(v: ProcessorView, now: u128, r: StatsData, i: int)
    requires
        is_saved(v, now, r),
        0 <= i < r.slots@.len(),
    ensures
        ({
            let e = r.slots@[i];
            let s = v.slots[e.slot];
            let n0 = s.port0_shreds.len() as int;
            let n1 = s.port1_shreds.len() as int;
            let first0 = s.port0_first;
            let first1 = s.port1_first;
            &&& first0 is Some && n0 > 0 ==> is_delay(
                e.endpoint1.processing_delay_ns,
                first0->0,
                s.port0_shreds[n0 - 1].1,
            )
            &&& first1 is Some && n1 > 0 ==> is_delay(
                e.endpoint2.processing_delay_ns,
                first1->0,
                s.port1_shreds[n1 - 1].1,
            )
            &&& first0 is None || n0 == 0 ==> e.endpoint1.processing_delay_ns == 0
            &&& first1 is None || n1 == 0 ==> e.endpoint2.processing_delay_ns == 0
            &&& first1 is Some ==> is_delay(
                e.endpoint1.first_shred_delay_ns,
                first1->0,
                if first0 is Some {
                    first0->0
                } else {
                    now
                },
            )
            &&& first0 is Some ==> is_delay(
                e.endpoint2.first_shred_delay_ns,
                first0->0,
                if first1 is Some {
                    first1->0
                } else {
                    now
                },
            )
            &&& first1 is None ==> e.endpoint1.first_shred_delay_ns == 0
            &&& first0 is None ==> e.endpoint2.first_shred_delay_ns == 0
        }),
{
    let e = r.slots@[i];
    assert(v.slots.contains_key(e.slot));
    law_processing_delay(e.slot, v.slots[e.slot], now);
    law_first_shred_delay(e.slot, v.slots[e.slot], now);
}

/// What is saved of the samples: of the leads and of the differences, arranged
/// from the least to the greatest, the one in the middle, the one at nine tenths
/// and the one at 99 hundredths of the last position; nothing where there are no
/// samples, nothing of the second source, and nothing else of the first.
pub proof fn law_saved_samples(
    v: ProcessorView,
    now: u128,
    r: StatsData,
    leads: Seq<i64>,
    diffs: Seq<i64>,
)
    requires
        is_saved(v, now, r),
        arranged(v.lead_times, leads),
        arranged(v.diffs, diffs),
        leads.len() <= 0x4000_0000_0000,
        diffs.len() <= 0x4000_0000_0000,
    ensures
        ({
            let s = r.endpoint1_summary;
            let n = leads.len() - 1;
            let m = diffs.len() - 1;
            &&& measures_no_more(s)
            &&& s.lead_time is None <==> leads.len() == 0
            &&& s.diff_time is None <==> diffs.len() == 0
            &&& leads.len() > 0 ==> s.lead_time->0.p50 == leads[(n + 1) / 2]
                && s.lead_time->0.p90 == leads[(n * 9 + 5) / 10] && s.lead_time->0.p99
                == leads[(n * 99 + 50) / 100]
            &&& diffs.len() > 0 ==> s.diff_time->0.p50 == diffs[(m + 1) / 2]
                && s.diff_time->0.p90 == diffs[(m * 9 + 5) / 10] && s.diff_time->0.p99
                == diffs[(m * 99 + 50) / 100]
        }),
        measures_no_more(r.endpoint2_summary),
        r.endpoint2_summary.lead_time is None,
        r.endpoint2_summary.diff_time is None,
{
    v.lead_times.to_multiset_ensures();
    leads.to_multiset_ensures();
    v.diffs.to_multiset_ensures();
    diffs.to_multiset_ensures();
    law_summary_stands_at(v.lead_times, leads);
    law_summary_stands_at(v.diffs, diffs);
}

} // verus!
