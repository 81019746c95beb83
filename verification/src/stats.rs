//! The statistics that are saved at the end.

use vstd::prelude::*;

use crate::percentiles::{calculate_percentiles_f64, summary_percentiles, Percentiles};
use crate::shred::ShredId;
use crate::sort::sorted;
use crate::state::{ProcessorState, ProcessorView, SlotInfo, SlotView};

verus! {

broadcast use vstd::std_specs::hash::group_hash_axioms;

/// The samples of one source, summed up. What is not measured is absent.
#[derive(Clone, Copy, Debug, PartialEq, Eq)]
pub struct EndpointSummary {
    pub first_shred_delay: Option<Percentiles>,
    pub processing_delay: Option<Percentiles>,
    pub confirmation_delay: Option<Percentiles>,
    pub finalization_delay: Option<Percentiles>,
    pub download_time: Option<Percentiles>,
    pub replay_time: Option<Percentiles>,
    pub confirmation_time: Option<Percentiles>,
    pub finalization_time: Option<Percentiles>,
    pub account_delay: Option<Percentiles>,
    pub lead_time: Option<Percentiles>,
    pub diff_time: Option<Percentiles>,
}

/// One slot on one source, in nanoseconds.
#[derive(Clone, Copy, Debug, PartialEq, Eq)]
pub struct SlotEndpointData {
    pub first_shred_delay_ns: u128,
    pub processing_delay_ns: u128,
}

/// One slot on both sources.
#[derive(Clone, Copy, Debug, PartialEq, Eq)]
pub struct SlotData {
    pub slot: u64,
    pub endpoint1: SlotEndpointData,
    pub endpoint2: SlotEndpointData,
}

/// All that is saved.
#[derive(Debug)]
pub struct StatsData {
    pub endpoint1_summary: EndpointSummary,
    pub endpoint2_summary: EndpointSummary,
    pub slots: Vec<SlotData>,
}

/// A summary with the two samples that are measured.
pub open spec fn summary_of(
    lead_time: Option<Percentiles>,
    diff_time: Option<Percentiles>,
) -> EndpointSummary {
    EndpointSummary {
        first_shred_delay: None,
        processing_delay: None,
        confirmation_delay: None,
        finalization_delay: None,
        download_time: None,
        replay_time: None,
        confirmation_time: None,
        finalization_time: None,
        account_delay: None,
        lead_time,
        diff_time,
    }
}

/// The time from one point to another; zero where that lies before.
pub open spec fn elapsed(from: u128, to: u128) -> u128 {
    if from <= to {
        (to - from) as u128
    } else {
        0
    }
}

/// How late the first shred of a slot came on one source: measured against the
/// other source, up to now where it never came, zero where only it came.
pub open spec fn first_shred_delay(own: Option<u128>, other: Option<u128>, now: u128) -> u128 {
    match (own, other) {
        (Some(a), Some(b)) => elapsed(b, a),
        (None, Some(b)) => elapsed(b, now),
        (_, None) => 0,
    }
}

/// The time from the first shred of a slot to the last one on one source.
pub open spec fn processing_delay(first: Option<u128>, shreds: Seq<(ShredId, u128)>) -> u128 {
    match first {
        Some(t) => if shreds.len() > 0 {
            elapsed(t, shreds.last().1)
        } else {
            0
        },
        None => 0,
    }
}

/// The entry of a slot.
pub open spec fn slot_entry(slot: u64, s: SlotView, now: u128) -> SlotData {
    SlotData {
        slot,
        endpoint1: SlotEndpointData {
            first_shred_delay_ns: first_shred_delay(s.port0_first, s.port1_first, now),
            processing_delay_ns: processing_delay(s.port0_first, s.port0_shreds),
        },
        endpoint2: SlotEndpointData {
            first_shred_delay_ns: first_shred_delay(s.port1_first, s.port0_first, now),
            processing_delay_ns: processing_delay(s.port1_first, s.port1_shreds),
        },
    }
}

/// One entry for each slot, by ascending slot number.
pub open spec fn are_entries(entries: Seq<SlotData>, v: ProcessorView, now: u128) -> bool {
    &&& entries.len() == v.slots.dom().len()
    &&& forall|i: int, j: int| 0 <= i < j < entries.len() ==> entries[i].slot < entries[j].slot
    &&& forall|i: int|
        0 <= i < entries.len() ==> v.slots.contains_key((#[trigger] entries[i]).slot)
            && entries[i] == slot_entry(entries[i].slot, v.slots[entries[i].slot], now)
    &&& forall|slot: u64| #[trigger]
        v.slots.contains_key(slot) ==> exists|i: int|
            0 <= i < entries.len() && (#[trigger] entries[i]).slot == slot
}

/// All that is saved of a comparison: the samples of the first source, summed up,
/// and the entries of the slots.
pub open spec fn is_saved(v: ProcessorView, now: u128, r: StatsData) -> bool {
    &&& r.endpoint1_summary == summary_of(
        summary_percentiles(v.lead_times),
        summary_percentiles(v.diffs),
    )
    &&& r.endpoint2_summary == summary_of(None, None)
    &&& are_entries(r.slots@, v, now)
}

/// The time from one point to another.
fn time_between(from: u128, to: u128) -> (r: u128)
    ensures
        r == elapsed(from, to),
{
    if from <= to {
        to - from
    } else {
        0
    }
}

/// How late the first shred of a slot came on one source.
fn delay_of_first(own: Option<u128>, other: Option<u128>, now: u128) -> (r: u128)
    ensures
        r == first_shred_delay(own, other, now),
{
    match other {
        Some(b) => match own {
            Some(a) => time_between(b, a),
            None => time_between(b, now),
        },
        None => 0,
    }
}

/// The time from the first shred of a slot to the last one on one source.
fn delay_of_processing(first: Option<u128>, shreds: &Vec<(ShredId, u128)>) -> (r: u128)
    ensures
        r == processing_delay(first, shreds@),
{
    match first {
        Some(t) => {
            let n: usize = shreds.len();
            if n > 0 {
                time_between(t, shreds[n - 1].1)
            } else {
                0
            }
        },
        None => 0,
    }
}

/// The entry of a slot.
pub fn slot_stats(slot: u64, info: &SlotInfo, now: u128) -> (r: SlotData)
    ensures
        r == slot_entry(slot, info@, now),
{
    SlotData {
        slot,
        endpoint1: SlotEndpointData {
            first_shred_delay_ns: delay_of_first(
                info.port0_first_shred_time,
                info.port1_first_shred_time,
                now,
            ),
            processing_delay_ns: delay_of_processing(
                info.port0_first_shred_time,
                &info.port0_shreds,
            ),
        },
        endpoint2: SlotEndpointData {
            first_shred_delay_ns: delay_of_first(
                info.port1_first_shred_time,
                info.port0_first_shred_time,
                now,
            ),
            processing_delay_ns: delay_of_processing(
                info.port1_first_shred_time,
                &info.port1_shreds,
            ),
        },
    }
}

/// A summary with the two samples that are measured.
fn summarise(lead_time: Option<Percentiles>, diff_time: Option<Percentiles>) -> (r: EndpointSummary)
    ensures
        r == summary_of(lead_time, diff_time),
{
    EndpointSummary {
        first_shred_delay: None,
        processing_delay: None,
        confirmation_delay: None,
        finalization_delay: None,
        download_time: None,
        replay_time: None,
        confirmation_time: None,
        finalization_time: None,
        account_delay: None,
        lead_time,
        diff_time,
    }
}

/// The numbers of the slots, in ascending order and each once.
fn slot_numbers(state: &ProcessorState) -> (r: Vec<u64>)
    ensures
        forall|i: int, j: int| 0 <= i < j < r@.len() ==> r@[i] < r@[j],
        forall|slot: u64| r@.contains(slot) <==> state.slot_data@.contains_key(slot),
        r@.len() == state.slot_data@.dom().len(),
{
    let mut keys: Vec<u64> = Vec::new();
    for k in it: state.slot_data.keys()
        invariant
            keys@.len() == it.index(),
            forall|i: int|
                #![trigger keys@[i]]
                #![trigger it.seq().unref()[i]]
                0 <= i < keys@.len() ==> keys@[i] == it.seq().unref()[i],
            it.seq().unref().to_set() == state.slot_data@.dom(),
            it.seq().unref().no_duplicates(),
    {
        keys.push(*k);
    }
    assert(keys@.to_set() =~= state.slot_data@.dom());
    let r = sorted(keys.as_slice());
    proof {
        keys@.to_multiset_ensures();
        r@.to_multiset_ensures();
        keys@.lemma_multiset_has_no_duplicates();
        r@.lemma_multiset_has_no_duplicates_conv();
        keys@.unique_seq_to_set();
        assert forall|slot: u64| r@.contains(slot) <==> state.slot_data@.contains_key(slot) by {
            assert(r@.contains(slot) <==> r@.to_multiset().count(slot) > 0);
            assert(keys@.contains(slot) <==> keys@.to_multiset().count(slot) > 0);
            assert(keys@.to_set().contains(slot) <==> keys@.contains(slot));
            assert(state.slot_data@.dom().contains(slot) <==> state.slot_data@.contains_key(slot));
        }
    }
    r
}

/// Everything that is to be saved, as of the time `now`.
pub fn collect_stats(state: &ProcessorState, now: u128) -> (r: StatsData)
    requires
        state.wf(),
    ensures
        r.endpoint1_summary == summary_of(
            summary_percentiles(state@.lead_times),
            summary_percentiles(state@.diffs),
        ),
        r.endpoint2_summary == summary_of(None, None),
        are_entries(r.slots@, state@, now),
        is_saved(state@, now, r),
{
    let numbers = slot_numbers(state);
    let mut slots: Vec<SlotData> = Vec::new();
    let mut i: usize = 0;
    while i < numbers.len()
        invariant
            i <= numbers.len(),
            slots@.len() == i,
            forall|slot: u64| numbers@.contains(slot) <==> state.slot_data@.contains_key(slot),
            forall|j: int|
                0 <= j < i ==> #[trigger] slots@[j] == slot_entry(
                    numbers@[j],
                    state@.slots[numbers@[j]],
                    now,
                ),
        decreases numbers.len() - i,
    {
        let slot: u64 = numbers[i];
        proof {
            assert(numbers@.contains(slot));
        }
        match state.slot_data.get(&slot) {
            Some(info) => {
                slots.push(slot_stats(slot, info, now));
            },
            None => {},
        }
        i = i + 1;
    }
    proof {
        assert(state@.slots.dom() =~= state.slot_data@.dom());
        assert forall|slot: u64| #[trigger] state@.slots.contains_key(slot) implies exists|i: int|
            0 <= i < slots@.len() && (#[trigger] slots@[i]).slot == slot by {
            assert(numbers@.contains(slot));
            let i = choose|i: int| 0 <= i < numbers@.len() && numbers@[i] == slot;
            assert(slots@[i].slot == slot);
        }
        assert forall|i: int| 0 <= i < slots@.len() implies state@.slots.contains_key(
            (#[trigger] slots@[i]).slot,
        ) by {
            assert(numbers@.contains(numbers@[i]));
        }
    }
    StatsData {
        endpoint1_summary: summarise(
            calculate_percentiles_f64(state.lead_times_ns.as_slice()),
            calculate_percentiles_f64(state.all_diffs_ns.as_slice()),
        ),
        endpoint2_summary: summarise(None, None),
        slots,
    }
}

} // verus!
