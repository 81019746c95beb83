//! What holds of the comparison and of its report as a whole.

use vstd::prelude::*;

use crate::arrivals::{law_recent_is_part, law_recent_twice};
use crate::binary64::{fixed, nearest, quotient};
use crate::percentiles::law_percentiles_are_samples;
use crate::processor::{after_event, ends_at, with_slot_seen, ProcessorEvent};
use crate::report::{law_delays_are_positive, percentage, port1_delays, printable};
use crate::rounding::{
    at_most, lemma_fixed_integer, lemma_fixed_ordered, lemma_nearest_near, lemma_nearest_ordered,
    lemma_product_commutes, lemma_product_ordered, lemma_quotient_ordered, lemma_whole_of_integer,
};
use crate::shred::ShredId;
use crate::state::{
    acceptable, cleaned, empty_processor, processed, processor_inv, signed_span, slot_after,
    slot_of, span, ProcessorView, SlotView,
};
use crate::stats::slot_entry;

verus! {

/// A shred that its port has already delivered changes nothing but the record
/// of its slot.
pub proof fn law_duplicate(v: ProcessorView, port_id: u8, id: ShredId, slot: u64, time: u128)
    requires
        port_id <= 1,
        port_id == 0 ==> v.port0.contains_key(id),
        port_id == 1 ==> v.port1.contains_key(id),
    ensures
        processed(v, port_id, id, slot, time) == (ProcessorView {
            slots: v.slots.insert(slot, slot_after(slot_of(v, slot), port_id, id, time)),
            ..v
        }),
{
}

/// A shred leaves every other slot and every other shred alone.
pub proof fn law_other_shreds_untouched(
    v: ProcessorView,
    port_id: u8,
    id: ShredId,
    slot: u64,
    time: u128,
)
    requires
        port_id <= 1,
    ensures
        ({
            let w = processed(v, port_id, id, slot, time);
            &&& w.seen_slots == v.seen_slots
            &&& forall|s: u64| s != slot ==> slot_of(w, s) == slot_of(v, s)
            &&& forall|i: ShredId|
                i != id ==> (w.port0.contains_key(i) == v.port0.contains_key(i) && w.port0[i]
                    == v.port0[i] && w.port1.contains_key(i) == v.port1.contains_key(i)
                    && w.port1[i] == v.port1[i])
            &&& port_id == 0 ==> w.port1 == v.port1 && w.port0.contains_key(id)
            &&& port_id == 1 ==> w.port0 == v.port0 && w.port1.contains_key(id)
        }),
{
}

/// The two copies of a shred make one pair with one difference, and with one
/// lead where port 0 has the earlier time, whichever copy is taken in first.
/// The order shows only in the port that has the first sighting counted.
pub proof fn law_pair(
    v: ProcessorView,
    id: ShredId,
    slot0: u64,
    time0: u128,
    slot1: u64,
    time1: u128,
)
    requires
        !v.port0.contains_key(id),
        !v.port1.contains_key(id),
    ensures
        ({
            let a = processed(processed(v, 0, id, slot0, time0), 1, id, slot1, time1);
            let b = processed(processed(v, 1, id, slot1, time1), 0, id, slot0, time0);
            &&& a.port0 == v.port0.insert(id, time0)
            &&& a.port1 == v.port1.insert(id, time1)
            &&& a.matched_pairs == v.matched_pairs + 1
            &&& a.diffs == v.diffs.push(signed_span(time0, time1))
            &&& b.port0 == a.port0
            &&& b.port1 == a.port1
            &&& b.matched_pairs == a.matched_pairs
            &&& b.diffs == a.diffs
            &&& a.lead_times == (if time0 < time1 {
                v.lead_times.push(span(time1, time0))
            } else {
                v.lead_times
            })
            &&& b.lead_times == a.lead_times
            &&& b.slots == a.slots
            &&& a.seen_slots == v.seen_slots
            &&& b.seen_slots == v.seen_slots
            &&& a.first_seen_port0 == v.first_seen_port0 + 1
            &&& a.first_seen_port1 == v.first_seen_port1
            &&& b.first_seen_port0 == v.first_seen_port0
            &&& b.first_seen_port1 == v.first_seen_port1 + 1
        }),
{
    let a = processed(processed(v, 0, id, slot0, time0), 1, id, slot1, time1);
    let b = processed(processed(v, 1, id, slot1, time1), 0, id, slot0, time0);
    assert(a.slots =~= b.slots);
}

/// Times that lie less than 2^63 nanoseconds (some 292 years) apart are
/// compared exactly.
pub proof fn law_difference_is_exact(time0: u128, time1: u128)
    requires
        time0 - time1 <= i64::MAX,
        time1 - time0 <= i64::MAX,
    ensures
        signed_span(time0, time1) == time0 - time1,
        time0 <= time1 ==> span(time1, time0) == time1 - time0,
        time1 <= time0 ==> span(time0, time1) == time0 - time1,
{
}

/// A number of 64 bits with a sign, as the remainder it leaves.
proof fn lemma_low_bits(later: u128, earlier: u128)
    requires
        earlier <= later,
    ensures
        span(later, earlier) as u64 == (later - earlier) % 0x1_0000_0000_0000_0000,
{
    let x = (later - earlier) as u128;
    assert((x as i64) as u64 == x % 0x1_0000_0000_0000_0000) by (bit_vector);
}

/// A sample of 64 bits is determined by the remainder that it leaves: it is that
/// remainder, or 2^64 less.
pub proof fn law_sample_of_remainder(d: i64)
    ensures
        d >= 0 ==> d as u64 == d,
        d < 0 ==> d as u64 == d + 0x1_0000_0000_0000_0000,
{
    assert(d >= 0 ==> d as u64 == d) by (bit_vector);
    assert(d < 0 ==> d as u64 == d + 0x1_0000_0000_0000_0000) by (bit_vector);
}

/// The difference of any two times agrees with their exact difference in the
/// low 64 bits, and so does a lead.
pub proof fn law_difference_keeps_low_bits(time0: u128, time1: u128)
    ensures
        signed_span(time0, time1) as u64 == (time0 - time1) % 0x1_0000_0000_0000_0000,
        time0 <= time1 ==> span(time1, time0) as u64 == (time1 - time0)
            % 0x1_0000_0000_0000_0000,
{
    if time0 <= time1 {
        lemma_low_bits(time1, time0);
    }
    if time0 >= time1 {
        lemma_low_bits(time0, time1);
    } else {
        let s = span(time1, time0);
        let d = signed_span(time0, time1);
        law_sample_of_remainder(s);
        law_sample_of_remainder(d);
        let r = (time1 - time0) % 0x1_0000_0000_0000_0000;
        let q = (time1 - time0) / 0x1_0000_0000_0000_0000;
        assert(time1 - time0 == q * 0x1_0000_0000_0000_0000 + r);
        if s == i64::MIN {
            assert(((-s) as i64) == i64::MIN) by {
                assert((0x8000_0000_0000_0000u128 as i64) == i64::MIN) by (bit_vector);
                let x: u128 = 0x8000_0000_0000_0000u128;
                assert(-s == x);
            }
            vstd::arithmetic::div_mod::lemma_fundamental_div_mod_converse(
                time0 - time1,
                0x1_0000_0000_0000_0000,
                -q - 1,
                0x8000_0000_0000_0000,
            );
        } else if r == 0 {
            vstd::arithmetic::div_mod::lemma_fundamental_div_mod_converse(
                time0 - time1,
                0x1_0000_0000_0000_0000,
                -q,
                0,
            );
        } else {
            vstd::arithmetic::div_mod::lemma_fundamental_div_mod_converse(
                time0 - time1,
                0x1_0000_0000_0000_0000,
                -q - 1,
                0x1_0000_0000_0000_0000 - r,
            );
        }
    }
}

/// As long as nothing has been forgotten: a pair has been counted for every
/// shred that both ports hold, and a first sighting for every shred that one
/// of them holds.
pub open spec fn counts_agree(v: ProcessorView) -> bool {
    &&& v.matched_pairs == v.port0.dom().intersect(v.port1.dom()).len()
    &&& v.first_seen_port0 + v.first_seen_port1 == v.port0.dom().union(v.port1.dom()).len()
}

/// Nothing is counted before the first shred.
pub proof fn law_counts_agree_at_first()
    ensures
        counts_agree(empty_processor()),
        processor_inv(empty_processor()),
{
    let v = empty_processor();
    assert(v.port0.dom() =~= Set::empty());
    assert(v.port1.dom() =~= Set::empty());
    assert(v.port0.dom().intersect(v.port1.dom()) =~= Set::empty());
    assert(v.port0.dom().union(v.port1.dom()) =~= Set::empty());
    assert(v.slots.dom() =~= Set::empty());
}

/// Taking in a shred keeps the counts in agreement with what the ports hold.
pub proof fn law_counts_agree_after_shred(
    v: ProcessorView,
    port_id: u8,
    id: ShredId,
    slot: u64,
    time: u128,
)
    requires
        processor_inv(v),
        counts_agree(v),
        port_id <= 1,
    ensures
        counts_agree(processed(v, port_id, id, slot, time)),
{
    let w = processed(v, port_id, id, slot, time);
    let both = v.port0.dom().intersect(v.port1.dom());
    let any = v.port0.dom().union(v.port1.dom());
    let new_both = w.port0.dom().intersect(w.port1.dom());
    let new_any = w.port0.dom().union(w.port1.dom());
    if any.contains(id) {
        assert(new_any =~= any);
    } else {
        assert(new_any =~= any.insert(id));
    }
    if new_both.contains(id) && !both.contains(id) {
        assert(new_both =~= both.insert(id));
    } else {
        assert(new_both =~= both);
    }
}

/// Nothing is held without having been counted.
pub open spec fn counts_suffice(v: ProcessorView) -> bool {
    v.port0.dom().len() + v.port1.dom().len() <= v.first_seen_port0 + v.first_seen_port1
        + v.matched_pairs
}

/// A shred that is new on its port counts exactly once: as a first sighting or
/// as a pair.
pub proof fn law_counts_once(v: ProcessorView, port_id: u8, id: ShredId, slot: u64, time: u128)
    requires
        processor_inv(v),
        port_id <= 1,
    ensures
        ({
            let w = processed(v, port_id, id, slot, time);
            &&& w.first_seen_port0 + w.first_seen_port1 + w.matched_pairs - (w.port0.dom().len()
                + w.port1.dom().len()) == v.first_seen_port0 + v.first_seen_port1
                + v.matched_pairs - (v.port0.dom().len() + v.port1.dom().len())
            &&& counts_suffice(v) ==> counts_suffice(w)
        }),
{
    let w = processed(v, port_id, id, slot, time);
    if port_id == 0 && !v.port0.contains_key(id) {
        assert(w.port0.dom() =~= v.port0.dom().insert(id));
    }
    if port_id == 1 && !v.port1.contains_key(id) {
        assert(w.port1.dom() =~= v.port1.dom().insert(id));
    }
}

/// Forgetting old arrivals leaves every count and every sample as it is, and
/// keeps of the arrivals exactly the recent ones.
pub proof fn law_cleanup(v: ProcessorView, now: u128, timeout: u128)
    requires
        processor_inv(v),
    ensures
        ({
            let w = cleaned(v, now, timeout);
            &&& w.matched_pairs == v.matched_pairs
            &&& w.first_seen_port0 == v.first_seen_port0
            &&& w.first_seen_port1 == v.first_seen_port1
            &&& w.lead_times == v.lead_times
            &&& w.diffs == v.diffs
            &&& w.seen_slots == v.seen_slots
            &&& w.slots == v.slots
            &&& forall|id: ShredId| #[trigger]
                w.port0.contains_key(id) <==> v.port0.contains_key(id) && timeout > 0 && now
                    - v.port0[id] < timeout
            &&& forall|id: ShredId| #[trigger]
                w.port0.contains_key(id) ==> w.port0[id] == v.port0[id]
            &&& forall|id: ShredId| #[trigger]
                w.port1.contains_key(id) <==> v.port1.contains_key(id) && timeout > 0 && now
                    - v.port1[id] < timeout
            &&& forall|id: ShredId| #[trigger]
                w.port1.contains_key(id) ==> w.port1[id] == v.port1[id]
            &&& processor_inv(w)
            &&& counts_suffice(v) ==> counts_suffice(w)
            &&& cleaned(w, now, timeout) == w
        }),
{
    law_recent_is_part(v.port0, now, timeout);
    law_recent_is_part(v.port1, now, timeout);
    law_recent_twice(v.port0, now, timeout);
    law_recent_twice(v.port1, now, timeout);
}

/// A copy whose partner has been forgotten makes no pair: it counts as a first
/// sighting.
pub proof fn law_forgotten_partner(
    v: ProcessorView,
    now: u128,
    timeout: u128,
    id: ShredId,
    slot: u64,
    time: u128,
)
    requires
        v.port0.contains_key(id) ==> timeout == 0 || now - v.port0[id] >= timeout,
        v.port1.contains_key(id) ==> timeout == 0 || now - v.port1[id] >= timeout,
    ensures
        ({
            let w = cleaned(v, now, timeout);
            let a = processed(w, 0, id, slot, time);
            let b = processed(w, 1, id, slot, time);
            &&& a.first_seen_port0 == v.first_seen_port0 + 1
            &&& a.matched_pairs == v.matched_pairs
            &&& a.diffs == v.diffs
            &&& b.first_seen_port1 == v.first_seen_port1 + 1
            &&& b.matched_pairs == v.matched_pairs
            &&& b.diffs == v.diffs
        }),
{
}

/// The comparison after some events, and whether one of them has ended it.
/// Events behind the one that ends it are not handled.
pub open spec fn run(events: Seq<ProcessorEvent>, max_slots: u64, timeout_secs: u64) -> (
    ProcessorView,
    bool,
)
    decreases events.len(),
{
    if events.len() == 0 {
        (empty_processor(), false)
    } else {
        let (v, ended) = run(events.drop_last(), max_slots, timeout_secs);
        if ended {
            (v, true)
        } else {
            let (w, action) = after_event(v, max_slots, timeout_secs, events.last());
            (w, action is SaveAndStop)
        }
    }
}

/// A shred arrives on one of the two ports.
pub open spec fn on_a_port(event: ProcessorEvent) -> bool {
    event matches ProcessorEvent::ShredReceived { port_id, .. } ==> port_id <= 1
}

/// All that an event brings arrives on one of the two ports.
pub open spec fn on_ports(events: Seq<ProcessorEvent>) -> bool {
    forall|i: int| 0 <= i < events.len() ==> on_a_port(#[trigger] events[i])
}

/// Taking in a shred keeps the comparison sound.
pub proof fn law_sound_after_shred(
    v: ProcessorView,
    port_id: u8,
    id: ShredId,
    slot: u64,
    time: u128,
)
    requires
        processor_inv(v),
        port_id <= 1,
    ensures
        processor_inv(processed(v, port_id, id, slot, time)),
{
}

/// At every point of a run the comparison is sound, holds nothing that it has
/// not counted, and has a record of every slot that it has seen; once ended, of
/// every slot but the one that ended it.
pub proof fn law_run(events: Seq<ProcessorEvent>, max_slots: u64, timeout_secs: u64)
    requires
        on_ports(events),
    ensures
        ({
            let (v, ended) = run(events, max_slots, timeout_secs);
            &&& processor_inv(v)
            &&& counts_suffice(v)
            &&& !ended ==> v.slots.dom() == v.seen_slots
            &&& ended ==> v.slots.dom().subset_of(v.seen_slots) && v.seen_slots.len()
                == v.slots.dom().len() + 1
        }),
    decreases events.len(),
{
    if events.len() == 0 {
        law_counts_agree_at_first();
        assert(empty_processor().slots.dom() =~= Set::empty());
    } else {
        assert(on_ports(events.drop_last()));
        law_run(events.drop_last(), max_slots, timeout_secs);
        let (v, ended) = run(events.drop_last(), max_slots, timeout_secs);
        assert(on_a_port(events[events.len() - 1]));
        if !ended {
            match events.last() {
                ProcessorEvent::ShredReceived { port_id, shred_id, slot, timestamp } => {
                    let u = with_slot_seen(v, slot);
                    if !ends_at(v, slot, max_slots) {
                        law_sound_after_shred(u, port_id, shred_id, slot, timestamp);
                        law_counts_once(u, port_id, shred_id, slot, timestamp);
                        let w = processed(u, port_id, shred_id, slot, timestamp);
                        assert(w.slots.dom() =~= v.slots.dom().insert(slot));
                    }
                },
                ProcessorEvent::Cleanup { now } => {
                    law_cleanup(v, now, (timeout_secs * 1_000_000_000) as u128);
                },
                ProcessorEvent::StatsTick => {},
            }
        }
    }
}

/// A run without a clean-up counts a pair for every shred that both ports have
/// delivered, and a first sighting for every shred that any of them has.
pub proof fn law_run_without_cleanup(
    events: Seq<ProcessorEvent>,
    max_slots: u64,
    timeout_secs: u64,
)
    requires
        on_ports(events),
        forall|i: int| 0 <= i < events.len() ==> !(#[trigger] events[i] is Cleanup),
    ensures
        counts_agree(run(events, max_slots, timeout_secs).0),
    decreases events.len(),
{
    if events.len() == 0 {
        law_counts_agree_at_first();
    } else {
        assert(on_ports(events.drop_last()));
        law_run_without_cleanup(events.drop_last(), max_slots, timeout_secs);
        law_run(events.drop_last(), max_slots, timeout_secs);
        let (v, ended) = run(events.drop_last(), max_slots, timeout_secs);
        assert(on_a_port(events[events.len() - 1]));
        assert(!(events[events.len() - 1] is Cleanup));
        if !ended {
            match events.last() {
                ProcessorEvent::ShredReceived { port_id, shred_id, slot, timestamp } => {
                    let u = with_slot_seen(v, slot);
                    if !ends_at(v, slot, max_slots) {
                        law_counts_agree_after_shred(u, port_id, shred_id, slot, timestamp);
                    }
                },
                _ => {},
            }
        }
    }
}

/// With a limit of slots the comparison ends with the shred that brings the
/// number of slots seen up to the limit, and not before; without one it never
/// ends.
pub proof fn law_slot_limit(events: Seq<ProcessorEvent>, max_slots: u64, timeout_secs: u64)
    requires
        on_ports(events),
        max_slots <= usize::MAX,
    ensures
        ({
            let (v, ended) = run(events, max_slots, timeout_secs);
            if max_slots == 0 {
                !ended
            } else if ended {
                v.seen_slots.len() == max_slots
            } else {
                v.seen_slots.len() < max_slots
            }
        }),
    decreases events.len(),
{
    if events.len() > 0 {
        assert(on_ports(events.drop_last()));
        law_slot_limit(events.drop_last(), max_slots, timeout_secs);
        law_run(events.drop_last(), max_slots, timeout_secs);
    }
}

/// No time in an event lies 2^63 nanoseconds or more behind the origin.
pub open spec fn within_clock(event: ProcessorEvent) -> bool {
    event matches ProcessorEvent::ShredReceived { timestamp, .. } ==> timestamp <= i64::MAX
}

/// The samples are exact: no arrival lies too far from the origin, every
/// difference has a magnitude, and the leads are the delays of the pairs that
/// port 1 lost.
pub open spec fn samples_exact(v: ProcessorView) -> bool {
    &&& forall|id: ShredId| #[trigger] v.port0.contains_key(id) ==> v.port0[id] <= i64::MAX
    &&& forall|id: ShredId| #[trigger] v.port1.contains_key(id) ==> v.port1[id] <= i64::MAX
    &&& !v.diffs.contains(i64::MIN)
    &&& v.lead_times == port1_delays(v.diffs)
}

/// A shred whose time is within the clock keeps the samples exact: it adds a
/// lead exactly where it makes port 1 lose a pair.
pub proof fn law_samples_exact_after_shred(
    v: ProcessorView,
    port_id: u8,
    id: ShredId,
    slot: u64,
    time: u128,
)
    requires
        samples_exact(v),
        port_id <= 1,
        time <= i64::MAX,
    ensures
        samples_exact(processed(v, port_id, id, slot, time)),
{
    let w = processed(v, port_id, id, slot, time);
    reveal(Seq::filter);
    if w.diffs.len() > v.diffs.len() {
        let d = w.diffs.last();
        assert(v.diffs.push(d).drop_last() =~= v.diffs);
        if d < 0 {
            assert(port1_delays(w.diffs) =~= port1_delays(v.diffs).push((-d) as i64));
        } else {
            assert(port1_delays(w.diffs) =~= port1_delays(v.diffs));
        }
        assert forall|i: int| 0 <= i < w.diffs.len() implies w.diffs[i] != i64::MIN by {
            if i < v.diffs.len() {
                assert(v.diffs.contains(v.diffs[i]));
            }
        }
    }
}

/// As long as the samples are exact and the counters have room, every shred
/// whose time is within the clock can be taken in.
pub proof fn law_acceptable_within_clock(
    v: ProcessorView,
    port_id: u8,
    id: ShredId,
    time: u128,
)
    requires
        samples_exact(v),
        port_id <= 1,
        time <= i64::MAX,
        v.first_seen_port0 < usize::MAX,
        v.first_seen_port1 < usize::MAX,
    ensures
        acceptable(v, port_id, id, time),
{
}

/// In a run whose times are all within the clock, in whatever order its shreds
/// come, the leads are exactly the delays of the pairs that port 1 lost: none
/// is missing, each is positive, and their median is the median delay of port 1
/// when it loses. All of the percentiles can be printed.
pub proof fn law_run_within_clock(events: Seq<ProcessorEvent>, max_slots: u64, timeout_secs: u64)
    requires
        on_ports(events),
        forall|i: int| 0 <= i < events.len() ==> within_clock(#[trigger] events[i]),
    ensures
        ({
            let v = run(events, max_slots, timeout_secs).0;
            &&& v.lead_times == port1_delays(v.diffs)
            &&& forall|i: int| 0 <= i < v.lead_times.len() ==> (#[trigger] v.lead_times[i]) > 0
            &&& samples_exact(v)
            &&& printable(v.lead_times)
            &&& printable(v.diffs)
        }),
    decreases events.len(),
{
    let v = run(events, max_slots, timeout_secs).0;
    if events.len() == 0 {
        reveal(Seq::filter);
        assert(port1_delays(empty_processor().diffs) =~= empty_processor().lead_times);
    } else {
        assert(on_ports(events.drop_last()));
        law_run_within_clock(events.drop_last(), max_slots, timeout_secs);
        let (u, ended) = run(events.drop_last(), max_slots, timeout_secs);
        assert(on_a_port(events[events.len() - 1]));
        assert(within_clock(events[events.len() - 1]));
        if !ended {
            match events.last() {
                ProcessorEvent::ShredReceived { port_id, shred_id, slot, timestamp } => {
                    law_samples_exact_after_shred(
                        with_slot_seen(u, slot),
                        port_id,
                        shred_id,
                        slot,
                        timestamp,
                    );
                },
                _ => {},
            }
        }
    }
    assert(samples_exact(v));
    law_delays_are_positive(v.diffs);
    if v.lead_times.len() > 0 {
        law_percentiles_are_samples(v.lead_times);
    }
    if v.diffs.len() > 0 {
        law_percentiles_are_samples(v.diffs);
    }
}

/// Of two sources that both delivered a slot, the first one has no delay and
/// the other one's delay is the distance between them.
pub proof fn law_first_source_has_no_delay(slot: u64, s: SlotView, now: u128)
    requires
        s.port0_first is Some,
        s.port1_first is Some,
    ensures
        ({
            let e = slot_entry(slot, s, now);
            let d1 = e.endpoint1.first_shred_delay_ns;
            let d2 = e.endpoint2.first_shred_delay_ns;
            &&& d1 == 0 || d2 == 0
            &&& d1 - d2 == s.port0_first->0 - s.port1_first->0
        }),
{
}

/// A source that never delivered a slot has been late ever since the other one
/// delivered it; that other one has no delay. Where neither did, none is late.
pub proof fn law_missing_source_is_late(slot: u64, s: SlotView, now: u128)
    ensures
        ({
            let e = slot_entry(slot, s, now);
            &&& s.port0_first is None && s.port1_first is Some
                ==> e.endpoint1.first_shred_delay_ns == (if s.port1_first->0 <= now {
                now - s.port1_first->0
            } else {
                0
            }) && e.endpoint2.first_shred_delay_ns == 0
            &&& s.port1_first is None && s.port0_first is Some
                ==> e.endpoint2.first_shred_delay_ns == (if s.port0_first->0 <= now {
                now - s.port0_first->0
            } else {
                0
            }) && e.endpoint1.first_shred_delay_ns == 0
            &&& s.port0_first is None && s.port1_first is None
                ==> e.endpoint1.first_shred_delay_ns == 0 && e.endpoint2.first_shred_delay_ns == 0
        }),
{
}

/// The more of a total are counted, the greater the percentage; printed with
/// places behind the point it is not smaller either.
pub proof fn law_percentage_ascends(count: nat, more: nat, total: nat, scale: nat)
    requires
        count <= more,
    ensures
        at_most(percentage(count, total), percentage(more, total)),
        fixed(percentage(count, total), scale) <= fixed(percentage(more, total), scale),
{
    let x = percentage(count, total);
    let y = percentage(more, total);
    if total > 0 && count > 0 {
        let c = nearest(count, 1);
        let m = nearest(more, 1);
        let t = nearest(total, 1);
        lemma_nearest_near(count, 1);
        lemma_nearest_near(more, 1);
        lemma_nearest_near(total, 1);
        lemma_nearest_near(100, 1);
        lemma_nearest_near(c.mant, t.mant);
        lemma_nearest_near(m.mant, t.mant);
        lemma_nearest_ordered(count, more, 1);
        lemma_quotient_ordered(c, m, t);
        let q = quotient(c, t);
        let r = quotient(m, t);
        lemma_product_ordered(nearest(100, 1), q, r);
        lemma_product_commutes(q, nearest(100, 1));
        lemma_product_commutes(r, nearest(100, 1));
    } else if total > 0 {
        assert(0 * nearest(100, 1).mant == 0);
        assert(x.mant == 0);
    }
    lemma_fixed_ordered(x, y, scale);
}

/// No part of a total is more than a hundred percent of it, and the whole is
/// exactly a hundred percent; the same holds of what is printed.
pub proof fn law_percentage_at_most_hundred(count: nat, total: nat)
    requires
        count <= total,
    ensures
        at_most(percentage(count, total), nearest(100, 1)),
        fixed(percentage(count, total), 10) <= 1000,
        total > 0 ==> percentage(total, total) == nearest(100, 1),
        total > 0 ==> fixed(percentage(total, total), 10) == 1000,
{
    lemma_fixed_integer(100, 10);
    if total > 0 {
        lemma_nearest_near(total, 1);
        lemma_whole_of_integer(nearest(total, 1), 100);
        lemma_product_commutes(quotient(nearest(total, 1), nearest(total, 1)), nearest(100, 1));
        law_percentage_ascends(count, total, total, 10);
    } else {
        lemma_fixed_ordered(percentage(count, total), nearest(100, 1), 10);
    }
}

} // verus!
