//! What a run has come to, told from its events alone.

use vstd::prelude::*;

use crate::laws::{
    law_difference_keeps_low_bits, law_sample_of_remainder, on_a_port, on_ports, run, within_clock,
};
use crate::processor::{
    after_event, announces, event_of_packet, heard_after, manageable, Action, ProcessorEvent,
};
use crate::shred::{ParsedShred, ShredId};
use crate::state::{empty_processor, processed, span, ProcessorState, ProcessorView};

verus! {

/// The event brings a copy of the shred on the port.
pub open spec fn brings(event: ProcessorEvent, port: u8, id: ShredId) -> bool {
    event is ShredReceived && event->port_id == port && event->shred_id == id
}

/// A copy of the shred has come on the port.
pub open spec fn arrived(events: Seq<ProcessorEvent>, port: u8, id: ShredId) -> bool {
    exists|i: int| 0 <= i < events.len() && brings(#[trigger] events[i], port, id)
}

/// The first copy of the shred on the port came with the event at `i`.
pub open spec fn arrived_at(events: Seq<ProcessorEvent>, port: u8, id: ShredId, i: int) -> bool {
    &&& 0 <= i < events.len()
    &&& brings(events[i], port, id)
    &&& forall|j: int| 0 <= j < i ==> !brings(#[trigger] events[j], port, id)
}

/// A shred of the slot has come.
pub open spec fn slot_came(events: Seq<ProcessorEvent>, slot: u64) -> bool {
    exists|i: int|
        0 <= i < events.len() && (#[trigger] events[i]) is ShredReceived && events[i]->slot == slot
}

/// No old arrivals are forgotten on the way.
pub open spec fn without_cleanup(events: Seq<ProcessorEvent>) -> bool {
    forall|i: int| 0 <= i < events.len() ==> !(#[trigger] events[i] is Cleanup)
}

/// What has come is what had come before the last event, and what that brings.
proof fn lemma_arrived_step(events: Seq<ProcessorEvent>, port: u8, id: ShredId)
    requires
        events.len() > 0,
    ensures
        arrived(events, port, id) <==> arrived(events.drop_last(), port, id) || brings(
            events.last(),
            port,
            id,
        ),
        forall|i: int| #[trigger]
            arrived_at(events, port, id, i) ==> if i < events.len() - 1 {
                arrived_at(events.drop_last(), port, id, i)
            } else {
                i == events.len() - 1 && !arrived(events.drop_last(), port, id)
            },
{
    let rest = events.drop_last();
    if arrived(rest, port, id) {
        let i = choose|i: int| 0 <= i < rest.len() && brings(#[trigger] rest[i], port, id);
        assert(brings(events[i], port, id));
    }
    if brings(events.last(), port, id) {
        assert(brings(events[events.len() - 1], port, id));
    }
    if arrived(events, port, id) {
        let i = choose|i: int| 0 <= i < events.len() && brings(#[trigger] events[i], port, id);
        if i < events.len() - 1 {
            assert(brings(rest[i], port, id));
        }
    }
    assert forall|i: int| #[trigger] arrived_at(events, port, id, i) implies if i < events.len()
        - 1 {
        arrived_at(rest, port, id, i)
    } else {
        i == events.len() - 1 && !arrived(rest, port, id)
    } by {
        if i < events.len() - 1 {
            assert forall|j: int| 0 <= j < i implies !brings(#[trigger] rest[j], port, id) by {
                assert(!brings(events[j], port, id));
            }
        } else if arrived(rest, port, id) {
            let j = choose|j: int| 0 <= j < rest.len() && brings(#[trigger] rest[j], port, id);
            assert(brings(events[j], port, id));
        }
    }
}

/// The slots that have come are those that had come before the last event, and
/// that of the last event.
proof fn lemma_slot_came_step(events: Seq<ProcessorEvent>, slot: u64)
    requires
        events.len() > 0,
    ensures
        slot_came(events, slot) <==> slot_came(events.drop_last(), slot) || (
        events.last() is ShredReceived && events.last()->slot == slot),
{
    let rest = events.drop_last();
    if slot_came(rest, slot) {
        let i = choose|i: int|
            0 <= i < rest.len() && (#[trigger] rest[i]) is ShredReceived && rest[i]->slot == slot;
        assert(events[i] is ShredReceived);
    }
    if events.last() is ShredReceived && events.last()->slot == slot {
        assert(events[events.len() - 1] is ShredReceived);
    }
    if slot_came(events, slot) {
        let i = choose|i: int|
            0 <= i < events.len() && (#[trigger] events[i]) is ShredReceived && events[i]->slot
                == slot;
        if i < events.len() - 1 {
            assert(rest[i] is ShredReceived);
        }
    }
}

/// The beginning of a run that goes on has not ended, and is on the ports.
proof fn lemma_beginning(events: Seq<ProcessorEvent>, max_slots: u64, timeout_secs: u64)
    requires
        events.len() > 0,
        on_ports(events),
        !run(events, max_slots, timeout_secs).1,
    ensures
        on_ports(events.drop_last()),
        !run(events.drop_last(), max_slots, timeout_secs).1,
        without_cleanup(events) ==> without_cleanup(events.drop_last()),
        on_a_port(events.last()),
        without_cleanup(events) ==> !(events.last() is Cleanup),
{
    let rest = events.drop_last();
    assert forall|i: int| 0 <= i < rest.len() implies on_a_port(#[trigger] rest[i]) by {
        assert(on_a_port(events[i]));
    }
    assert(on_a_port(events[events.len() - 1]));
    if without_cleanup(events) {
        assert forall|i: int| 0 <= i < rest.len() implies !(#[trigger] rest[i] is Cleanup) by {
            assert(!(events[i] is Cleanup));
        }
        assert(!(events[events.len() - 1] is Cleanup));
    }
}

/// A run that goes on and forgets nothing holds on each port exactly the shreds
/// of which the port has brought a copy, each with the time of the first copy.
/// The slots that it has seen, and has a record of, are exactly those that have
/// come.
pub proof fn law_run_holds_what_came(
    events: Seq<ProcessorEvent>,
    max_slots: u64,
    timeout_secs: u64,
)
    requires
        on_ports(events),
        without_cleanup(events),
        !run(events, max_slots, timeout_secs).1,
    ensures
        ({
            let v = run(events, max_slots, timeout_secs).0;
            &&& forall|id: ShredId| #[trigger] v.port0.contains_key(id) <==> arrived(events, 0, id)
            &&& forall|id: ShredId| #[trigger] v.port1.contains_key(id) <==> arrived(events, 1, id)
            &&& forall|id: ShredId, i: int| #[trigger]
                arrived_at(events, 0, id, i) ==> v.port0[id] == events[i]->timestamp
            &&& forall|id: ShredId, i: int| #[trigger]
                arrived_at(events, 1, id, i) ==> v.port1[id] == events[i]->timestamp
            &&& forall|slot: u64| #[trigger] v.seen_slots.contains(slot) <==> slot_came(events, slot)
            &&& forall|slot: u64| #[trigger] v.slots.contains_key(slot) <==> slot_came(events, slot)
        }),
    decreases events.len(),
{
    let v = run(events, max_slots, timeout_secs).0;
    if events.len() > 0 {
        let rest = events.drop_last();
        lemma_beginning(events, max_slots, timeout_secs);
        law_run_holds_what_came(rest, max_slots, timeout_secs);
        let u = run(rest, max_slots, timeout_secs).0;
        assert forall|id: ShredId| #[trigger] v.port0.contains_key(id) <==> arrived(
            events,
            0,
            id,
        ) by {
            lemma_arrived_step(events, 0, id);
            assert(u.port0.contains_key(id) <==> arrived(rest, 0, id));
        }
        assert forall|id: ShredId| #[trigger] v.port1.contains_key(id) <==> arrived(
            events,
            1,
            id,
        ) by {
            lemma_arrived_step(events, 1, id);
            assert(u.port1.contains_key(id) <==> arrived(rest, 1, id));
        }
        assert forall|id: ShredId, i: int| #[trigger] arrived_at(events, 0, id, i) implies v.port0[id]
            == events[i]->timestamp by {
            lemma_arrived_step(events, 0, id);
            assert(u.port0.contains_key(id) <==> arrived(rest, 0, id));
            if i < events.len() - 1 {
                assert(brings(rest[i], 0, id));
            }
        }
        assert forall|id: ShredId, i: int| #[trigger] arrived_at(events, 1, id, i) implies v.port1[id]
            == events[i]->timestamp by {
            lemma_arrived_step(events, 1, id);
            assert(u.port1.contains_key(id) <==> arrived(rest, 1, id));
            if i < events.len() - 1 {
                assert(brings(rest[i], 1, id));
            }
        }
        assert forall|slot: u64| #[trigger] v.seen_slots.contains(slot) <==> slot_came(
            events,
            slot,
        ) by {
            lemma_slot_came_step(events, slot);
            assert(u.seen_slots.contains(slot) <==> slot_came(rest, slot));
        }
        assert forall|slot: u64| #[trigger] v.slots.contains_key(slot) <==> slot_came(
            events,
            slot,
        ) by {
            lemma_slot_came_step(events, slot);
            assert(u.slots.contains_key(slot) <==> slot_came(rest, slot));
        }
    }
}

/// The event brings a shred of the slot on the port.
pub open spec fn brings_of_slot(port: u8, slot: u64) -> spec_fn(ProcessorEvent) -> bool {
    |e: ProcessorEvent| e is ShredReceived && e->port_id == port && e->slot == slot
}

/// The shred of an event, and its time.
pub open spec fn shred_and_time() -> spec_fn(ProcessorEvent) -> (ShredId, u128) {
    |e: ProcessorEvent| (e->shred_id, e->timestamp)
}

/// What a port has brought of a slot, in the order of the events.
pub open spec fn brought_of_slot(events: Seq<ProcessorEvent>, port: u8, slot: u64) -> Seq<
    (ShredId, u128),
> {
    events.filter(brings_of_slot(port, slot)).map_values(shred_and_time())
}

/// The time of the first of some arrivals.
pub open spec fn first_of(shreds: Seq<(ShredId, u128)>) -> Option<u128> {
    if shreds.len() == 0 {
        None
    } else {
        Some(shreds[0].1)
    }
}

/// What a port has brought of a slot after one more event.
proof fn lemma_brought_step(events: Seq<ProcessorEvent>, port: u8, slot: u64)
    requires
        events.len() > 0,
    ensures
        brought_of_slot(events, port, slot) == if brings_of_slot(port, slot)(events.last()) {
            brought_of_slot(events.drop_last(), port, slot).push(
                (events.last()->shred_id, events.last()->timestamp),
            )
        } else {
            brought_of_slot(events.drop_last(), port, slot)
        },
{
    reveal(Seq::filter);
    if brings_of_slot(port, slot)(events.last()) {
        assert(brought_of_slot(events, port, slot) =~= brought_of_slot(
            events.drop_last(),
            port,
            slot,
        ).push((events.last()->shred_id, events.last()->timestamp)));
    }
}

/// A run that goes on has, of each slot, the record of all copies that each port
/// has brought, repeated ones too, in the order of the events, and the time of
/// the first one.
pub proof fn law_run_records_slots(
    events: Seq<ProcessorEvent>,
    max_slots: u64,
    timeout_secs: u64,
    slot: u64,
)
    requires
        on_ports(events),
        !run(events, max_slots, timeout_secs).1,
    ensures
        ({
            let v = run(events, max_slots, timeout_secs).0;
            let shreds0 = brought_of_slot(events, 0, slot);
            let shreds1 = brought_of_slot(events, 1, slot);
            &&& v.slots.contains_key(slot) <==> shreds0.len() > 0 || shreds1.len() > 0
            &&& v.slots.contains_key(slot) ==> v.slots[slot].port0_shreds == shreds0
                && v.slots[slot].port1_shreds == shreds1 && v.slots[slot].port0_first == first_of(
                shreds0,
            ) && v.slots[slot].port1_first == first_of(shreds1)
        }),
    decreases events.len(),
{
    reveal(Seq::filter);
    if events.len() > 0 {
        let rest = events.drop_last();
        lemma_beginning(events, max_slots, timeout_secs);
        law_run_records_slots(rest, max_slots, timeout_secs, slot);
        lemma_brought_step(events, 0, slot);
        lemma_brought_step(events, 1, slot);
        let u = run(rest, max_slots, timeout_secs).0;
        let shreds0 = brought_of_slot(rest, 0, slot);
        let shreds1 = brought_of_slot(rest, 1, slot);
        if !u.slots.contains_key(slot) {
            assert(shreds0 =~= seq![]);
            assert(shreds1 =~= seq![]);
        }
    }
}

/// A copy of the shred came on one port before any came on the other one.
pub open spec fn led_by(events: Seq<ProcessorEvent>, port: u8, other: u8, id: ShredId) -> bool {
    exists|i: int| #[trigger]
        arrived_at(events, port, id, i) && (forall|j: int|
            0 <= j < i ==> !brings(#[trigger] events[j], other, id))
}

/// Who led after one more event.
proof fn lemma_led_step(events: Seq<ProcessorEvent>, port: u8, other: u8, id: ShredId)
    requires
        events.len() > 0,
        port != other,
    ensures
        led_by(events, port, other, id) <==> led_by(events.drop_last(), port, other, id) || (brings(
            events.last(),
            port,
            id,
        ) && !arrived(events.drop_last(), port, id) && !arrived(events.drop_last(), other, id)),
{
    let rest = events.drop_last();
    let last = events.len() - 1;
    if led_by(rest, port, other, id) {
        let i = choose|i: int| #[trigger]
            arrived_at(rest, port, id, i) && (forall|j: int|
                0 <= j < i ==> !brings(#[trigger] rest[j], other, id));
        assert forall|j: int| 0 <= j < i implies !brings(#[trigger] events[j], port, id)
            && !brings(events[j], other, id) by {
            assert(!brings(rest[j], port, id));
            assert(!brings(rest[j], other, id));
        }
        assert(arrived_at(events, port, id, i));
    }
    if brings(events.last(), port, id) && !arrived(rest, port, id) && !arrived(rest, other, id) {
        assert forall|j: int| 0 <= j < last implies !brings(#[trigger] events[j], port, id)
            && !brings(events[j], other, id) by {
            assert(!brings(rest[j], port, id));
            assert(!brings(rest[j], other, id));
        }
        assert(arrived_at(events, port, id, last));
    }
    if led_by(events, port, other, id) {
        let i = choose|i: int| #[trigger]
            arrived_at(events, port, id, i) && (forall|j: int|
                0 <= j < i ==> !brings(#[trigger] events[j], other, id));
        lemma_arrived_step(events, port, id);
        if i < last {
            assert forall|j: int| 0 <= j < i implies !brings(#[trigger] rest[j], other, id) by {
                assert(!brings(events[j], other, id));
            }
        } else if arrived(rest, other, id) {
            let j = choose|j: int| 0 <= j < rest.len() && brings(#[trigger] rest[j], other, id);
            assert(brings(events[j], other, id));
        }
    }
}

/// A run that goes on and forgets nothing counts, for each port, the shreds of
/// which that port brought a copy before the other one did, and, as pairs, the
/// shreds of which both have brought one.
pub proof fn law_run_counts_what_came(
    events: Seq<ProcessorEvent>,
    max_slots: u64,
    timeout_secs: u64,
)
    requires
        on_ports(events),
        without_cleanup(events),
        !run(events, max_slots, timeout_secs).1,
    ensures
        ({
            let v = run(events, max_slots, timeout_secs).0;
            let led0 = Set::new(|id: ShredId| led_by(events, 0, 1, id));
            let led1 = Set::new(|id: ShredId| led_by(events, 1, 0, id));
            let both = Set::new(|id: ShredId| arrived(events, 0, id) && arrived(events, 1, id));
            &&& led0.finite() && v.first_seen_port0 == led0.len()
            &&& led1.finite() && v.first_seen_port1 == led1.len()
            &&& both.finite() && v.matched_pairs == both.len()
        }),
    decreases events.len(),
{
    let led0 = Set::new(|id: ShredId| led_by(events, 0, 1, id));
    let led1 = Set::new(|id: ShredId| led_by(events, 1, 0, id));
    let both = Set::new(|id: ShredId| arrived(events, 0, id) && arrived(events, 1, id));
    if events.len() == 0 {
        assert(led0 =~= Set::empty());
        assert(led1 =~= Set::empty());
        assert(both =~= Set::empty());
    } else {
        let rest = events.drop_last();
        let e = events.last();
        lemma_beginning(events, max_slots, timeout_secs);
        law_run_counts_what_came(rest, max_slots, timeout_secs);
        law_run_holds_what_came(rest, max_slots, timeout_secs);
        let u = run(rest, max_slots, timeout_secs).0;
        let old0 = Set::new(|id: ShredId| led_by(rest, 0, 1, id));
        let old1 = Set::new(|id: ShredId| led_by(rest, 1, 0, id));
        let old_both = Set::new(|id: ShredId| arrived(rest, 0, id) && arrived(rest, 1, id));
        assert forall|id: ShredId|
            (led0.contains(id) <==> old0.contains(id) || (brings(e, 0, id) && !arrived(rest, 0, id)
                && !arrived(rest, 1, id))) && (led1.contains(id) <==> old1.contains(id) || (brings(
                e,
                1,
                id,
            ) && !arrived(rest, 0, id) && !arrived(rest, 1, id))) && (both.contains(id)
                <==> old_both.contains(id) || (brings(e, 0, id) && arrived(rest, 1, id)) || (brings(
                e,
                1,
                id,
            ) && arrived(rest, 0, id))) by {
            lemma_led_step(events, 0, 1, id);
            lemma_led_step(events, 1, 0, id);
            lemma_arrived_step(events, 0, id);
            lemma_arrived_step(events, 1, id);
        }
        if e is ShredReceived {
            let id = e->shred_id;
            let held0 = arrived(rest, 0, id);
            let held1 = arrived(rest, 1, id);
            assert(u.port0.contains_key(id) <==> held0);
            assert(u.port1.contains_key(id) <==> held1);
            assert(led_by(rest, 0, 1, id) ==> held0) by {
                if led_by(rest, 0, 1, id) {
                    let i = choose|i: int| #[trigger] arrived_at(rest, 0, id, i);
                    assert(brings(rest[i], 0, id));
                }
            }
            assert(led_by(rest, 1, 0, id) ==> held1) by {
                if led_by(rest, 1, 0, id) {
                    let i = choose|i: int| #[trigger] arrived_at(rest, 1, id, i);
                    assert(brings(rest[i], 1, id));
                }
            }
            if e->port_id == 0 && !held0 {
                assert(led1 =~= old1);
                if held1 {
                    assert(led0 =~= old0);
                    assert(both =~= old_both.insert(id));
                } else {
                    assert(led0 =~= old0.insert(id));
                    assert(both =~= old_both);
                }
            } else if e->port_id == 1 && !held1 {
                assert(led0 =~= old0);
                if held0 {
                    assert(led1 =~= old1);
                    assert(both =~= old_both.insert(id));
                } else {
                    assert(led1 =~= old1.insert(id));
                    assert(both =~= old_both);
                }
            } else {
                assert(led0 =~= old0);
                assert(led1 =~= old1);
                assert(both =~= old_both);
            }
        } else {
            assert(led0 =~= old0);
            assert(led1 =~= old1);
            assert(both =~= old_both);
        }
    }
}

/// 2^64.
pub open spec fn two_to_64() -> int {
    0x1_0000_0000_0000_0000
}

/// `ids` are the shreds that both ports hold, each once; `lead_ids` are those of
/// them that port 0 has the earlier time of.
pub open spec fn are_pairs(v: ProcessorView, ids: Seq<ShredId>, lead_ids: Seq<ShredId>) -> bool {
    &&& ids.no_duplicates()
    &&& lead_ids.no_duplicates()
    &&& forall|id: ShredId| #[trigger]
        ids.contains(id) <==> v.port0.contains_key(id) && v.port1.contains_key(id)
    &&& forall|id: ShredId| #[trigger]
        lead_ids.contains(id) <==> v.port0.contains_key(id) && v.port1.contains_key(id)
            && v.port0[id] < v.port1[id]
}

/// Every shred of which both ports have brought a copy has given one difference,
/// its first time on port 0 minus its first time on port 1, and, where that is
/// negative, one lead, its first time on port 1 minus that on port 0. There are
/// no other differences and leads. A sample keeps 64 bits; while all times are
/// within the clock that is all of it.
pub proof fn law_run_compares_what_came(
    events: Seq<ProcessorEvent>,
    max_slots: u64,
    timeout_secs: u64,
) -> (r: (Seq<ShredId>, Seq<ShredId>))
    requires
        on_ports(events),
        without_cleanup(events),
        !run(events, max_slots, timeout_secs).1,
    ensures
        ({
            let v = run(events, max_slots, timeout_secs).0;
            let (ids, lead_ids) = r;
            &&& are_pairs(v, ids, lead_ids)
            &&& v.diffs.len() == ids.len()
            &&& v.lead_times.len() == lead_ids.len()
            &&& forall|k: int|
                0 <= k < ids.len() ==> (#[trigger] v.diffs[k]) as u64 == (v.port0[ids[k]]
                    - v.port1[ids[k]]) % two_to_64()
            &&& forall|k: int|
                0 <= k < lead_ids.len() ==> (#[trigger] v.lead_times[k]) as u64 == (
                v.port1[lead_ids[k]] - v.port0[lead_ids[k]]) % two_to_64()
            &&& forall|k: int, i: int, j: int|
                0 <= k < ids.len() && #[trigger] arrived_at(events, 0, ids[k], i)
                    && #[trigger] arrived_at(events, 1, ids[k], j) && within_clock(events[i])
                    && within_clock(events[j]) ==> v.diffs[k] == events[i]->timestamp
                    - events[j]->timestamp
            &&& forall|k: int, i: int, j: int|
                0 <= k < lead_ids.len() && #[trigger] arrived_at(events, 0, lead_ids[k], i)
                    && #[trigger] arrived_at(events, 1, lead_ids[k], j) && within_clock(events[i])
                    && within_clock(events[j]) ==> v.lead_times[k] == events[j]->timestamp
                    - events[i]->timestamp && v.lead_times[k] > 0
        }),
{
    law_run_holds_what_came(events, max_slots, timeout_secs);
    let v = run(events, max_slots, timeout_secs).0;
    let (ids, lead_ids) = lemma_pairs(events, max_slots, timeout_secs);
    assert forall|k: int, i: int, j: int|
        0 <= k < ids.len() && #[trigger] arrived_at(events, 0, ids[k], i) && #[trigger] arrived_at(
            events,
            1,
            ids[k],
            j,
        ) && within_clock(events[i]) && within_clock(events[j]) implies v.diffs[k]
        == events[i]->timestamp - events[j]->timestamp by {
        let t0 = events[i]->timestamp;
        let t1 = events[j]->timestamp;
        assert(v.port0[ids[k]] == t0 && v.port1[ids[k]] == t1);
        assert(v.diffs[k] as u64 == (t0 - t1) % two_to_64());
        lemma_small_sample(v.diffs[k], t0 - t1);
    }
    assert forall|k: int, i: int, j: int|
        0 <= k < lead_ids.len() && #[trigger] arrived_at(events, 0, lead_ids[k], i)
            && #[trigger] arrived_at(events, 1, lead_ids[k], j) && within_clock(events[i])
            && within_clock(events[j]) implies v.lead_times[k] == events[j]->timestamp
        - events[i]->timestamp && v.lead_times[k] > 0 by {
        let t0 = events[i]->timestamp;
        let t1 = events[j]->timestamp;
        assert(lead_ids.contains(lead_ids[k]));
        assert(v.port0[lead_ids[k]] == t0 && v.port1[lead_ids[k]] == t1);
        assert(v.lead_times[k] as u64 == (t1 - t0) % two_to_64());
        lemma_small_sample(v.lead_times[k], t1 - t0);
    }
    (ids, lead_ids)
}

/// A sample that agrees with a number of 64 bits in its low bits is that number.
proof fn lemma_small_sample(d: i64, n: int)
    requires
        i64::MIN <= n <= i64::MAX,
        d as u64 == n % two_to_64(),
    ensures
        d == n,
{
    law_sample_of_remainder(d);
    if n >= 0 {
        assert(n % two_to_64() == n);
    } else {
        vstd::arithmetic::div_mod::lemma_fundamental_div_mod_converse(
            n,
            two_to_64(),
            -1,
            n + two_to_64(),
        );
    }
}

/// A sequence without repetition grows by an element that it lacks.
proof fn lemma_push_new(ids: Seq<ShredId>, id: ShredId)
    requires
        ids.no_duplicates(),
        !ids.contains(id),
    ensures
        ids.push(id).no_duplicates(),
        forall|other: ShredId| #[trigger]
            ids.push(id).contains(other) <==> ids.contains(other) || other == id,
{
    let more = ids.push(id);
    assert forall|other: ShredId| #[trigger] more.contains(other) <==> ids.contains(other) || other
        == id by {
        if ids.contains(other) {
            let i = choose|i: int| 0 <= i < ids.len() && ids[i] == other;
            assert(more[i] == other);
        }
        if other == id {
            assert(more[ids.len() as int] == id);
        }
        if more.contains(other) {
            let i = choose|i: int| 0 <= i < more.len() && more[i] == other;
            if i < ids.len() {
                assert(ids[i] == other);
            }
        }
    }
    assert forall|i: int, j: int| 0 <= i < more.len() && 0 <= j < more.len() && i != j implies more[i]
        != more[j] by {
        if i < ids.len() && j < ids.len() {
        } else if i < ids.len() {
            assert(ids.contains(ids[i]));
        } else {
            assert(ids.contains(ids[j]));
        }
    }
}

/// The shreds that have given differences and leads, in the order of these.
proof fn lemma_pairs(events: Seq<ProcessorEvent>, max_slots: u64, timeout_secs: u64) -> (r: (
    Seq<ShredId>,
    Seq<ShredId>,
))
    requires
        on_ports(events),
        without_cleanup(events),
        !run(events, max_slots, timeout_secs).1,
    ensures
        ({
            let v = run(events, max_slots, timeout_secs).0;
            let (ids, lead_ids) = r;
            &&& are_pairs(v, ids, lead_ids)
            &&& v.diffs.len() == ids.len()
            &&& v.lead_times.len() == lead_ids.len()
            &&& forall|k: int|
                0 <= k < ids.len() ==> (#[trigger] v.diffs[k]) as u64 == (v.port0[ids[k]]
                    - v.port1[ids[k]]) % two_to_64()
            &&& forall|k: int|
                0 <= k < lead_ids.len() ==> (#[trigger] v.lead_times[k]) as u64 == (
                v.port1[lead_ids[k]] - v.port0[lead_ids[k]]) % two_to_64()
        }),
    decreases events.len(),
{
    let v = run(events, max_slots, timeout_secs).0;
    if events.len() == 0 {
        (seq![], seq![])
    } else {
        let rest = events.drop_last();
        let e = events.last();
        lemma_beginning(events, max_slots, timeout_secs);
        let (ids, lead_ids) = lemma_pairs(rest, max_slots, timeout_secs);
        let u = run(rest, max_slots, timeout_secs).0;
        let id = e->shred_id;
        assert forall|k: int| 0 <= k < ids.len() implies u.port0.contains_key(#[trigger] ids[k])
            && u.port1.contains_key(ids[k]) by {
            assert(ids.contains(ids[k]));
        }
        assert forall|k: int| 0 <= k < lead_ids.len() implies u.port0.contains_key(
            #[trigger] lead_ids[k],
        ) && u.port1.contains_key(lead_ids[k]) by {
            assert(lead_ids.contains(lead_ids[k]));
        }
        let completes = e is ShredReceived && ((e->port_id == 0 && !u.port0.contains_key(id)
            && u.port1.contains_key(id)) || (e->port_id == 1 && !u.port1.contains_key(id)
            && u.port0.contains_key(id)));
        if completes {
            let t0 = v.port0[id];
            let t1 = v.port1[id];
            law_difference_keeps_low_bits(t0, t1);
            assert(!ids.contains(id));
            assert(!lead_ids.contains(id));
            lemma_push_new(ids, id);
            lemma_push_new(lead_ids, id);
            if t0 < t1 {
                assert(are_pairs(v, ids.push(id), lead_ids.push(id)));
                (ids.push(id), lead_ids.push(id))
            } else {
                assert(are_pairs(v, ids.push(id), lead_ids));
                (ids.push(id), lead_ids)
            }
        } else {
            assert(v.diffs == u.diffs);
            assert(v.lead_times == u.lead_times);
            assert(are_pairs(v, ids, lead_ids));
            (ids, lead_ids)
        }
    }
}

/// A run that has ended is, but for the slot of the event that ended it, the run
/// up to that event. That slot had not come before; what comes behind counts
/// for nothing.
pub proof fn law_run_ends_once(
    events: Seq<ProcessorEvent>,
    max_slots: u64,
    timeout_secs: u64,
) -> (n: int)
    requires
        run(events, max_slots, timeout_secs).1,
    ensures
        0 <= n < events.len(),
        events[n] is ShredReceived,
        !run(events.take(n), max_slots, timeout_secs).1,
        ({
            let v = run(events, max_slots, timeout_secs).0;
            let u = run(events.take(n), max_slots, timeout_secs).0;
            &&& !u.seen_slots.contains(events[n]->slot)
            &&& v.seen_slots == u.seen_slots.insert(events[n]->slot)
            &&& v.port0 == u.port0 && v.port1 == u.port1
            &&& v.matched_pairs == u.matched_pairs
            &&& v.first_seen_port0 == u.first_seen_port0
            &&& v.first_seen_port1 == u.first_seen_port1
            &&& v.lead_times == u.lead_times && v.diffs == u.diffs
            &&& v.slots == u.slots
        }),
    decreases events.len(),
{
    let rest = events.drop_last();
    if run(rest, max_slots, timeout_secs).1 {
        let n = law_run_ends_once(rest, max_slots, timeout_secs);
        assert(rest.take(n) =~= events.take(n));
        n
    } else {
        assert(events.take(events.len() - 1) =~= rest);
        events.len() - 1
    }
}

/// Slots are counted as seen whatever is forgotten on the way.
pub proof fn law_run_sees_what_came(events: Seq<ProcessorEvent>, max_slots: u64, timeout_secs: u64)
    requires
        on_ports(events),
        !run(events, max_slots, timeout_secs).1,
    ensures
        ({
            let v = run(events, max_slots, timeout_secs).0;
            forall|slot: u64| #[trigger] v.seen_slots.contains(slot) <==> slot_came(events, slot)
        }),
    decreases events.len(),
{
    if events.len() > 0 {
        let v = run(events, max_slots, timeout_secs).0;
        let rest = events.drop_last();
        lemma_beginning(events, max_slots, timeout_secs);
        law_run_sees_what_came(rest, max_slots, timeout_secs);
        let u = run(rest, max_slots, timeout_secs).0;
        assert forall|slot: u64| #[trigger] v.seen_slots.contains(slot) <==> slot_came(
            events,
            slot,
        ) by {
            lemma_slot_came_step(events, slot);
            assert(u.seen_slots.contains(slot) <==> slot_came(rest, slot));
        }
    }
}

/// Whether an arrival at time `t` is young enough at time `now` to be kept.
pub open spec fn stays(now: u128, t: u128, timeout_secs: u64) -> bool {
    timeout_secs > 0 && now - t < timeout_secs * 1_000_000_000
}

/// A clean-up keeps on each port exactly the arrivals that are younger than the
/// timeout, which counts in seconds, and their times; it changes nothing else,
/// and nothing is left to do. A timeout of zero keeps nothing.
pub proof fn law_cleanup_event(v: ProcessorView, max_slots: u64, timeout_secs: u64, now: u128)
    ensures
        ({
            let (w, action) = after_event(
                v,
                max_slots,
                timeout_secs,
                ProcessorEvent::Cleanup { now },
            );
            &&& action == Action::Continue
            &&& forall|id: ShredId| #[trigger]
                w.port0.contains_key(id) <==> v.port0.contains_key(id) && stays(
                    now,
                    v.port0[id],
                    timeout_secs,
                )
            &&& forall|id: ShredId| #[trigger]
                w.port1.contains_key(id) <==> v.port1.contains_key(id) && stays(
                    now,
                    v.port1[id],
                    timeout_secs,
                )
            &&& forall|id: ShredId| #[trigger]
                w.port0.contains_key(id) ==> w.port0[id] == v.port0[id]
            &&& forall|id: ShredId| #[trigger]
                w.port1.contains_key(id) ==> w.port1[id] == v.port1[id]
            &&& w.matched_pairs == v.matched_pairs
            &&& w.first_seen_port0 == v.first_seen_port0
            &&& w.first_seen_port1 == v.first_seen_port1
            &&& w.lead_times == v.lead_times && w.diffs == v.diffs
            &&& w.seen_slots == v.seen_slots && w.slots == v.slots
        }),
{
}

/// A tick of the timer asks for a report and changes nothing.
pub proof fn law_tick_event(v: ProcessorView, max_slots: u64, timeout_secs: u64)
    ensures
        after_event(v, max_slots, timeout_secs, ProcessorEvent::StatsTick) == (v, Action::Report),
{
}

/// A shred asks to save and stop exactly where it is of a slot that has not come
/// before and brings the number of slots up to a limit; else there is nothing
/// left to do.
pub proof fn law_shred_event_action(
    v: ProcessorView,
    max_slots: u64,
    timeout_secs: u64,
    event: ProcessorEvent,
)
    requires
        event is ShredReceived,
        v.seen_slots.finite(),
        max_slots <= usize::MAX,
    ensures
        ({
            let action = after_event(v, max_slots, timeout_secs, event).1;
            &&& action == Action::SaveAndStop <==> max_slots > 0 && !v.seen_slots.contains(
                event->slot,
            ) && v.seen_slots.len() + 1 >= max_slots
            &&& action == Action::SaveAndStop || action == Action::Continue
        }),
{
}

/// Both ports have brought a copy of the shred once the event is handled, and
/// had not before.
pub open spec fn completes_pair(v: ProcessorView, event: ProcessorEvent) -> bool {
    let held0 = v.port0.contains_key(event->shred_id);
    let held1 = v.port1.contains_key(event->shred_id);
    (event->port_id == 0 && held1 && !held0) || (event->port_id == 1 && held0 && !held1)
}

/// What a shred that does not end the run does, whatever has been forgotten
/// before. Its port holds it, with the time of the copy that it held already, or
/// with the time of this one; the rest that the ports hold stays. Where neither
/// port held it, a first sighting is counted for its port. Where only the other
/// one did, a pair is counted, and the difference of the two times is put behind
/// the others; with it goes a lead where the time on port 0 is the earlier one.
/// The samples before stay as they are.
pub proof fn law_shred_event(
    v: ProcessorView,
    max_slots: u64,
    timeout_secs: u64,
    event: ProcessorEvent,
)
    requires
        event is ShredReceived,
        event->port_id <= 1,
        after_event(v, max_slots, timeout_secs, event).1 != Action::SaveAndStop,
    ensures
        ({
            let w = after_event(v, max_slots, timeout_secs, event).0;
            let id = event->shred_id;
            let held0 = v.port0.contains_key(id);
            let held1 = v.port1.contains_key(id);
            let new0 = event->port_id == 0 && !held0;
            let new1 = event->port_id == 1 && !held1;
            let pair = completes_pair(v, event);
            let lead = pair && w.port0[id] < w.port1[id];
            &&& w.port0 == if new0 {
                v.port0.insert(id, event->timestamp)
            } else {
                v.port0
            }
            &&& w.port1 == if new1 {
                v.port1.insert(id, event->timestamp)
            } else {
                v.port1
            }
            &&& w.first_seen_port0 == v.first_seen_port0 + if new0 && !held1 {
                1int
            } else {
                0
            }
            &&& w.first_seen_port1 == v.first_seen_port1 + if new1 && !held0 {
                1int
            } else {
                0
            }
            &&& w.matched_pairs == v.matched_pairs + if pair {
                1int
            } else {
                0
            }
            &&& !pair ==> w.diffs == v.diffs
            &&& pair ==> w.diffs.len() == v.diffs.len() + 1 && w.diffs.drop_last() == v.diffs
                && w.diffs.last() as u64 == (w.port0[id] - w.port1[id]) % two_to_64()
            &&& !lead ==> w.lead_times == v.lead_times
            &&& lead ==> w.lead_times.len() == v.lead_times.len() + 1 && w.lead_times.drop_last()
                == v.lead_times && w.lead_times.last() as u64 == (w.port1[id] - w.port0[id])
                % two_to_64()
            &&& w.seen_slots == v.seen_slots.insert(event->slot)
        }),
{
    let w = after_event(v, max_slots, timeout_secs, event).0;
    let id = event->shred_id;
    if completes_pair(v, event) {
        law_difference_keeps_low_bits(w.port0[id], w.port1[id]);
        assert(w.diffs.drop_last() =~= v.diffs);
        if w.port0[id] < w.port1[id] {
            assert(w.lead_times.drop_last() =~= v.lead_times);
        }
    }
}

/// What such a shred does to the records of the slots: it is put behind the
/// others of its port in the record of its slot, also where the port held it
/// already; the first one of a port sets the first time. All other records stay.
pub proof fn law_shred_event_records(
    v: ProcessorView,
    max_slots: u64,
    timeout_secs: u64,
    event: ProcessorEvent,
)
    requires
        event is ShredReceived,
        event->port_id <= 1,
        after_event(v, max_slots, timeout_secs, event).1 != Action::SaveAndStop,
    ensures
        ({
            let w = after_event(v, max_slots, timeout_secs, event).0;
            let slot = event->slot;
            let known = v.slots.contains_key(slot);
            let now = w.slots[slot];
            let one = seq![(event->shred_id, event->timestamp)];
            let t = Some(event->timestamp);
            &&& w.slots.dom() == v.slots.dom().insert(slot)
            &&& forall|s: u64| s != slot ==> #[trigger] w.slots[s] == v.slots[s]
            &&& !known && event->port_id == 0 ==> now.port0_shreds == one && now.port0_first == t
                && now.port1_shreds.len() == 0 && now.port1_first is None
            &&& !known && event->port_id == 1 ==> now.port1_shreds == one && now.port1_first == t
                && now.port0_shreds.len() == 0 && now.port0_first is None
            &&& known && event->port_id == 0 ==> now.port0_shreds == v.slots[slot].port0_shreds
                + one && now.port1_shreds == v.slots[slot].port1_shreds && now.port1_first
                == v.slots[slot].port1_first && now.port0_first == if v.slots[slot].port0_first
                is Some {
                v.slots[slot].port0_first
            } else {
                t
            }
            &&& known && event->port_id == 1 ==> now.port1_shreds == v.slots[slot].port1_shreds
                + one && now.port0_shreds == v.slots[slot].port0_shreds && now.port0_first
                == v.slots[slot].port0_first && now.port1_first == if v.slots[slot].port1_first
                is Some {
                v.slots[slot].port1_first
            } else {
                t
            }
        }),
{
    let w = after_event(v, max_slots, timeout_secs, event).0;
    let slot = event->slot;
    let one = seq![(event->shred_id, event->timestamp)];
    assert(w.slots.dom() =~= v.slots.dom().insert(slot));
    if v.slots.contains_key(slot) {
        assert(v.slots[slot].port0_shreds.push(one[0]) =~= v.slots[slot].port0_shreds + one);
        assert(v.slots[slot].port1_shreds.push(one[0]) =~= v.slots[slot].port1_shreds + one);
    } else {
        assert(Seq::<(ShredId, u128)>::empty().push(one[0]) =~= one);
    }
}

/// A shred that ends the run has its slot counted as seen and does nothing else.
pub proof fn law_last_event(
    v: ProcessorView,
    max_slots: u64,
    timeout_secs: u64,
    event: ProcessorEvent,
)
    requires
        after_event(v, max_slots, timeout_secs, event).1 == Action::SaveAndStop,
    ensures
        event is ShredReceived,
        after_event(v, max_slots, timeout_secs, event).0 == (ProcessorView {
            seen_slots: v.seen_slots.insert(event->slot),
            ..v
        }),
{
}

/// An event that is no shred can always be handled, and so can a shred that ends
/// the run. Any other shred can where it comes on one of the ports and its port
/// holds it already; or where no port holds it and the first sightings of its
/// port can still be counted; or where the other port holds it, unless the time
/// on port 0 is the earlier one by exactly 2^63 nanoseconds in the low 64 bits.
pub proof fn law_what_can_be_handled(v: ProcessorView, max_slots: u64, event: ProcessorEvent)
    requires
        v.seen_slots.finite(),
        max_slots <= usize::MAX,
    ensures
        !(event is ShredReceived) ==> manageable(v, max_slots, event),
        event is ShredReceived ==> {
            let id = event->shred_id;
            let t = event->timestamp;
            let held0 = v.port0.contains_key(id);
            let held1 = v.port1.contains_key(id);
            let half = 0x8000_0000_0000_0000int;
            manageable(v, max_slots, event) <==> {
                ||| max_slots > 0 && !v.seen_slots.contains(event->slot) && v.seen_slots.len() + 1
                    >= max_slots
                ||| event->port_id == 0 && held0
                ||| event->port_id == 1 && held1
                ||| event->port_id == 0 && !held1 && v.first_seen_port0 < usize::MAX
                ||| event->port_id == 1 && !held0 && v.first_seen_port1 < usize::MAX
                ||| event->port_id == 0 && held1 && !(t < v.port1[id] && (v.port1[id] - t)
                    % two_to_64() == half)
                ||| event->port_id == 1 && held0 && !(v.port0[id] < t && (t - v.port0[id])
                    % two_to_64() == half)
            }
        },
{
    if event is ShredReceived {
        let id = event->shred_id;
        let t = event->timestamp;
        law_sample_of_remainder(i64::MIN);
        if event->port_id == 0 && v.port1.contains_key(id) {
            law_difference_keeps_low_bits(t, v.port1[id]);
            law_sample_of_remainder(span(v.port1[id], t));
        }
        if event->port_id == 1 && v.port0.contains_key(id) {
            law_difference_keeps_low_bits(v.port0[id], t);
            law_sample_of_remainder(span(t, v.port0[id]));
        }
    }
}

/// Before the first event nothing has been counted, held, seen or recorded.
pub proof fn law_beginning_is_empty()
    ensures
        ({
            let v = empty_processor();
            &&& forall|id: ShredId| !(#[trigger] v.port0.contains_key(id))
            &&& forall|id: ShredId| !(#[trigger] v.port1.contains_key(id))
            &&& v.matched_pairs == 0 && v.first_seen_port0 == 0 && v.first_seen_port1 == 0
            &&& v.lead_times.len() == 0 && v.diffs.len() == 0
            &&& forall|slot: u64| !(#[trigger] v.seen_slots.contains(slot))
            &&& forall|slot: u64| !(#[trigger] v.slots.contains_key(slot))
        }),
{
}

/// The value of a comparison is what its fields hold.
pub proof fn law_value_of_state(state: ProcessorState)
    ensures
        state@.port0 == state.port0_data@,
        state@.port1 == state.port1_data@,
        state@.matched_pairs == state.matched_pairs,
        state@.first_seen_port0 == state.first_seen_port0,
        state@.first_seen_port1 == state.first_seen_port1,
        state@.lead_times == state.lead_times_ns@,
        state@.diffs == state.all_diffs_ns@,
        state@.seen_slots == state.seen_slots@,
        state@.slots.dom() == state.slot_data@.dom(),
        forall|slot: u64| #[trigger]
            state@.slots.contains_key(slot) ==> state@.slots[slot].port0_first
                == state.slot_data@[slot].port0_first_shred_time && state@.slots[slot].port1_first
                == state.slot_data@[slot].port1_first_shred_time && state@.slots[slot].port0_shreds
                == state.slot_data@[slot].port0_shreds@ && state@.slots[slot].port1_shreds
                == state.slot_data@[slot].port1_shreds@,
{
    assert(state@.slots.dom() =~= state.slot_data@.dom());
}

/// What a shred does does not depend on which slots have been seen, and taking it
/// in counts no slot as seen.
pub proof fn law_shred_needs_no_slots(
    v: ProcessorView,
    seen: Set<u64>,
    port_id: u8,
    id: ShredId,
    slot: u64,
    time: u128,
)
    requires
        port_id <= 1,
    ensures
        processed((ProcessorView { seen_slots: seen, ..v }), port_id, id, slot, time) == (
        ProcessorView { seen_slots: seen, ..processed(v, port_id, id, slot, time) }),
        processed(v, port_id, id, slot, time).seen_slots == v.seen_slots,
{
}

/// What a port holds.
pub open spec fn held_on(v: ProcessorView, port: u8) -> Map<ShredId, u128> {
    if port == 0 {
        v.port0
    } else {
        v.port1
    }
}

/// The event is a clean-up that forgets an arrival at time `t`.
pub open spec fn forgets(event: ProcessorEvent, t: u128, timeout_secs: u64) -> bool {
    event is Cleanup && !stays(event->now, t, timeout_secs)
}

/// The event at `i` brought the shred, and no clean-up since has forgotten a time
/// such as its.
pub open spec fn kept_from(
    events: Seq<ProcessorEvent>,
    port: u8,
    id: ShredId,
    timeout_secs: u64,
    i: int,
) -> bool {
    &&& 0 <= i < events.len()
    &&& brings(events[i], port, id)
    &&& forall|j: int|
        i < j < events.len() ==> !forgets(#[trigger] events[j], events[i]->timestamp, timeout_secs)
}

/// A clean-up at `j` has forgotten a copy of the shred that came before it, at
/// `i`.
pub open spec fn forgotten_at(
    events: Seq<ProcessorEvent>,
    port: u8,
    id: ShredId,
    timeout_secs: u64,
    i: int,
    j: int,
) -> bool {
    &&& 0 <= i < j < events.len()
    &&& brings(events[i], port, id)
    &&& forgets(events[j], events[i]->timestamp, timeout_secs)
}

/// A run that goes on holds on a port only times of copies that the port has
/// brought and that no clean-up since has forgotten. A shred of which the port
/// has brought a copy is missing only where a clean-up behind that copy has
/// forgotten one.
pub proof fn law_run_keeps_what_is_young(
    events: Seq<ProcessorEvent>,
    max_slots: u64,
    timeout_secs: u64,
    port: u8,
    id: ShredId,
)
    requires
        on_ports(events),
        !run(events, max_slots, timeout_secs).1,
        port <= 1,
    ensures
        ({
            let m = held_on(run(events, max_slots, timeout_secs).0, port);
            &&& m.contains_key(id) ==> exists|i: int| #[trigger]
                kept_from(events, port, id, timeout_secs, i) && events[i]->timestamp == m[id]
            &&& !m.contains_key(id) ==> forall|k: int|
                0 <= k < events.len() && brings(#[trigger] events[k], port, id) ==> exists|
                    i: int,
                    j: int,
                |
                    k < j && #[trigger] forgotten_at(events, port, id, timeout_secs, i, j)
        }),
    decreases events.len(),
{
    if events.len() > 0 {
        let rest = events.drop_last();
        let last = events.len() - 1;
        let e = events[last];
        lemma_beginning(events, max_slots, timeout_secs);
        law_run_keeps_what_is_young(rest, max_slots, timeout_secs, port, id);
        let u = run(rest, max_slots, timeout_secs).0;
        let v = run(events, max_slots, timeout_secs).0;
        let before = held_on(u, port);
        let m = held_on(v, port);
        match e {
            ProcessorEvent::ShredReceived { port_id, shred_id, slot, timestamp } => {
                law_shred_event(u, max_slots, timeout_secs, e);
            },
            ProcessorEvent::Cleanup { now } => {
                law_cleanup_event(u, max_slots, timeout_secs, now);
            },
            ProcessorEvent::StatsTick => {},
        }
        if before.contains_key(id) {
            let i = choose|i: int| #[trigger]
                kept_from(rest, port, id, timeout_secs, i) && rest[i]->timestamp == before[id];
            if m.contains_key(id) {
                assert forall|j: int| i < j < events.len() implies !forgets(
                    #[trigger] events[j],
                    events[i]->timestamp,
                    timeout_secs,
                ) by {
                    if j < last {
                        assert(!forgets(rest[j], rest[i]->timestamp, timeout_secs));
                    }
                }
                assert(kept_from(events, port, id, timeout_secs, i));
            } else {
                assert(forgotten_at(events, port, id, timeout_secs, i, last));
            }
        } else if m.contains_key(id) {
            assert(kept_from(events, port, id, timeout_secs, last));
        } else {
            assert forall|k: int|
                0 <= k < events.len() && brings(#[trigger] events[k], port, id) implies exists|
                i: int,
                j: int,
            |
                k < j && #[trigger] forgotten_at(events, port, id, timeout_secs, i, j) by {
                assert(brings(rest[k], port, id));
                let (i, j) = choose|i: int, j: int|
                    k < j && #[trigger] forgotten_at(rest, port, id, timeout_secs, i, j);
                assert(forgotten_at(events, port, id, timeout_secs, i, j));
            }
        }
    }
}

/// Every shred that is read from a packet is passed on, with the port on which it
/// came, its own identity and slot, and the time of the packet; a packet that is
/// no shred gives no event. A source is announced with its first shred, and
/// never again.
pub proof fn law_packet(port_id: u8, heard_before: bool, parsed: Option<ParsedShred>, time: u128)
    ensures
        ({
            let event = event_of_packet(port_id, parsed, time);
            &&& event is Some <==> parsed is Some
            &&& parsed is Some ==> event->0 is ShredReceived && brings(
                event->0,
                port_id,
                parsed->0.id,
            ) && event->0->slot == parsed->0.slot && event->0->timestamp == time
            &&& announces(heard_before, parsed) <==> parsed is Some && !heard_before
            &&& heard_after(heard_before, parsed) <==> heard_before || parsed is Some
        }),
{
}

} // verus!
