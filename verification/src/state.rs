//! The comparison of two ports: what has arrived where, and by how much the
//! ports differ.

use std::collections::{HashMap, HashSet};

use vstd::prelude::*;

use crate::arrivals::{law_recent_is_part, recent, Arrivals};
use crate::shred::ShredId;

verus! {

broadcast use vstd::std_specs::hash::group_hash_axioms;

/// What has arrived of one slot. Times are nanoseconds since a common origin.
pub struct SlotInfo {
    pub port0_first_shred_time: Option<u128>,
    pub port1_first_shred_time: Option<u128>,
    pub port0_shreds: Vec<(ShredId, u128)>,
    pub port1_shreds: Vec<(ShredId, u128)>,
}

/// A slot as a mathematical value.
#[verifier::ext_equal]
pub struct SlotView {
    pub port0_first: Option<u128>,
    pub port1_first: Option<u128>,
    pub port0_shreds: Seq<(ShredId, u128)>,
    pub port1_shreds: Seq<(ShredId, u128)>,
}

impl View for SlotInfo {
    type V = SlotView;

    open spec fn view(&self) -> SlotView {
        SlotView {
            port0_first: self.port0_first_shred_time,
            port1_first: self.port1_first_shred_time,
            port0_shreds: self.port0_shreds@,
            port1_shreds: self.port1_shreds@,
        }
    }
}

/// A slot of which nothing has arrived.
pub open spec fn empty_slot() -> SlotView {
    SlotView { port0_first: None, port1_first: None, port0_shreds: seq![], port1_shreds: seq![] }
}

impl SlotInfo {
    /// A slot of which nothing has arrived.
    pub fn new() -> (r: SlotInfo)
        ensures
            r@ == empty_slot(),
    {
        let r = SlotInfo {
            port0_first_shred_time: None,
            port1_first_shred_time: None,
            port0_shreds: Vec::new(),
            port1_shreds: Vec::new(),
        };
        assert(r@ =~= empty_slot());
        r
    }
}

/// The first time of a port is the time of its first shred.
pub open spec fn first_time_agrees(first: Option<u128>, shreds: Seq<(ShredId, u128)>) -> bool {
    first == (if shreds.len() == 0 {
        None
    } else {
        Some(shreds[0].1)
    })
}

/// What holds of every slot.
pub open spec fn slot_inv(s: SlotView) -> bool {
    &&& first_time_agrees(s.port0_first, s.port0_shreds)
    &&& first_time_agrees(s.port1_first, s.port1_shreds)
}

/// The running comparison.
pub struct ProcessorState {
    pub port0_data: Arrivals,
    pub port1_data: Arrivals,
    /// Shreds that have arrived on both ports.
    pub matched_pairs: usize,
    /// Shreds that port 0 delivered first.
    pub first_seen_port0: usize,
    /// Shreds that port 1 delivered first.
    pub first_seen_port1: usize,
    /// How far port 0 was ahead, where it was, in nanoseconds.
    pub lead_times_ns: Vec<i64>,
    /// The time on port 0 minus the time on port 1, in nanoseconds.
    pub all_diffs_ns: Vec<i64>,
    pub seen_slots: HashSet<u64>,
    pub slot_data: HashMap<u64, SlotInfo>,
}

/// The running comparison as a mathematical value.
#[verifier::ext_equal]
pub struct ProcessorView {
    pub port0: Map<ShredId, u128>,
    pub port1: Map<ShredId, u128>,
    pub matched_pairs: nat,
    pub first_seen_port0: nat,
    pub first_seen_port1: nat,
    pub lead_times: Seq<i64>,
    pub diffs: Seq<i64>,
    pub seen_slots: Set<u64>,
    pub slots: Map<u64, SlotView>,
}

impl View for ProcessorState {
    type V = ProcessorView;

    open spec fn view(&self) -> ProcessorView {
        ProcessorView {
            port0: self.port0_data@,
            port1: self.port1_data@,
            matched_pairs: self.matched_pairs as nat,
            first_seen_port0: self.first_seen_port0 as nat,
            first_seen_port1: self.first_seen_port1 as nat,
            lead_times: self.lead_times_ns@,
            diffs: self.all_diffs_ns@,
            seen_slots: self.seen_slots@,
            slots: self.slot_data@.map_values(|s: SlotInfo| s@),
        }
    }
}

/// The comparison before the first event.
pub open spec fn empty_processor() -> ProcessorView {
    ProcessorView {
        port0: Map::empty(),
        port1: Map::empty(),
        matched_pairs: 0,
        first_seen_port0: 0,
        first_seen_port1: 0,
        lead_times: seq![],
        diffs: seq![],
        seen_slots: Set::empty(),
        slots: Map::empty(),
    }
}

/// What holds of every comparison.
pub open spec fn processor_inv(v: ProcessorView) -> bool {
    &&& v.port0.dom().finite()
    &&& v.port1.dom().finite()
    &&& v.seen_slots.finite()
    &&& v.slots.dom().finite()
    &&& v.matched_pairs == v.diffs.len()
    &&& v.lead_times.len() <= v.diffs.len()
    &&& forall|slot: u64| #[trigger] v.slots.contains_key(slot) ==> slot_inv(v.slots[slot])
}

/// The slot of a comparison; an empty one where nothing of it has arrived.
pub open spec fn slot_of(v: ProcessorView, slot: u64) -> SlotView {
    if v.slots.contains_key(slot) {
        v.slots[slot]
    } else {
        empty_slot()
    }
}

/// A slot after a shred of it has arrived: the first time stays, the shred goes
/// to the end of the list of its port.
pub open spec fn slot_after(s: SlotView, port_id: u8, id: ShredId, time: u128) -> SlotView {
    if port_id == 0 {
        SlotView {
            port0_first: if s.port0_first is None {
                Some(time)
            } else {
                s.port0_first
            },
            port0_shreds: s.port0_shreds.push((id, time)),
            ..s
        }
    } else {
        SlotView {
            port1_first: if s.port1_first is None {
                Some(time)
            } else {
                s.port1_first
            },
            port1_shreds: s.port1_shreds.push((id, time)),
            ..s
        }
    }
}

/// A span of nanoseconds as a sample; it keeps the low 64 bits of the span.
pub open spec fn span(later: u128, earlier: u128) -> i64 {
    (later - earlier) as i64
}

/// The time on port 0 minus the time on port 1 as a sample.
pub open spec fn signed_span(time0: u128, time1: u128) -> i64 {
    if time0 >= time1 {
        span(time0, time1)
    } else {
        (-span(time1, time0)) as i64
    }
}

/// The comparison after a shred that is new on its port: it counts as first
/// seen there, unless the other port has it; then the two are a pair. A pair
/// whose time on port 0 is the earlier one also gives a lead.
pub open spec fn tallied(v: ProcessorView, port_id: u8, id: ShredId, time: u128) -> ProcessorView {
    if port_id == 0 {
        if v.port0.contains_key(id) {
            v
        } else if !v.port1.contains_key(id) {
            ProcessorView {
                port0: v.port0.insert(id, time),
                first_seen_port0: v.first_seen_port0 + 1,
                ..v
            }
        } else {
            ProcessorView {
                port0: v.port0.insert(id, time),
                matched_pairs: v.matched_pairs + 1,
                diffs: v.diffs.push(signed_span(time, v.port1[id])),
                lead_times: if time < v.port1[id] {
                    v.lead_times.push(span(v.port1[id], time))
                } else {
                    v.lead_times
                },
                ..v
            }
        }
    } else {
        if v.port1.contains_key(id) {
            v
        } else if !v.port0.contains_key(id) {
            ProcessorView {
                port1: v.port1.insert(id, time),
                first_seen_port1: v.first_seen_port1 + 1,
                ..v
            }
        } else {
            ProcessorView {
                port1: v.port1.insert(id, time),
                matched_pairs: v.matched_pairs + 1,
                diffs: v.diffs.push(signed_span(v.port0[id], time)),
                lead_times: if v.port0[id] < time {
                    v.lead_times.push(span(time, v.port0[id]))
                } else {
                    v.lead_times
                },
                ..v
            }
        }
    }
}

/// The comparison after a shred has arrived.
pub open spec fn processed(
    v: ProcessorView,
    port_id: u8,
    id: ShredId,
    slot: u64,
    time: u128,
) -> ProcessorView {
    tallied(
        ProcessorView {
            slots: v.slots.insert(slot, slot_after(slot_of(v, slot), port_id, id, time)),
            ..v
        },
        port_id,
        id,
        time,
    )
}

/// A shred that can be taken in: the port exists, a counter that has to move
/// can, and a negative difference can be negated.
pub open spec fn acceptable(v: ProcessorView, port_id: u8, id: ShredId, time: u128) -> bool {
    &&& port_id <= 1
    &&& port_id == 0 && !v.port0.contains_key(id) ==> {
        if v.port1.contains_key(id) {
            time < v.port1[id] ==> span(v.port1[id], time) != i64::MIN
        } else {
            v.first_seen_port0 < usize::MAX
        }
    }
    &&& port_id == 1 && !v.port1.contains_key(id) ==> {
        if v.port0.contains_key(id) {
            v.port0[id] < time ==> span(time, v.port0[id]) != i64::MIN
        } else {
            v.first_seen_port1 < usize::MAX
        }
    }
}

impl ProcessorState {
    /// The state is sound.
    pub open spec fn wf(&self) -> bool {
        &&& self.port0_data.wf()
        &&& self.port1_data.wf()
        &&& processor_inv(self@)
    }

    /// The state before the first event.
    pub fn new() -> (r: ProcessorState)
        ensures
            r.wf(),
            r@ == empty_processor(),
    {
        let r = ProcessorState {
            port0_data: Arrivals::new(),
            port1_data: Arrivals::new(),
            matched_pairs: 0,
            first_seen_port0: 0,
            first_seen_port1: 0,
            lead_times_ns: Vec::new(),
            all_diffs_ns: Vec::new(),
            seen_slots: HashSet::new(),
            slot_data: HashMap::new(),
        };
        assert(r@ =~= empty_processor());
        assert(r@.slots.dom() =~= Set::empty());
        r
    }

    /// Whether a shred can be taken in.
    pub fn accepts(&self, port_id: u8, shred_id: ShredId, timestamp: u128) -> (r: bool)
        requires
            self.wf(),
        ensures
            r == acceptable(self@, port_id, shred_id, timestamp),
    {
        if port_id == 0 {
            if self.port0_data.contains(&shred_id) {
                true
            } else {
                match self.port1_data.get(&shred_id) {
                    Some(t) => timestamp >= t || (t - timestamp) as i64 != i64::MIN,
                    None => self.first_seen_port0 < usize::MAX,
                }
            }
        } else if port_id == 1 {
            if self.port1_data.contains(&shred_id) {
                true
            } else {
                match self.port0_data.get(&shred_id) {
                    Some(t) => t >= timestamp || (timestamp - t) as i64 != i64::MIN,
                    None => self.first_seen_port1 < usize::MAX,
                }
            }
        } else {
            false
        }
    }
}

/// The time on port 0 minus the time on port 1.
fn difference(time0: u128, time1: u128) -> (r: i64)
    requires
        time0 < time1 ==> span(time1, time0) != i64::MIN,
    ensures
        r == signed_span(time0, time1),
{
    if time0 >= time1 {
        (time0 - time1) as i64
    } else {
        -((time1 - time0) as i64)
    }
}

/// Notes a shred in the record of its slot.
fn note_in_slot(
    slot_data: &mut HashMap<u64, SlotInfo>,
    port_id: u8,
    shred_id: ShredId,
    slot: u64,
    timestamp: u128,
)
    requires
        port_id <= 1,
    ensures
        ({
            let before = if old(slot_data)@.contains_key(slot) {
                old(slot_data)@[slot]@
            } else {
                empty_slot()
            };
            &&& final(slot_data)@.contains_key(slot)
            &&& final(slot_data)@[slot]@ == slot_after(before, port_id, shred_id, timestamp)
            &&& final(slot_data)@ == old(slot_data)@.insert(slot, final(slot_data)@[slot])
        }),
{
    let info = slot_data.entry(slot).or_insert(SlotInfo::new());
    if port_id == 0 {
        if info.port0_first_shred_time.is_none() {
            info.port0_first_shred_time = Some(timestamp);
        }
        info.port0_shreds.push((shred_id, timestamp));
    } else {
        if info.port1_first_shred_time.is_none() {
            info.port1_first_shred_time = Some(timestamp);
        }
        info.port1_shreds.push((shred_id, timestamp));
    }
}

/// Takes in a shred that has arrived on a port.
pub fn process_shred(
    state: &mut ProcessorState,
    port_id: u8,
    shred_id: ShredId,
    slot: u64,
    timestamp: u128,
)
    requires
        old(state).wf(),
        acceptable(old(state)@, port_id, shred_id, timestamp),
    ensures
        final(state).wf(),
        final(state)@ == processed(old(state)@, port_id, shred_id, slot, timestamp),
{
    note_in_slot(&mut state.slot_data, port_id, shred_id, slot, timestamp);
    proof {
        assert(state@.slots =~= old(state)@.slots.insert(
            slot,
            slot_after(slot_of(old(state)@, slot), port_id, shred_id, timestamp),
        ));
    }
    if port_id == 0 {
        if state.port0_data.contains(&shred_id) {
            return ;
        }
        match state.port1_data.get(&shred_id) {
            None => {
                state.first_seen_port0 = state.first_seen_port0 + 1;
            },
            Some(port1_time) => {
                state.all_diffs_ns.push(difference(timestamp, port1_time));
                state.matched_pairs = state.all_diffs_ns.len();
                if timestamp < port1_time {
                    state.lead_times_ns.push((port1_time - timestamp) as i64);
                }
            },
        }
        state.port0_data.insert(shred_id, timestamp);
    } else {
        if state.port1_data.contains(&shred_id) {
            return ;
        }
        match state.port0_data.get(&shred_id) {
            None => {
                state.first_seen_port1 = state.first_seen_port1 + 1;
            },
            Some(port0_time) => {
                state.all_diffs_ns.push(difference(port0_time, timestamp));
                state.matched_pairs = state.all_diffs_ns.len();
                if port0_time < timestamp {
                    state.lead_times_ns.push((timestamp - port0_time) as i64);
                }
            },
        }
        state.port1_data.insert(shred_id, timestamp);
    }
    assert(state@ =~= processed(old(state)@, port_id, shred_id, slot, timestamp));
}

/// The comparison after a clean-up.
pub open spec fn cleaned(v: ProcessorView, now: u128, timeout: u128) -> ProcessorView {
    ProcessorView {
        port0: recent(v.port0, now, timeout),
        port1: recent(v.port1, now, timeout),
        ..v
    }
}

/// Forgets the arrivals that are not younger than `timeout`. The counters and
/// the samples stay.
pub fn cleanup_data(state: &mut ProcessorState, now: u128, timeout: u128)
    requires
        old(state).wf(),
    ensures
        final(state).wf(),
        final(state)@ == cleaned(old(state)@, now, timeout),
{
    state.port0_data.retain_recent(now, timeout);
    state.port1_data.retain_recent(now, timeout);
    proof {
        law_recent_is_part(old(state)@.port0, now, timeout);
        law_recent_is_part(old(state)@.port1, now, timeout);
    }
    assert(state@ =~= cleaned(old(state)@, now, timeout));
}

} // verus!
