//! What the program does with each packet and each event.

use vstd::prelude::*;
use vstd::string::*;

use crate::shred::{ParsedShred, ShredId};
use crate::state::{
    acceptable, cleaned, cleanup_data, process_shred, processed, ProcessorState, ProcessorView,
};
use crate::text::{append_decimal, decimal};

verus! {

/// Something that the comparison reacts to. Times are nanoseconds since a
/// common origin.
#[derive(Clone, Copy, Debug, PartialEq, Eq, Structural)]
pub enum ProcessorEvent {
    /// A shred has arrived.
    ShredReceived { port_id: u8, shred_id: ShredId, slot: u64, timestamp: u128 },
    /// Old arrivals are to be forgotten.
    Cleanup { now: u128 },
    /// The statistics are to be reported.
    StatsTick,
}

/// What is left to do after an event.
#[derive(Clone, Copy, Debug, PartialEq, Eq, Structural)]
pub enum Action {
    /// Wait for the next event.
    Continue,
    /// Report the statistics, and wait for the next event.
    Report,
    /// Save the statistics, and stop.
    SaveAndStop,
}

/// The comparison with a slot counted as seen.
pub open spec fn with_slot_seen(v: ProcessorView, slot: u64) -> ProcessorView {
    ProcessorView { seen_slots: v.seen_slots.insert(slot), ..v }
}

/// A shred of this slot ends the comparison: the slot is new, and with it as
/// many slots have been seen as the limit says. A limit of zero is none.
pub open spec fn ends_at(v: ProcessorView, slot: u64, max_slots: u64) -> bool {
    &&& !v.seen_slots.contains(slot)
    &&& max_slots > 0
    &&& v.seen_slots.insert(slot).len() >= (max_slots as usize)
}

/// The comparison after an event, and what is left to do.
pub open spec fn after_event(
    v: ProcessorView,
    max_slots: u64,
    timeout_secs: u64,
    event: ProcessorEvent,
) -> (ProcessorView, Action) {
    match event {
        ProcessorEvent::ShredReceived { port_id, shred_id, slot, timestamp } => {
            if ends_at(v, slot, max_slots) {
                (with_slot_seen(v, slot), Action::SaveAndStop)
            } else {
                (
                    processed(with_slot_seen(v, slot), port_id, shred_id, slot, timestamp),
                    Action::Continue,
                )
            }
        },
        ProcessorEvent::Cleanup { now } => {
            (cleaned(v, now, (timeout_secs * 1_000_000_000) as u128), Action::Continue)
        },
        ProcessorEvent::StatsTick => (v, Action::Report),
    }
}

/// An event that can be handled.
pub open spec fn manageable(v: ProcessorView, max_slots: u64, event: ProcessorEvent) -> bool {
    event matches ProcessorEvent::ShredReceived { port_id, shred_id, slot, timestamp } ==> {
        ends_at(v, slot, max_slots) || acceptable(v, port_id, shred_id, timestamp)
    }
}

/// Whether an event can be handled.
pub fn can_handle(state: &ProcessorState, max_slots: u64, event: &ProcessorEvent) -> (r: bool)
    requires
        state.wf(),
    ensures
        r == manageable(state@, max_slots, *event),
{
    broadcast use vstd::std_specs::hash::group_hash_axioms;

    match *event {
        ProcessorEvent::ShredReceived { port_id, shred_id, slot, timestamp } => {
            if max_slots > 0 && !state.seen_slots.contains(&slot) {
                let seen: usize = state.seen_slots.len();
                let limit: usize = max_slots as usize;
                seen >= limit || seen + 1 >= limit || state.accepts(port_id, shred_id, timestamp)
            } else {
                state.accepts(port_id, shred_id, timestamp)
            }
        },
        _ => true,
    }
}

/// Handles an event.
pub fn handle_event(
    state: &mut ProcessorState,
    max_slots: u64,
    timeout_secs: u64,
    event: ProcessorEvent,
) -> (r: Action)
    requires
        old(state).wf(),
        manageable(old(state)@, max_slots, event),
    ensures
        final(state).wf(),
        (final(state)@, r) == after_event(old(state)@, max_slots, timeout_secs, event),
{
    broadcast use vstd::std_specs::hash::group_hash_axioms;

    match event {
        ProcessorEvent::ShredReceived { port_id, shred_id, slot, timestamp } => {
            let new_slot = state.seen_slots.insert(slot);
            proof {
                assert(state@ =~= with_slot_seen(old(state)@, slot));
            }
            if new_slot && max_slots > 0 && state.seen_slots.len() >= max_slots as usize {
                return Action::SaveAndStop;
            }
            process_shred(state, port_id, shred_id, slot, timestamp);
            Action::Continue
        },
        ProcessorEvent::Cleanup { now } => {
            cleanup_data(state, now, (timeout_secs as u128) * 1_000_000_000);
            Action::Continue
        },
        ProcessorEvent::StatsTick => Action::Report,
    }
}

/// The progress towards the limit of slots.
pub open spec fn progress_text(v: ProcessorView, max_slots: u64) -> Option<Seq<char>> {
    if max_slots > 0 {
        Some(
            "Processed "@ + decimal(v.seen_slots.len()) + " / "@ + decimal(max_slots as nat)
                + " slots"@,
        )
    } else {
        None
    }
}

/// The progress towards the limit of slots, where there is one.
pub fn progress(state: &ProcessorState, max_slots: u64) -> (r: Option<String>)
    requires
        state.wf(),
    ensures
        r is Some <==> progress_text(state@, max_slots) is Some,
        r matches Some(s) ==> Some(s@) == progress_text(state@, max_slots),
{
    broadcast use vstd::std_specs::hash::group_hash_axioms;

    if max_slots > 0 {
        let mut out = String::new();
        out.append("Processed ");
        append_decimal(&mut out, state.seen_slots.len() as u128);
        out.append(" / ");
        append_decimal(&mut out, max_slots as u128);
        out.append(" slots");
        assert(Some(out@) =~= progress_text(state@, max_slots));
        Some(out)
    } else {
        None
    }
}

/// One port that receives packets.
pub struct Listener {
    pub port_id: u8,
    pub name: String,
    pub has_printed_version: bool,
}

/// What a packet gives rise to.
pub struct Heard {
    /// The event to pass on.
    pub event: Option<ProcessorEvent>,
    /// A line to print.
    pub announcement: Option<String>,
}

/// The line that shows that a source is alive.
pub open spec fn announcement_text(name: Seq<char>, shred: ParsedShred) -> Seq<char> {
    "["@ + name + "] Shred version: "@ + decimal(shred.version as nat) + ", slot: "@ + decimal(
        shred.slot as nat,
    ) + ", index: "@ + decimal(shred.id.index as nat)
}

/// The event that a packet on a port gives rise to.
pub open spec fn event_of_packet(
    port_id: u8,
    parsed: Option<ParsedShred>,
    timestamp: u128,
) -> Option<ProcessorEvent> {
    match parsed {
        Some(shred) => Some(
            ProcessorEvent::ShredReceived {
                port_id,
                shred_id: shred.id,
                slot: shred.slot,
                timestamp,
            },
        ),
        None => None,
    }
}

/// A packet makes its source be announced.
pub open spec fn announces(heard_before: bool, parsed: Option<ParsedShred>) -> bool {
    parsed is Some && !heard_before
}

/// A shred has been heard after a packet.
pub open spec fn heard_after(heard_before: bool, parsed: Option<ParsedShred>) -> bool {
    heard_before || parsed is Some
}

impl Listener {
    /// A port on which nothing has been heard.
    pub fn new(port_id: u8, name: String) -> (r: Listener)
        ensures
            r.port_id == port_id,
            r.name == name,
            !r.has_printed_version,
    {
        Listener { port_id, name, has_printed_version: false }
    }

    /// Reacts to a packet, given what could be read from it. A packet that is
    /// no shred is dropped; the first shred is announced; each shred is passed
    /// on.
    pub fn on_packet(&mut self, parsed: Option<ParsedShred>, timestamp: u128) -> (r: Heard)
        ensures
            final(self).port_id == old(self).port_id,
            final(self).name == old(self).name,
            final(self).has_printed_version == (old(self).has_printed_version || parsed is Some),
            r.event == (match parsed {
                Some(shred) => Some(
                    ProcessorEvent::ShredReceived {
                        port_id: old(self).port_id,
                        shred_id: shred.id,
                        slot: shred.slot,
                        timestamp,
                    },
                ),
                None => None,
            }),
            r.event == event_of_packet(old(self).port_id, parsed, timestamp),
            r.announcement is Some <==> parsed is Some && !old(self).has_printed_version,
            r.announcement is Some <==> announces(old(self).has_printed_version, parsed),
            final(self).has_printed_version == heard_after(
                old(self).has_printed_version,
                parsed,
            ),
            r.announcement matches Some(s) ==> s@ == announcement_text(
                old(self).name@,
                parsed->0,
            ),
    {
        match parsed {
            Some(shred) => {
                let announcement = if self.has_printed_version {
                    None
                } else {
                    let mut out = String::new();
                    out.append("[");
                    out.append(self.name.as_str());
                    out.append("] Shred version: ");
                    append_decimal(&mut out, shred.version as u128);
                    out.append(", slot: ");
                    append_decimal(&mut out, shred.slot as u128);
                    out.append(", index: ");
                    append_decimal(&mut out, shred.id.index as u128);
                    assert(out@ =~= announcement_text(self.name@, shred));
                    Some(out)
                };
                self.has_printed_version = true;
                let event = ProcessorEvent::ShredReceived {
                    port_id: self.port_id,
                    shred_id: shred.id,
                    slot: shred.slot,
                    timestamp,
                };
                Heard { event: Some(event), announcement }
            },
            None => Heard { event: None, announcement: None },
        }
    }
}

} // verus!
