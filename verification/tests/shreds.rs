use shred_perf::processor::{
    can_handle, handle_event, progress, Action, Listener, ProcessorEvent,
};
use shred_perf::shred::{ParsedShred, ShredId, ShredType};
use shred_perf::state::{cleanup_data, process_shred, ProcessorState};

fn data(slot: u64, index: u32) -> ShredId {
    ShredId {
        slot,
        index,
        shred_type: ShredType::Data,
    }
}

fn code(slot: u64, index: u32) -> ShredId {
    ShredId {
        slot,
        index,
        shred_type: ShredType::Code,
    }
}

fn received(port_id: u8, shred_id: ShredId, timestamp: u128) -> ProcessorEvent {
    ProcessorEvent::ShredReceived {
        port_id,
        shred_id,
        slot: shred_id.slot,
        timestamp,
    }
}

#[test]
fn keys_tell_shreds_apart() {
    assert_eq!(data(0, 0).key(), 0);
    assert_eq!(code(0, 0).key(), 1);
    assert_eq!(data(0, 1).key(), 2);
    assert_eq!(data(1, 0).key(), 1 << 33);
    assert_eq!(code(u64::MAX, u32::MAX).key(), (1 << 97) - 1);
}

#[test]
fn a_new_state_is_empty() {
    let state = ProcessorState::new();
    assert_eq!(state.port0_data.len(), 0);
    assert_eq!(state.port1_data.len(), 0);
    assert_eq!(state.matched_pairs, 0);
    assert!(state.slot_data.is_empty());
    assert!(state.seen_slots.is_empty());
}

#[test]
fn port0_leads() {
    let mut state = ProcessorState::new();
    process_shred(&mut state, 0, data(7, 1), 7, 1_000);
    assert_eq!((state.first_seen_port0, state.first_seen_port1), (1, 0));
    assert_eq!(state.matched_pairs, 0);
    process_shred(&mut state, 1, data(7, 1), 7, 1_250);
    assert_eq!((state.first_seen_port0, state.first_seen_port1), (1, 0));
    assert_eq!(state.matched_pairs, 1);
    assert_eq!(state.all_diffs_ns, [-250]);
    assert_eq!(state.lead_times_ns, [250]);
}

#[test]
fn port1_leads() {
    let mut state = ProcessorState::new();
    process_shred(&mut state, 1, data(7, 1), 7, 1_000);
    process_shred(&mut state, 0, data(7, 1), 7, 1_250);
    assert_eq!((state.first_seen_port0, state.first_seen_port1), (0, 1));
    assert_eq!(state.matched_pairs, 1);
    assert_eq!(state.all_diffs_ns, [250]);
    assert!(state.lead_times_ns.is_empty());
}

#[test]
fn equal_times_are_no_lead() {
    let mut state = ProcessorState::new();
    process_shred(&mut state, 0, data(7, 1), 7, 1_000);
    process_shred(&mut state, 1, data(7, 1), 7, 1_000);
    assert_eq!(state.all_diffs_ns, [0]);
    assert!(state.lead_times_ns.is_empty());
}

#[test]
fn the_earlier_time_leads_not_the_earlier_event() {
    let mut state = ProcessorState::new();
    process_shred(&mut state, 1, data(7, 1), 7, 2_000);
    process_shred(&mut state, 0, data(7, 1), 7, 1_500);
    assert_eq!(state.first_seen_port1, 1);
    assert_eq!(state.all_diffs_ns, [-500]);
    assert_eq!(state.lead_times_ns, [500]);
    let mut state = ProcessorState::new();
    process_shred(&mut state, 0, data(7, 1), 7, 2_000);
    process_shred(&mut state, 1, data(7, 1), 7, 1_500);
    assert_eq!(state.all_diffs_ns, [500]);
    assert!(state.lead_times_ns.is_empty());
}

#[test]
fn long_spans_keep_their_low_bits() {
    let mut state = ProcessorState::new();
    process_shred(&mut state, 1, data(7, 1), 7, 0);
    process_shred(&mut state, 0, data(7, 1), 7, (1u128 << 64) + 5);
    assert_eq!(state.all_diffs_ns, [5]);
    process_shred(&mut state, 0, data(7, 2), 7, 0);
    process_shred(&mut state, 1, data(7, 2), 7, (1u128 << 64) - 3);
    assert_eq!(state.all_diffs_ns, [5, 3]);
    assert_eq!(state.lead_times_ns, [-3]);
}

#[test]
fn what_cannot_be_taken_in() {
    let mut state = ProcessorState::new();
    assert!(!state.accepts(2, data(7, 1), 0));
    assert!(state.accepts(1, data(7, 1), 0));
    process_shred(&mut state, 0, data(7, 1), 7, 0);
    assert!(!state.accepts(1, data(7, 1), 1 << 63));
    assert!(state.accepts(1, data(7, 1), (1 << 63) + 1));
    assert!(state.accepts(0, data(7, 1), 1 << 63));
    state.first_seen_port1 = usize::MAX;
    assert!(!state.accepts(1, data(7, 2), 0));
    assert!(state.accepts(0, data(7, 2), 0));
    state.first_seen_port0 = usize::MAX;
    assert!(!state.accepts(0, data(7, 2), 0));
}

#[test]
fn duplicates_only_lengthen_the_record_of_the_slot() {
    let mut state = ProcessorState::new();
    process_shred(&mut state, 0, data(7, 1), 7, 1_000);
    process_shred(&mut state, 1, data(7, 1), 7, 1_100);
    process_shred(&mut state, 0, data(7, 1), 7, 5_000);
    process_shred(&mut state, 1, data(7, 1), 7, 6_000);
    assert_eq!((state.first_seen_port0, state.first_seen_port1), (1, 0));
    assert_eq!(state.matched_pairs, 1);
    assert_eq!(state.all_diffs_ns, [-100]);
    assert_eq!(state.port0_data.get(&data(7, 1)), Some(1_000));
    let info = &state.slot_data[&7];
    assert_eq!(info.port0_first_shred_time, Some(1_000));
    assert_eq!(info.port1_first_shred_time, Some(1_100));
    assert_eq!(info.port0_shreds, [(data(7, 1), 1_000), (data(7, 1), 5_000)]);
    assert_eq!(info.port1_shreds, [(data(7, 1), 1_100), (data(7, 1), 6_000)]);
}

#[test]
fn data_and_code_shreds_do_not_match() {
    let mut state = ProcessorState::new();
    process_shred(&mut state, 0, data(7, 1), 7, 1_000);
    process_shred(&mut state, 1, code(7, 1), 7, 1_100);
    assert_eq!((state.first_seen_port0, state.first_seen_port1), (1, 1));
    assert_eq!(state.matched_pairs, 0);
}

#[test]
fn counts_agree_without_cleanup() {
    let mut state = ProcessorState::new();
    for i in 0..50u32 {
        if i % 3 != 0 {
            process_shred(&mut state, 0, data(9, i), 9, 100 * i as u128);
        }
        if i % 2 == 0 {
            process_shred(&mut state, 1, data(9, i), 9, 100 * i as u128 + 7);
        }
    }
    let both = (0..50).filter(|i| i % 3 != 0 && i % 2 == 0).count();
    let any = (0..50).filter(|i| i % 3 != 0 || i % 2 == 0).count();
    assert_eq!(state.matched_pairs, both);
    assert_eq!(state.first_seen_port0 + state.first_seen_port1, any);
}

#[test]
fn cleanup_forgets_what_is_old() {
    let mut state = ProcessorState::new();
    process_shred(&mut state, 0, data(7, 1), 7, 1_000);
    process_shred(&mut state, 0, data(7, 2), 7, 1_001);
    process_shred(&mut state, 1, data(7, 3), 7, 9_000);
    cleanup_data(&mut state, 2_000, 1_000);
    assert!(!state.port0_data.contains(&data(7, 1)));
    assert!(state.port0_data.contains(&data(7, 2)));
    // A time ahead of the clock has no age.
    assert!(state.port1_data.contains(&data(7, 3)));
    assert_eq!(state.first_seen_port0, 2);
    assert_eq!(state.slot_data[&7].port0_shreds.len(), 2);
    cleanup_data(&mut state, 2_000, 1_000);
    assert_eq!(state.port0_data.len(), 1);
    cleanup_data(&mut state, 0, 0);
    assert_eq!((state.port0_data.len(), state.port1_data.len()), (0, 0));
}

#[test]
fn a_forgotten_partner_makes_no_pair() {
    let mut state = ProcessorState::new();
    process_shred(&mut state, 0, data(7, 1), 7, 1_000);
    cleanup_data(&mut state, 10_000, 1_000);
    process_shred(&mut state, 1, data(7, 1), 7, 11_000);
    assert_eq!((state.first_seen_port0, state.first_seen_port1), (1, 1));
    assert_eq!(state.matched_pairs, 0);
}

#[test]
fn the_limit_ends_the_run_before_its_last_slot_is_recorded() {
    let mut state = ProcessorState::new();
    for (slot, time) in [(5, 10), (5, 20), (6, 30)] {
        let event = received(0, data(slot, time), time as u128);
        assert!(can_handle(&state, 3, &event));
        assert_eq!(handle_event(&mut state, 3, 120, event), Action::Continue);
    }
    let last = received(0, data(8, 0), 40);
    assert_eq!(handle_event(&mut state, 3, 120, last), Action::SaveAndStop);
    assert_eq!(state.seen_slots.len(), 3);
    assert_eq!(state.slot_data.len(), 2);
    assert!(!state.slot_data.contains_key(&8));
    assert_eq!(state.first_seen_port0, 3);
}

#[test]
fn the_first_shred_ends_a_run_of_one_slot() {
    let mut state = ProcessorState::new();
    let event = received(5, data(8, 0), 40);
    assert!(can_handle(&state, 1, &event));
    assert_eq!(handle_event(&mut state, 1, 120, event), Action::SaveAndStop);
}

#[test]
fn no_limit_means_no_end() {
    let mut state = ProcessorState::new();
    for slot in 0..100u64 {
        let event = received(1, data(slot, 0), slot as u128);
        assert_eq!(handle_event(&mut state, 0, 120, event), Action::Continue);
    }
    assert_eq!(state.seen_slots.len(), 100);
    assert_eq!(state.slot_data.len(), 100);
}

#[test]
fn an_unknown_port_cannot_be_handled() {
    let state = ProcessorState::new();
    assert!(!can_handle(&state, 0, &received(2, data(1, 0), 0)));
    assert!(can_handle(&state, 0, &ProcessorEvent::StatsTick));
    assert!(can_handle(&state, 0, &ProcessorEvent::Cleanup { now: 0 }));
}

#[test]
fn the_timeout_is_in_seconds() {
    let mut state = ProcessorState::new();
    handle_event(&mut state, 0, 2, received(0, data(1, 0), 1));
    let early = ProcessorEvent::Cleanup { now: 2_000_000_000 };
    assert_eq!(handle_event(&mut state, 0, 2, early), Action::Continue);
    assert_eq!(state.port0_data.len(), 1);
    let late = ProcessorEvent::Cleanup { now: 2_000_000_001 };
    assert_eq!(handle_event(&mut state, 0, 2, late), Action::Continue);
    assert_eq!(state.port0_data.len(), 0);
    assert_eq!(
        handle_event(&mut state, 0, 2, ProcessorEvent::StatsTick),
        Action::Report
    );
}

#[test]
fn progress_towards_the_limit() {
    let mut state = ProcessorState::new();
    handle_event(&mut state, 1000, 120, received(0, data(1, 0), 1));
    assert_eq!(progress(&state, 1000).unwrap(), "Processed 1 / 1000 slots");
    assert!(progress(&state, 0).is_none());
}

#[test]
fn a_listener_announces_its_first_shred() {
    let mut listener = Listener::new(1, "Source2".to_string());
    let shred = ParsedShred {
        id: data(250, 31),
        slot: 250,
        version: 50093,
    };
    let heard = listener.on_packet(None, 5);
    assert!(heard.event.is_none() && heard.announcement.is_none());
    let heard = listener.on_packet(Some(shred), 6);
    assert_eq!(heard.event, Some(received(1, data(250, 31), 6)));
    assert_eq!(
        heard.announcement.unwrap(),
        "[Source2] Shred version: 50093, slot: 250, index: 31"
    );
    let heard = listener.on_packet(Some(shred), 7);
    assert_eq!(heard.event, Some(received(1, data(250, 31), 7)));
    assert!(heard.announcement.is_none());
}

/// A generator of well mixed numbers.
fn mix(x: &mut u64) -> u64 {
    *x ^= *x << 13;
    *x ^= *x >> 7;
    *x ^= *x << 17;
    *x
}

#[test]
fn leads_are_the_losses_of_port1_in_any_order_of_times() {
    let mut state = ProcessorState::new();
    let mut x: u64 = 88172645463325252;
    let mut now: u128 = 0;
    for _ in 0..5_000 {
        now += (mix(&mut x) % 3) as u128;
        let time = now + (mix(&mut x) % 60) as u128;
        let port_id = (mix(&mut x) % 2) as u8;
        let shred = data(mix(&mut x) % 20, (mix(&mut x) % 50) as u32);
        handle_event(&mut state, 0, 1, received(port_id, shred, time));
        if mix(&mut x) % 100 == 0 {
            cleanup_data(&mut state, now, 400);
        }
        assert!(
            state.port0_data.len() + state.port1_data.len()
                <= state.first_seen_port0 + state.first_seen_port1 + state.matched_pairs
        );
    }
    let losses: Vec<i64> = state
        .all_diffs_ns
        .iter()
        .filter(|d| **d < 0)
        .map(|d| -d)
        .collect();
    assert!(losses.len() > 100);
    assert_eq!(state.lead_times_ns, losses);
    assert_eq!(state.matched_pairs, state.all_diffs_ns.len());
}

#[test]
fn both_orders_give_one_difference() {
    let mut a = ProcessorState::new();
    process_shred(&mut a, 0, data(7, 1), 7, 400);
    process_shred(&mut a, 1, data(7, 1), 7, 900);
    let mut b = ProcessorState::new();
    process_shred(&mut b, 1, data(7, 1), 7, 900);
    process_shred(&mut b, 0, data(7, 1), 7, 400);
    assert_eq!(a.all_diffs_ns, [-500]);
    assert_eq!(b.all_diffs_ns, [-500]);
    assert_eq!(a.lead_times_ns, [500]);
    assert_eq!(b.lead_times_ns, [500]);
    assert_eq!(a.slot_data[&7].port0_shreds.len(), 1);
    assert_eq!(
        a.slot_data[&7].port0_first_shred_time,
        b.slot_data[&7].port0_first_shred_time
    );
    assert_eq!(
        a.slot_data[&7].port1_first_shred_time,
        b.slot_data[&7].port1_first_shred_time
    );
    assert_eq!((a.first_seen_port0, a.first_seen_port1), (1, 0));
    assert_eq!((b.first_seen_port0, b.first_seen_port1), (0, 1));
}

#[test]
fn other_slots_and_shreds_stay() {
    let mut state = ProcessorState::new();
    process_shred(&mut state, 0, data(7, 1), 7, 400);
    process_shred(&mut state, 1, data(8, 1), 8, 500);
    assert_eq!(state.port0_data.get(&data(7, 1)), Some(400));
    assert_eq!(state.port0_data.get(&data(8, 1)), None);
    assert_eq!(state.port1_data.get(&data(8, 1)), Some(500));
    assert_eq!(state.slot_data[&7].port0_shreds.len(), 1);
    assert!(state.slot_data[&7].port1_shreds.is_empty());
}

#[test]
fn cleaning_early_does_not_change_a_later_cleaning() {
    let mut once = ProcessorState::new();
    let mut twice = ProcessorState::new();
    for i in 0..100u32 {
        process_shred(&mut once, 0, data(1, i), 1, 10 * i as u128);
        process_shred(&mut twice, 0, data(1, i), 1, 10 * i as u128);
    }
    cleanup_data(&mut twice, 700, 500);
    cleanup_data(&mut twice, 1_200, 500);
    cleanup_data(&mut once, 1_200, 500);
    for i in 0..100u32 {
        assert_eq!(once.port0_data.get(&data(1, i)), twice.port0_data.get(&data(1, i)));
    }
    assert_eq!(once.port0_data.len(), 29);
}
