use shred_perf::report::{
    can_report, full_report, loss_line, loss_summary, report_stats, LossSummary,
};
use shred_perf::shred::{ShredId, ShredType};
use shred_perf::state::{process_shred, ProcessorState, SlotInfo};
use shred_perf::stats::{collect_stats, slot_stats};

fn id(slot: u64, index: u32) -> ShredId {
    ShredId {
        slot,
        index,
        shred_type: ShredType::Data,
    }
}

/// Takes in both copies of a shred, the earlier one first.
fn pair(state: &mut ProcessorState, shred: ShredId, time0: u128, time1: u128) {
    if time0 <= time1 {
        process_shred(state, 0, shred, shred.slot, time0);
        process_shred(state, 1, shred, shred.slot, time1);
    } else {
        process_shred(state, 1, shred, shred.slot, time1);
        process_shred(state, 0, shred, shred.slot, time0);
    }
}

#[test]
fn an_empty_report() {
    let state = ProcessorState::new();
    assert!(can_report(&state));
    assert_eq!(
        report_stats(&state, "A", "B"),
        [
            "First seen shred in 1min",
            "",
            "{From:A, Nums:0, Percent:0.0%}, {From:others, Nums:0, Percent:0.0%}, {From:B, Nums:0, Percent:0.0%}",
        ]
    );
}

#[test]
fn a_full_report() {
    let mut state = ProcessorState::new();
    pair(&mut state, id(1, 0), 1_000, 1_500);
    pair(&mut state, id(1, 1), 2_000, 2_002_000);
    pair(&mut state, id(1, 2), 9_000, 3_000);
    assert_eq!(
        report_stats(&state, "A", "B"),
        [
            "First seen shred in 1min",
            "",
            "{From:A, Nums:2, Percent:66.7%}, {From:others, Nums:0, Percent:0.0%}, {From:B, Nums:1, Percent:33.3%}",
            "A-led shred lead time (n=2) against B: P1=500ns, P5=500ns, P10=500ns, P25=500ns, P50=2.000000ms, P75=2.000000ms, P80=2.000000ms, P90=2.000000ms, P95=2.000000ms, P99=2.000000ms",
            "A-diff shred diff time (n=3) against B: P1=-2.000000ms, P5=-2.000000ms, P10=-2.000000ms, P25=--500ns, P50=--500ns, P75=6.000\u{b5}s, P80=6.000\u{b5}s, P90=6.000\u{b5}s, P95=6.000\u{b5}s, P99=6.000\u{b5}s",
        ]
    );
}

#[test]
fn percentages_agree_with_binary64() {
    for total in [1usize, 3, 7, 1000, 2000, 141_991, 1 << 40, (1 << 62) + 1] {
        for part in [0usize, 1, 3, 5, 333, 999, 25_607, 1 << 39, 1 << 61] {
            if part > total {
                continue;
            }
            let mut state = ProcessorState::new();
            state.first_seen_port0 = part;
            state.first_seen_port1 = total - part;
            let line = report_stats(&state, "A", "B").remove(2);
            let percent = |n: usize| (n as f64 / total as f64) * 100.0;
            assert_eq!(
                line,
                format!(
                    "{{From:A, Nums:{}, Percent:{:.1}%}}, {{From:others, Nums:0, Percent:0.0%}}, {{From:B, Nums:{}, Percent:{:.1}%}}",
                    part,
                    percent(part),
                    total - part,
                    percent(total - part)
                )
            );
        }
    }
}

#[test]
fn a_share_that_rounds_down_in_binary64() {
    let mut state = ProcessorState::new();
    state.first_seen_port0 = 3;
    state.first_seen_port1 = 1_997;
    let line = report_stats(&state, "A", "B").remove(2);
    assert!(line.starts_with("{From:A, Nums:3, Percent:0.1%}"));
}

#[test]
fn what_cannot_be_reported() {
    let mut state = ProcessorState::new();
    state.first_seen_port0 = usize::MAX;
    assert!(can_report(&state));
    state.first_seen_port1 = 1;
    assert!(!can_report(&state));
    let mut state = ProcessorState::new();
    process_shred(&mut state, 1, id(1, 0), 1, 0);
    process_shred(&mut state, 0, id(1, 0), 1, 1 << 63);
    assert_eq!(state.all_diffs_ns, [i64::MIN]);
    assert!(!can_report(&state));
}

#[test]
fn losses_of_both_sources() {
    let mut state = ProcessorState::new();
    pair(&mut state, id(1, 0), 1_000, 2_000);
    pair(&mut state, id(1, 1), 1_000, 4_000);
    pair(&mut state, id(1, 2), 1_000, 3_000);
    pair(&mut state, id(1, 3), 97_732, 1_000);
    pair(&mut state, id(1, 4), 1_000, 1_000);
    process_shred(&mut state, 0, id(1, 5), 1, 1_000);
    let summary = loss_summary(&state);
    assert_eq!(
        summary,
        LossSummary {
            port0_shreds: 6,
            port1_shreds: 5,
            matched_pairs: 5,
            port0_losses: 1,
            port1_losses: 3,
            port0_median_delay: Some(96_732),
            port1_median_delay: Some(2_000),
        }
    );
    assert_eq!(
        loss_line(&summary, "Shreder", "20", "Source2", "60"),
        "Port Shreder: 6 | Port Source2: 5 | Matched: 5 | Shreder loses in 20% with median delay : 96.732\u{b5}s AND Source2 loses in 60% with median delay: 2.000\u{b5}s"
    );
}

#[test]
fn the_losses_follow_the_statistics() {
    let mut state = ProcessorState::new();
    pair(&mut state, id(1, 0), 1_000, 1_500);
    pair(&mut state, id(1, 1), 2_000, 2_002_000);
    pair(&mut state, id(1, 2), 9_000, 3_000);
    process_shred(&mut state, 1, id(1, 3), 1, 4_000);
    let mut expected = report_stats(&state, "A", "B");
    assert_eq!(expected.len(), 5);
    expected.push(
        "Port A: 3 | Port B: 4 | Matched: 3 | A loses in 33% with median delay : 6.000\u{b5}s AND B loses in 67% with median delay: 2.000000ms"
            .to_string(),
    );
    assert_eq!(full_report(&state, "A", "33", "B", "67"), expected);
}

#[test]
fn without_a_pair_nothing_is_lost() {
    let mut state = ProcessorState::new();
    assert_eq!(
        full_report(&state, "A", "0", "B", "0"),
        report_stats(&state, "A", "B")
    );
    process_shred(&mut state, 0, id(1, 0), 1, 1_000);
    process_shred(&mut state, 1, id(1, 1), 1, 1_000);
    let lines = full_report(&state, "A", "0", "B", "0");
    assert_eq!(lines, report_stats(&state, "A", "B"));
    assert_eq!(lines.len(), 3);
}

#[test]
fn a_tie_is_a_pair_that_nobody_loses() {
    let mut state = ProcessorState::new();
    pair(&mut state, id(1, 0), 1_000, 1_000);
    let lines = full_report(&state, "A", "0", "B", "0");
    assert_eq!(
        lines[lines.len() - 1],
        "Port A: 1 | Port B: 1 | Matched: 1 | A loses in 0% with median delay : n/a AND B loses in 0% with median delay: n/a"
    );
}

#[test]
fn no_share_is_above_a_hundred_percent() {
    let tenths = |part: usize, rest: usize| -> u64 {
        let mut state = ProcessorState::new();
        state.first_seen_port0 = part;
        state.first_seen_port1 = rest;
        let line = report_stats(&state, "A", "B").remove(2);
        let text = line.split("Percent:").nth(1).unwrap();
        let digits: String = text.chars().take_while(|c| *c != '%').collect();
        digits.replace('.', "").parse().unwrap()
    };
    for total in [1usize, 3, 49, 1000, (1 << 53) + 1, (1 << 62) + 1, usize::MAX] {
        assert_eq!(tenths(total, 0), 1000);
        assert_eq!(tenths(0, total), 0);
        let mut last = 0;
        for part in [total / 3, total / 2, total - 1, total] {
            let share = tenths(part, total - part);
            assert!(last <= share && share <= 1000);
            last = share;
        }
    }
}

#[test]
fn the_line_of_a_long_run() {
    let summary = LossSummary {
        port0_shreds: 141997,
        port1_shreds: 141995,
        matched_pairs: 141991,
        port0_losses: 0,
        port1_losses: 0,
        port0_median_delay: Some(96_732),
        port1_median_delay: Some(1_650_741),
    };
    assert_eq!(
        loss_line(
            &summary,
            "Shreder",
            "18.03466416885578",
            "Source2",
            "81.96533583114423"
        ),
        "Port Shreder: 141997 | Port Source2: 141995 | Matched: 141991 | Shreder loses in 18.03466416885578% with median delay : 96.732\u{b5}s AND Source2 loses in 81.96533583114423% with median delay: 1.650741ms"
    );
}

#[test]
fn no_losses_have_no_median() {
    let mut state = ProcessorState::new();
    pair(&mut state, id(1, 0), 1_000, 2_000);
    let summary = loss_summary(&state);
    assert_eq!(summary.port0_losses, 0);
    assert!(summary.port0_median_delay.is_none());
    assert!(loss_line(&summary, "A", "0", "B", "100")
        .contains("A loses in 0% with median delay : n/a AND B"));
}

#[test]
fn delays_of_a_slot_on_both_sources() {
    let mut state = ProcessorState::new();
    process_shred(&mut state, 0, id(4, 0), 4, 1_000);
    process_shred(&mut state, 1, id(4, 0), 4, 1_700);
    process_shred(&mut state, 1, id(4, 1), 4, 2_700);
    process_shred(&mut state, 0, id(4, 1), 4, 5_000);
    let entry = slot_stats(4, &state.slot_data[&4], 99_000);
    assert_eq!(entry.slot, 4);
    assert_eq!(entry.endpoint1.first_shred_delay_ns, 0);
    assert_eq!(entry.endpoint2.first_shred_delay_ns, 700);
    assert_eq!(entry.endpoint1.processing_delay_ns, 4_000);
    assert_eq!(entry.endpoint2.processing_delay_ns, 1_000);
}

#[test]
fn delays_of_a_slot_on_one_source() {
    let mut state = ProcessorState::new();
    process_shred(&mut state, 1, id(4, 0), 4, 1_700);
    let entry = slot_stats(4, &state.slot_data[&4], 2_000);
    assert_eq!(entry.endpoint1.first_shred_delay_ns, 300);
    assert_eq!(entry.endpoint2.first_shred_delay_ns, 0);
    assert_eq!(entry.endpoint1.processing_delay_ns, 0);
    assert_eq!(entry.endpoint2.processing_delay_ns, 0);
    let entry = slot_stats(4, &state.slot_data[&4], 1_000);
    assert_eq!(entry.endpoint1.first_shred_delay_ns, 0);
}

#[test]
fn delays_of_an_empty_slot() {
    let entry = slot_stats(4, &SlotInfo::new(), 2_000);
    assert_eq!(entry.endpoint1.first_shred_delay_ns, 0);
    assert_eq!(entry.endpoint2.first_shred_delay_ns, 0);
    assert_eq!(entry.endpoint1.processing_delay_ns, 0);
    assert_eq!(entry.endpoint2.processing_delay_ns, 0);
}

#[test]
fn slots_are_saved_in_order() {
    let mut state = ProcessorState::new();
    for slot in [9, 3, 27, 1, 14] {
        pair(&mut state, id(slot, 0), 1_000, 1_000 + slot as u128);
    }
    let stats = collect_stats(&state, 5_000);
    let slots: Vec<u64> = stats.slots.iter().map(|s| s.slot).collect();
    assert_eq!(slots, [1, 3, 9, 14, 27]);
    assert_eq!(stats.slots[2].endpoint2.first_shred_delay_ns, 9);
    let lead = stats.endpoint1_summary.lead_time.unwrap();
    assert_eq!((lead.p50, lead.p90, lead.p99), (9, 27, 27));
    let diff = stats.endpoint1_summary.diff_time.unwrap();
    assert_eq!((diff.p50, diff.p90, diff.p99), (-9, -1, -1));
    assert!(stats.endpoint1_summary.account_delay.is_none());
    assert!(stats.endpoint2_summary.lead_time.is_none());
    assert!(stats.endpoint2_summary.diff_time.is_none());
}

#[test]
fn nothing_to_save() {
    let stats = collect_stats(&ProcessorState::new(), 0);
    assert!(stats.slots.is_empty());
    assert!(stats.endpoint1_summary.lead_time.is_none());
    assert!(stats.endpoint1_summary.diff_time.is_none());
}
