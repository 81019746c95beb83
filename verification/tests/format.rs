use shred_perf::format::format_nanos;

/// The text that binary64 division and the standard formatter give.
fn by_floats(nanos: i64) -> String {
    let abs_nanos = nanos.abs() as f64;
    let sign = if nanos < 0 { "-" } else { "" };
    if abs_nanos >= 1_000_000.0 {
        format!("{}{:.6}ms", sign, abs_nanos / 1_000_000.0)
    } else if abs_nanos >= 1_000.0 {
        format!("{}{:.3}\u{b5}s", sign, abs_nanos / 1_000.0)
    } else {
        format!("{}{}ns", sign, nanos)
    }
}

#[test]
fn nanoseconds() {
    assert_eq!(format_nanos(0), "0ns");
    assert_eq!(format_nanos(7), "7ns");
    assert_eq!(format_nanos(999), "999ns");
}

#[test]
fn negative_nanoseconds_show_two_signs() {
    assert_eq!(format_nanos(-5), "--5ns");
    assert_eq!(format_nanos(-999), "--999ns");
}

#[test]
fn microseconds() {
    assert_eq!(format_nanos(1_000), "1.000\u{b5}s");
    assert_eq!(format_nanos(96_732), "96.732\u{b5}s");
    assert_eq!(format_nanos(999_999), "999.999\u{b5}s");
    assert_eq!(format_nanos(-1_050), "-1.050\u{b5}s");
}

#[test]
fn milliseconds() {
    assert_eq!(format_nanos(1_000_000), "1.000000ms");
    assert_eq!(format_nanos(1_650_741), "1.650741ms");
    assert_eq!(format_nanos(-1_650_741), "-1.650741ms");
    assert_eq!(format_nanos(-60_000_000_001), "-60000.000001ms");
}

#[test]
fn exact_below_two_to_the_33_milliseconds() {
    assert_eq!(format_nanos(8_589_934_591_999_999), "8589934591.999999ms");
}

#[test]
fn longest_durations_show_binary64_rounding() {
    assert_eq!(format_nanos(i64::MAX), "9223372036854.775391ms");
    assert_eq!(format_nanos(-i64::MAX), "-9223372036854.775391ms");
    assert_eq!(format_nanos(9_007_199_254_740_993), "9007199254.740992ms");
}

#[test]
fn agrees_with_the_standard_formatter() {
    let mut x: u64 = 0x9e37_79b9_7f4a_7c15;
    for i in 0..20_000u32 {
        x ^= x << 13;
        x ^= x >> 7;
        x ^= x << 17;
        let n = (x >> 1 >> (i % 63)) as i64;
        assert_eq!(format_nanos(n), by_floats(n));
        assert_eq!(format_nanos(-n), by_floats(-n));
    }
}
