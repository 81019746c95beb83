use shred_perf::percentiles::{
    calculate_percentiles_f64, calculate_percentiles_i64, fraction_index, percentile_index,
};

#[test]
fn no_samples_give_zeros() {
    assert_eq!(calculate_percentiles_i64(&[]), [0; 10]);
}

#[test]
fn one_sample_stands_everywhere() {
    assert_eq!(calculate_percentiles_i64(&[42]), [42; 10]);
}

#[test]
fn hundred_and_one_samples() {
    let data: Vec<i64> = (0..=100).rev().collect();
    assert_eq!(
        calculate_percentiles_i64(&data),
        [1, 5, 10, 25, 50, 75, 80, 90, 95, 99]
    );
}

#[test]
fn few_samples_round_half_up() {
    // Positions 0.03, 0.15, 0.3, 0.75, 1.5, 2.25, 2.4, 2.7, 2.85, 2.97.
    assert_eq!(
        calculate_percentiles_i64(&[30, -10, 20, 10]),
        [-10, -10, -10, 10, 20, 20, 20, 30, 30, 30]
    );
}

#[test]
fn order_of_the_samples_does_not_matter() {
    let a = [5, -3, 9, 0, 0, 7, i64::MIN, i64::MAX];
    let b = [0, i64::MAX, 7, 9, i64::MIN, 0, 5, -3];
    assert_eq!(calculate_percentiles_i64(&a), calculate_percentiles_i64(&b));
}

#[test]
fn summary_of_no_samples_is_absent() {
    assert!(calculate_percentiles_f64(&[]).is_none());
}

#[test]
fn summary_positions() {
    let data: Vec<i64> = (0..=100).rev().collect();
    let p = calculate_percentiles_f64(&data).unwrap();
    assert_eq!((p.p50, p.p90, p.p99), (50, 90, 99));
    // Positions 2.5, 4.5 and 4.95 of the last position 5.
    let p = calculate_percentiles_f64(&[0, 1, 2, 3, 4, 5]).unwrap();
    assert_eq!((p.p50, p.p90, p.p99), (3, 5, 5));
}

#[test]
fn positions_agree_with_binary64() {
    let mut lens: Vec<usize> = (1..3_000).collect();
    let mut x: u64 = 0x2545_f491_4f6c_dd1d;
    for i in 0..4_000u32 {
        x ^= x << 13;
        x ^= x >> 7;
        x ^= x << 17;
        lens.push(((x >> (i % 62)) as usize) | 1);
    }
    lens.push(usize::MAX);
    for len in lens {
        for p in [1u64, 5, 10, 25, 50, 75, 80, 90, 95, 99] {
            let index = ((len - 1) as f64 * p as f64 / 100.0).round() as usize;
            assert_eq!(percentile_index(len, p), index.min(len - 1));
        }
        for (f, num, den) in [(0.5, 1, 2), (0.9, 9, 10), (0.99, 99, 100)] {
            let index = ((len - 1) as f64 * f).round() as usize;
            assert_eq!(fraction_index(len, num, den), index.min(len - 1));
        }
    }
}

#[test]
fn percentiles_ascend_and_are_samples() {
    let data: Vec<i64> = (0..777).map(|i: i64| (i * 7919) % 1009 - 500).collect();
    let p = calculate_percentiles_i64(&data);
    for k in 0..9 {
        assert!(p[k] <= p[k + 1]);
    }
    assert!(p.iter().all(|x| data.contains(x)));
    let q = calculate_percentiles_f64(&data).unwrap();
    assert!(q.p50 <= q.p90 && q.p90 <= q.p99);
    assert_eq!((q.p50, q.p90, q.p99), (p[4], p[7], p[9]));
}

#[test]
fn positions_are_plain_ranks() {
    for len in 1..2_000usize {
        assert_eq!(percentile_index(len, 1), (len - 1 + 50) / 100);
        assert_eq!(percentile_index(len, 95), ((len - 1) * 95 + 50) / 100);
        assert_eq!(fraction_index(len, 1, 2), len / 2);
        assert_eq!(fraction_index(len, 9, 10), (9 * (len - 1) + 5) / 10);
        assert_eq!(fraction_index(len, 99, 100), (99 * (len - 1) + 50) / 100);
    }
}
