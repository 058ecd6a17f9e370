use hdrhist::{Histogram, Percentile};

fn pct(numerator: u64, denominator: u64) -> Percentile {
    Percentile { numerator, denominator }
}

#[test]
fn test_record_values_accumulate() {
    let mut h = Histogram::new(1, 1000000, 2).unwrap();

    h.record_value(1);
    h.record_value(10);
    h.record_values(100, 40);

    assert_eq!(h.total_count(), 42);
    assert_eq!(h.min(), 1);
    assert_eq!(h.max(), 100);
    assert_eq!(h.count_at_value(100), 40);
    assert_eq!(h.count_at_value(10), 1);
}

#[test]
fn test_in_range_recording_increments_exact_counter() {
    let mut h = Histogram::new(1, 3600000000, 3).unwrap();

    assert!(h.record_value(2500));
    assert_eq!(h.count_at_value(2500), 1);
    assert!(h.record_values(2500, 9));
    assert_eq!(h.count_at_value(2500), 10);
    // a value of the same equivalence range lands in the same counter
    assert!(h.record_value(2501));
    assert_eq!(h.count_at_value(2500), 11);
}

#[test]
fn test_out_of_range_recording_changes_nothing() {
    let mut h = Histogram::new(1, 1000, 1).unwrap();

    h.record_value(500);
    assert!(!h.record_value(1001));
    assert!(!h.record_values(5000, 7));
    assert_eq!(h.total_count(), 1);
    assert_eq!(h.count_at_value(500), 1);
    assert!(h.values_are_equivalent(h.max(), 500));
}

#[test]
fn test_equivalence_ranges() {
    let h = Histogram::new(1, 3600000000, 3).unwrap();

    assert_eq!(h.size_of_equivalent_value_range(1), 1);
    assert_eq!(h.size_of_equivalent_value_range(2500), 2);
    assert_eq!(h.size_of_equivalent_value_range(8191), 4);
    assert_eq!(h.size_of_equivalent_value_range(8192), 8);
    assert_eq!(h.size_of_equivalent_value_range(10000), 8);

    assert_eq!(h.lowest_equivalent_value(10007), 10000);
    assert_eq!(h.lowest_equivalent_value(10009), 10008);
    assert_eq!(h.highest_equivalent_value(10000), 10007);
    assert_eq!(h.median_equivalent_value(10000), 10004);

    // the range brackets the value and shares its counter
    for v in [1u64, 999, 2500, 8191, 8192, 10007, 3600000000] {
        let lo = h.lowest_equivalent_value(v);
        let hi = h.highest_equivalent_value(v);
        assert!(lo <= v && v <= hi);
        assert!(h.values_are_equivalent(lo, v));
        assert!(h.values_are_equivalent(hi, v));
    }
}

#[test]
fn test_percentile_target_is_ceiling() {
    let mut h = Histogram::new(1, 1000, 2).unwrap();
    h.record_values(1, 3);
    h.record_values(5, 7);

    // 31% of 10 samples asks for ceil(3.1) = 4 samples, past the three at 1
    assert_eq!(h.value_at_percentile(pct(31, 1)), 5);
    assert_eq!(h.value_at_percentile(pct(30, 1)), 1);
}

#[test]
fn test_percentile_monotone_scenario() {
    let mut h = Histogram::new(1, 100000, 3).unwrap();
    for i in 1..100u64 {
        h.record_values(i * 100, i);
    }
    let mut previous: u64 = 0;
    for p in [0u64, 10, 25, 50, 75, 90, 99, 100] {
        let v = h.value_at_percentile(pct(p, 1));
        assert!(previous <= v);
        previous = v;
    }
}

#[test]
fn test_latency_recording_scenario() {
    let mut h = Histogram::new(1, 3_600_000_000, 3).unwrap();
    for _ in 0..10_000 {
        assert!(h.record_value(1000));
    }
    assert!(h.record_value(100_000_000));

    assert_eq!(h.total_count(), 10_001);
    assert_eq!(h.min(), 1000);
    assert!(h.values_are_equivalent(h.value_at_percentile(pct(99, 1)), 1000));
    assert!(h.values_are_equivalent(h.value_at_percentile(pct(99_999, 1000)), 100_000_000));
}

#[test]
fn test_corrected_synthesis() {
    let mut h = Histogram::new(1, 3600000000, 3).unwrap();

    assert!(h.record_corrected_value(4, 1));
    // one real sample at 4 and synthetic samples at 1, 2 and 3
    assert_eq!(h.total_count(), 4);
    assert_eq!(h.count_at_value(1), 1);
    assert_eq!(h.count_at_value(2), 1);
    assert_eq!(h.count_at_value(3), 1);
    assert_eq!(h.count_at_value(4), 1);
}

#[test]
fn test_corrected_within_interval_records_once() {
    let mut h = Histogram::new(1, 3600000000, 3).unwrap();

    assert!(h.record_corrected_value(1000, 10000));
    assert_eq!(h.total_count(), 1);
    assert_eq!(h.count_at_value(1000), 1);
}

#[test]
fn test_add_conserves_totals() {
    let mut a = Histogram::new(1, 3600000000, 3).unwrap();
    let mut b = Histogram::new(1, 3600000000, 3).unwrap();

    a.record_values(1000, 5);
    a.record_value(77777);
    b.record_values(1000, 3);
    b.record_value(2000000);

    let dropped = a.add(&b);
    assert_eq!(dropped, 0);
    assert_eq!(a.total_count(), 10);
    assert_eq!(a.count_at_value(1000), 8);
    assert_eq!(a.count_at_value(2000000), 1);
    assert_eq!(b.total_count(), 4);
}

#[test]
fn test_add_drops_out_of_range_samples() {
    let mut small = Histogram::new(1, 1000, 2).unwrap();
    let mut big = Histogram::new(1, 1000000, 2).unwrap();

    big.record_values(500, 4);
    big.record_values(50000, 6);

    let dropped = small.add(&big);
    assert_eq!(dropped, 6);
    // total after add is the sum of both totals minus the dropped samples
    assert_eq!(small.total_count(), 0 + 10 - 6);
    assert_eq!(small.count_at_value(500), 4);
}

#[test]
fn test_add_while_correcting() {
    let mut dest = Histogram::new(1, 3600000000, 3).unwrap();
    let mut src = Histogram::new(1, 3600000000, 3).unwrap();

    src.record_value(4);

    let dropped = dest.add_while_correcting_for_coordinated_omission(&src, 1);
    assert_eq!(dropped, 0);
    assert_eq!(dest.total_count(), 4);
}

#[test]
fn test_value_at_percentiles_batch() {
    let mut h = Histogram::new(1, 100000, 3).unwrap();
    for _ in 0..99 {
        h.record_value(100);
    }
    h.record_value(50000);

    let ps = vec![pct(50, 1), pct(99, 1), pct(100, 1)];
    let vs = h.value_at_percentiles(&ps);
    assert_eq!(vs.len(), 3);
    assert!(h.values_are_equivalent(vs[0], 100));
    assert!(h.values_are_equivalent(vs[1], 100));
    assert!(h.values_are_equivalent(vs[2], 50000));
}

#[test]
fn test_percentile_iteration() {
    let mut h = Histogram::new(1, 100000, 3).unwrap();
    h.record_values(100, 50);
    h.record_values(10000, 50);

    let mut it = h.percentile_iter(5);
    let mut steps = 0;
    let mut final_num: u64 = 0;
    let mut final_den: u64 = 1;
    let mut last_value: u64 = 0;
    while let Some(item) = it.next(&h) {
        steps += 1;
        final_num = item.percentile_numerator;
        final_den = item.percentile_denominator;
        last_value = item.value;
        assert!(steps < 10000);
    }
    // iteration ends on a 100% step at the top recorded value
    assert_eq!(final_num, 100 * final_den);
    assert!(h.values_are_equivalent(last_value, 10000));
    assert!(steps >= 2);
}

#[test]
fn test_all_values_iteration_visits_every_slot() {
    let mut h = Histogram::new(1, 1000, 1).unwrap();
    h.record_values(3, 2);
    h.record_value(900);

    let mut it = h.all_values_iter();
    let mut steps: u64 = 0;
    let mut summed: u64 = 0;
    while let Some(item) = it.next(&h) {
        summed += item.count_added_in_this_iteration_step;
        steps += 1;
    }
    assert_eq!(steps, h.get_counts_len());
    assert_eq!(summed, h.total_count());
}

#[test]
fn test_codec_empty_round_trip() {
    let h = Histogram::new(1000, 3600000000, 2).unwrap();
    let enc = h.encode().unwrap();
    let dec = Histogram::decode(&enc).unwrap();

    assert_eq!(dec.total_count(), 0);
    assert_eq!(dec.get_counts_len(), h.get_counts_len());
    assert_eq!(dec.cfg.lowest_discernible_value, h.cfg.lowest_discernible_value);
    assert_eq!(dec.cfg.highest_trackable_value, h.cfg.highest_trackable_value);
    assert_eq!(dec.cfg.significant_figures, h.cfg.significant_figures);
    assert_eq!(dec.cfg.unit_magnitude, h.cfg.unit_magnitude);
    assert_eq!(dec.cfg.sub_bucket_count, h.cfg.sub_bucket_count);
    assert_eq!(dec.cfg.bucket_count, h.cfg.bucket_count);
    assert_eq!(dec.min(), u64::MAX);
    assert_eq!(dec.max(), 0);
}

#[test]
fn test_codec_preserves_every_counter() {
    let mut h = Histogram::new(1, 3600000000, 3).unwrap();
    h.record_values(1000, 10000);
    h.record_value(100000000);
    h.record_values(1, 3);
    h.record_corrected_value(50000, 100);

    let enc = h.encode().unwrap();
    let dec = Histogram::decode(&enc).unwrap();

    assert_eq!(dec.total_count(), h.total_count());
    for v in [1u64, 1000, 50000, 100000000, 12345, 3599999999] {
        assert_eq!(dec.count_at_value(v), h.count_at_value(v));
    }
    assert_eq!(dec.min(), h.min());
    assert_eq!(dec.max(), h.max());
}

#[test]
fn test_decode_rejects_foreign_payload() {
    // valid base64 text, but not an encoded histogram
    assert!(Histogram::decode(&b"AAAAAAAA".to_vec()).is_err());
    // truncated copy of a real encoding
    let h = Histogram::new(1, 1000, 2).unwrap();
    let enc = h.encode().unwrap();
    let cut = enc[..enc.len() - 4].to_vec();
    assert!(Histogram::decode(&cut).is_err());
}
