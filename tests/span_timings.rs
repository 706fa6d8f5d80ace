use span_timings::{
    statistics_of, DurationFrequency, SpanTimingsLayer, SpanTimingsLayerStatistics,
    PERCENTILE_LIMIT, PERCENTILE_SCALE,
};

const MS: u64 = 1_000_000;

fn pct(whole: i64, tenths: i64) -> i64 {
    whole * PERCENTILE_SCALE + tenths * (PERCENTILE_SCALE / 10)
}

fn find<'a>(
    stats: &'a [(String, SpanTimingsLayerStatistics)],
    name: &str,
) -> &'a SpanTimingsLayerStatistics {
    &stats.iter().find(|(n, _)| n == name).unwrap().1
}

fn keys(st: &SpanTimingsLayerStatistics) -> Vec<i64> {
    st.percentiles.iter().map(|(p, _)| *p).collect()
}

fn requested() -> Vec<i64> {
    vec![pct(-1, 0), pct(0, 0), pct(50, 0), pct(99, 9), pct(100, 0)]
}

#[test]
fn test_span_timings_layer() {
    let (layer, ptr) = SpanTimingsLayer::new(0);
    for i in 0..10u64 {
        layer.record("foo_span".to_string(), 1000 + i);
    }

    // -1.0 and 100.0 are invalid and are skipped
    let stats = ptr.get_statistics(&requested());
    assert_eq!(stats.len(), 1);
    let stat = find(&stats, "foo_span");
    assert_eq!(stat.count, 10);
    assert_eq!(keys(stat), vec![pct(0, 0), pct(50, 0), pct(99, 9)]);

    // bounded timings layer
    let (layer, ptr) = SpanTimingsLayer::new(1);
    for i in 0..10u64 {
        layer.record("foo_span".to_string(), 2000 + i);
        layer.record("bar_span".to_string(), 3000 + i);
    }
    let stats = ptr.get_statistics(&requested());
    assert_eq!(stats.len(), 2);
    let stat = find(&stats, "foo_span");
    assert_eq!(stat.count, 1);
    assert_eq!(keys(stat), vec![pct(0, 0), pct(50, 0), pct(99, 9)]);
    let stat = find(&stats, "bar_span");
    assert_eq!(stat.count, 1);

    // bounded timings with random eviction
    let (layer, ptr) = SpanTimingsLayer::new(10);
    for i in 0..100u64 {
        layer.record("foo_span".to_string(), (i * 37) % 101);
    }
    let stats = ptr.get_statistics(&vec![pct(50, 0)]);
    assert_eq!(stats.len(), 1);
    let stat = find(&stats, "foo_span");
    assert_eq!(stat.count, 10);
}

#[test]
fn unbounded_count_and_total_are_exact() {
    let (layer, ptr) = SpanTimingsLayer::new(0);
    let ds = [5u64, 3, 5, 12, 0, 7, 3, 3];
    for d in ds {
        layer.record("q".to_string(), d);
    }
    let stats = ptr.get_statistics(&vec![]);
    let st = find(&stats, "q");
    assert_eq!(st.count, ds.len());
    assert_eq!(st.total, ds.iter().map(|d| *d as u128).sum::<u128>());
    assert_eq!(st.min, 0);
    assert_eq!(st.max, 12);
    assert_eq!(st.avg, 38 / 8);
    assert!(st.percentiles.is_empty());
}

#[test]
fn scenario_ten_equal_durations() {
    let (layer, ptr) = SpanTimingsLayer::new(0);
    for _ in 0..10 {
        layer.record("foo".to_string(), 10 * MS);
    }
    let stats = ptr.get_statistics(&vec![pct(0, 0), pct(50, 0), pct(99, 9)]);
    let st = find(&stats, "foo");
    assert_eq!(st.count, 10);
    assert_eq!(
        st.percentiles,
        vec![(pct(0, 0), 10 * MS), (pct(50, 0), 10 * MS), (pct(99, 9), 10 * MS)]
    );
    assert_eq!(st.min, 10 * MS);
    assert_eq!(st.avg, 10 * MS);
    assert_eq!(st.max, 10 * MS);
    assert_eq!(st.total, 100 * MS as u128);
}

#[test]
fn scenario_bound_one_alternating_spans() {
    let (layer, ptr) = SpanTimingsLayer::new(1);
    for i in 0..10u64 {
        let name = if i % 2 == 0 { "foo" } else { "bar" };
        layer.record(name.to_string(), i * MS);
    }
    let stats = ptr.get_statistics(&vec![pct(50, 0)]);
    assert_eq!(stats.len(), 2);
    let foo = find(&stats, "foo");
    assert_eq!(foo.count, 1);
    // with one bucket, the old observation makes way for the new one
    assert_eq!(foo.min, 8 * MS);
    let bar = find(&stats, "bar");
    assert_eq!(bar.count, 1);
    assert_eq!(bar.max, 9 * MS);
}

#[test]
fn scenario_bound_ten_hundred_records() {
    let mut f = DurationFrequency::new();
    for i in 0..100u64 {
        f.record((i * 7919) % 1000, 10);
        assert!(f.count() <= 10);
        assert_eq!(f.count(), std::cmp::min(i as usize + 1, 10));
    }
    assert_eq!(f.count(), 10);
}

#[test]
fn invalid_percentiles_are_dropped_and_valid_ones_kept_in_order() {
    let mut f = DurationFrequency::new();
    for d in [4u64, 1, 3, 2] {
        f.record(d, 0);
    }
    let st = f
        .statistics(&vec![pct(99, 9), PERCENTILE_LIMIT, -1, pct(25, 0), pct(99, 9), 0, i64::MAX, i64::MIN])
        .unwrap();
    assert_eq!(keys(&st), vec![0, pct(25, 0), pct(99, 9)]);
    // ranks: floor(4 * 0) = 0, floor(4 * 0.25) = 1, floor(4 * 0.999) = 3
    assert_eq!(st.percentiles, vec![(0, 1), (pct(25, 0), 2), (pct(99, 9), 4)]);
}

#[test]
fn percentile_walks_cumulative_counts() {
    let mut f = DurationFrequency::new();
    for d in 1..=10u64 {
        f.record(d, 0);
    }
    f.record(10, 0);
    f.record(10, 0);
    // 12 observations: 1..=9 once, 10 three times
    let st = f.statistics(&vec![pct(50, 0), pct(75, 0), pct(90, 0)]).unwrap();
    // ranks 6, 9, 10
    assert_eq!(st.percentiles, vec![(pct(50, 0), 7), (pct(75, 0), 10), (pct(90, 0), 10)]);
    assert_eq!(f.buckets().len(), 10);
    assert_eq!(f.buckets()[9], (10, 3));
}

#[test]
fn min_avg_max_ordered() {
    let mut f = DurationFrequency::new();
    for d in [100u64, 1, 1, 1, 50] {
        f.record(d, 0);
    }
    let st = f.statistics(&vec![]).unwrap();
    assert_eq!(st.min, 1);
    assert_eq!(st.max, 100);
    assert_eq!(st.avg, 153 / 5);
    assert!(st.min <= st.avg && st.avg <= st.max);
}

#[test]
fn empty_distribution_has_no_statistics() {
    let f = DurationFrequency::new();
    assert!(f.statistics(&vec![pct(50, 0)]).is_none());
    assert_eq!(f.count(), 0);
}

#[test]
fn eviction_spares_extremes_with_three_buckets() {
    let mut f = DurationFrequency::new();
    for d in [1u64, 5, 9] {
        f.record(d, 3);
    }
    f.record(7, 3);
    assert_eq!(f.buckets().clone(), vec![(1, 1), (7, 1), (9, 1)]);
}

#[test]
fn eviction_with_two_buckets_takes_the_first() {
    let mut f = DurationFrequency::new();
    f.record(1, 2);
    f.record(9, 2);
    f.record(5, 2);
    assert_eq!(f.buckets().clone(), vec![(5, 1), (9, 1)]);
}

#[test]
fn eviction_with_one_bucket_decrements_it() {
    let mut f = DurationFrequency::new();
    for _ in 0..3 {
        f.record(4, 3);
    }
    f.record(6, 3);
    assert_eq!(f.buckets().clone(), vec![(4, 2), (6, 1)]);
}

#[test]
fn random_eviction_keeps_min_and_max() {
    let mut f = DurationFrequency::new();
    f.record(0, 5);
    f.record(1000, 5);
    for i in 0..500u64 {
        f.record(1 + (i * 13) % 998, 5);
        let b = f.buckets();
        assert_eq!(b[0].0, 0);
        assert_eq!(b[b.len() - 1].0, 1000);
        assert!(f.count() <= 5);
    }
}

#[test]
fn statistics_twice_agree() {
    let (layer, ptr) = SpanTimingsLayer::new(4);
    for i in 0..20u64 {
        layer.record("a".to_string(), i % 6);
        layer.record("b".to_string(), 100 - i);
    }
    let ps = vec![pct(10, 0), pct(50, 0), pct(90, 0)];
    let mut s1 = ptr.get_statistics(&ps);
    let mut s2 = ptr.get_statistics(&ps);
    s1.sort_by(|a, b| a.0.cmp(&b.0));
    s2.sort_by(|a, b| a.0.cmp(&b.0));
    assert_eq!(s1.len(), s2.len());
    for (x, y) in s1.iter().zip(s2.iter()) {
        assert_eq!(x.0, y.0);
        assert_eq!(x.1.count, y.1.count);
        assert_eq!(x.1.total, y.1.total);
        assert_eq!(x.1.min, y.1.min);
        assert_eq!(x.1.avg, y.1.avg);
        assert_eq!(x.1.max, y.1.max);
        assert_eq!(x.1.percentiles, y.1.percentiles);
    }
}

#[test]
fn statistics_of_skips_empty_entries() {
    let mut a = DurationFrequency::new();
    a.record(3, 0);
    a.record(5, 0);
    let entries = vec![
        ("empty".to_string(), DurationFrequency::new()),
        ("a".to_string(), a),
        ("one".to_string(), DurationFrequency::single(8)),
    ];
    let r = statistics_of(&entries, &vec![pct(50, 0)]);
    assert_eq!(r.len(), 2);
    assert_eq!(r[0].0, "a");
    assert_eq!(r[0].1.count, 2);
    assert_eq!(r[0].1.total, 8);
    assert_eq!(r[0].1.percentiles, vec![(pct(50, 0), 5)]);
    assert_eq!(r[1].0, "one");
    assert_eq!(r[1].1.min, 8);
    assert_eq!(r[1].1.max, 8);
}

#[test]
fn copy_keeps_buckets() {
    let mut a = DurationFrequency::new();
    a.record(3, 0);
    a.record(3, 0);
    a.record(1, 0);
    let b = a.copy();
    assert_eq!(b.buckets().clone(), vec![(1, 1), (3, 2)]);
    assert_eq!(b.count(), 3);
}

#[test]
fn layer_keeps_its_bound() {
    let (layer, _ptr) = SpanTimingsLayer::new(42);
    assert_eq!(layer.max_timings_per_span(), 42);
}

#[test]
fn largest_durations_do_not_overflow() {
    let mut f = DurationFrequency::new();
    f.record(u64::MAX, 0);
    f.record(u64::MAX, 0);
    f.record(u64::MAX - 1, 0);
    let st = f.statistics(&vec![pct(99, 9)]).unwrap();
    assert_eq!(st.total, 3 * (u64::MAX as u128) - 1);
    assert_eq!(st.avg, u64::MAX - 1);
    assert_eq!(st.max, u64::MAX);
    assert_eq!(st.percentiles, vec![(pct(99, 9), u64::MAX)]);
}
