use capella::cache::CapellaCache;
use capella::parse::{parse_metric, Metric, MetricType};

// Create a new timer metric.
fn make_timer_metric(name: &str, value: i64) -> Metric {
    Metric {
        name: name.as_bytes().to_vec(),
        value,
        metric_type: MetricType::Timer,
        sample_rate: None,
    }
}

// The value recorded under a key, from an accessor's pairs.
fn lookup(pairs: &[(Vec<u8>, i64)], key: &str) -> i64 {
    for (k, v) in pairs {
        if k.as_slice() == key.as_bytes() {
            return *v;
        }
    }
    panic!("key not found");
}

#[test]
fn timer_data_generation() {
    let mut timers = Vec::new();
    let mut cache = CapellaCache::default();

    timers.push(make_timer_metric("test", 1_000_000));
    timers.push(make_timer_metric("test", 2_000_000));
    timers.push(make_timer_metric("test", 3_000_000));
    timers.push(make_timer_metric("test", 4_000_000));
    timers.push(make_timer_metric("test", 5_000_000));

    for t in &timers {
        cache.add_metric(t);
    }
    cache.make_timer_stats();

    let stats = cache.timer_data_iter();
    assert_eq!(lookup(&stats, "test.min"), 1_000_000);
    assert_eq!(lookup(&stats, "test.max"), 5_000_000);
    assert_eq!(lookup(&stats, "test.count"), 5_000_000);
    assert_eq!(lookup(&stats, "test.average"), 3_000_000);
    // the population standard deviation is the square root of two, held to
    // six decimal places
    assert_eq!(lookup(&stats, "test.std_dev"), 1_414_213);
    assert_eq!(lookup(&stats, "test.median"), 3_000_000);
    assert_eq!(lookup(&stats, "test.upper_95"), 5_000_000);
}

#[test]
fn counters_accumulate() {
    let mut cache = CapellaCache::default();
    let m = Metric {
        name: b"test".to_vec(),
        value: 3_000_000,
        metric_type: MetricType::Counter,
        sample_rate: None,
    };
    cache.add_metric(&m);
    cache.add_metric(&m);
    assert_eq!(lookup(&cache.counters_iter(), "test"), 6_000_000);

    let sampled = Metric {
        name: b"sampled".to_vec(),
        value: 10_000_000,
        metric_type: MetricType::Counter,
        sample_rate: Some(500_000),
    };
    cache.add_metric(&sampled);
    assert_eq!(lookup(&cache.counters_iter(), "sampled"), 5_000_000);
}

#[test]
fn gauges_last_write_wins() {
    let mut cache = CapellaCache::default();
    let mut m = Metric {
        name: b"g".to_vec(),
        value: 1_000_000,
        metric_type: MetricType::Gauge,
        sample_rate: None,
    };
    cache.add_metric(&m);
    m.value = 2_000_000;
    cache.add_metric(&m);
    assert_eq!(lookup(&cache.gauges_iter(), "g"), 2_000_000);

    // a reset does not clear gauge values
    cache.reset();
    assert_eq!(lookup(&cache.gauges_iter(), "g"), 2_000_000);
}

#[test]
fn reset_clears_window_but_keeps_totals() {
    let mut cache = CapellaCache::default();
    cache.add_metric(&parse_metric(b"c:1|c").unwrap());
    cache.add_metric(&parse_metric(b"t:2|ms").unwrap());
    cache.add_metric(&parse_metric(b"s:3|s").unwrap());
    cache.add_metric(&parse_metric(b"g:4|g").unwrap());
    cache.bad_metric_count_increase();
    cache.make_timer_stats();

    assert_eq!(cache.total_metrics(), 5);
    assert_eq!(cache.total_bad_metrics(), 1);
    assert_eq!(cache.counters_iter().len(), 1);
    assert_eq!(cache.sets_iter().len(), 1);
    assert_eq!(cache.timer_data_iter().len(), 7);

    cache.reset();

    assert_eq!(cache.counters_iter().len(), 0);
    assert_eq!(cache.sets_iter().len(), 0);
    assert_eq!(cache.timer_data_iter().len(), 0);
    assert_eq!(cache.gauges_iter().len(), 1);
    // the totals are monotonic and survive the reset
    assert_eq!(cache.total_metrics(), 5);
    assert_eq!(cache.total_bad_metrics(), 1);
}

#[test]
fn sets_round_and_deduplicate() {
    let mut cache = CapellaCache::default();
    let mut m = Metric {
        name: b"u".to_vec(),
        value: 1_400_000,
        metric_type: MetricType::Unique,
        sample_rate: None,
    };
    cache.add_metric(&m); // rounds to 1
    m.value = 1_600_000;
    cache.add_metric(&m); // rounds to 2
    m.value = 1_000_000;
    cache.add_metric(&m); // 1 again: no new member
    m.value = -1_500_000;
    cache.add_metric(&m); // halves round away from zero: -2
    let sets = cache.sets_iter();
    assert_eq!(sets.len(), 1);
    let members = &sets[0].1;
    assert_eq!(members.len(), 3);
    assert!(members.contains(&1));
    assert!(members.contains(&2));
    assert!(members.contains(&-2));
}

#[test]
fn parse_record_round_trip() {
    let mut cache = CapellaCache::default();
    cache.add_metric(&parse_metric(b"c:2.5|c").unwrap());
    assert_eq!(lookup(&cache.counters_iter(), "c"), 2_500_000);
    cache.add_metric(&parse_metric(b"g:-7|g").unwrap());
    assert_eq!(lookup(&cache.gauges_iter(), "g"), -7_000_000);
    cache.add_metric(&parse_metric(b"t:4|ms|@0.5").unwrap());
    cache.make_timer_stats();
    let stats = cache.timer_data_iter();
    assert_eq!(lookup(&stats, "t.min"), 2_000_000);
    assert_eq!(lookup(&stats, "t.count"), 1_000_000);
    cache.add_metric(&parse_metric(b"u:3|s").unwrap());
    let sets = cache.sets_iter();
    assert!(sets[0].1.contains(&3));
}

#[test]
fn even_sample_count_percentiles() {
    let mut cache = CapellaCache::default();
    for v in [1_000_000i64, 2_000_000, 3_000_000, 4_000_000] {
        cache.add_metric(&make_timer_metric("test", v));
    }
    cache.make_timer_stats();
    let stats = cache.timer_data_iter();
    // with an even count the values beside the index are averaged
    assert_eq!(lookup(&stats, "test.median"), 2_500_000);
    // index = floor(4 * 95 / 100) = 3
    assert_eq!(lookup(&stats, "test.upper_95"), 3_500_000);
    assert_eq!(lookup(&stats, "test.average"), 2_500_000);
}
