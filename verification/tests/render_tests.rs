use capella::cache::CapellaCache;
use capella::render::{make_metric_string, render_i64, render_units};
use capella::server::ingest;

#[test]
fn units_render_as_trimmed_decimals() {
    assert_eq!(render_units(1_000_000), b"1".to_vec());
    assert_eq!(render_units(100_000), b"0.1".to_vec());
    assert_eq!(render_units(1_500_000), b"1.5".to_vec());
    assert_eq!(render_units(-1_250_000), b"-1.25".to_vec());
    assert_eq!(render_units(0), b"0".to_vec());
    assert_eq!(render_units(123_456), b"0.123456".to_vec());
}

#[test]
fn signed_integers_render_plainly() {
    assert_eq!(render_i64(0), b"0".to_vec());
    assert_eq!(render_i64(1234567890), b"1234567890".to_vec());
    assert_eq!(render_i64(-5), b"-5".to_vec());
}

#[test]
fn metric_lines_have_the_graphite_shape() {
    let line = make_metric_string(b"x.y", 1_500_000, b"99");
    assert_eq!(line, b"x.y 1.5 99\n".to_vec());
}

#[test]
fn snapshot_renders_every_section() {
    let mut cache = CapellaCache::default();
    ingest(&mut cache, b"c:6|c\ng:-2.5|g\nt:1|ms\nt:3|ms\nu:7|s");
    cache.make_timer_stats();
    let buf = cache.render_snapshot(b"42");
    let text = String::from_utf8(buf).unwrap();
    let lines: Vec<&str> = text.lines().collect();
    assert!(lines.contains(&"c 6 42"));
    assert!(lines.contains(&"g -2.5 42"));
    assert!(lines.contains(&"t.min 1 42"));
    assert!(lines.contains(&"t.max 3 42"));
    assert!(lines.contains(&"t.count 2 42"));
    assert!(lines.contains(&"t.average 2 42"));
    assert!(lines.contains(&"t.median 2 42"));
    assert!(lines.contains(&"u.count 1 42"));
    assert!(lines.contains(&"capella.total_metrics 5 42"));
    assert!(lines.contains(&"capella.bad_metrics 0 42"));
}

#[test]
fn purge_window_resets_but_keeps_gauges() {
    let mut cache = CapellaCache::default();
    ingest(&mut cache, b"c:6|c\ng:1|g");
    let buf = cache.purge_window();
    let text = String::from_utf8(buf).unwrap();
    assert!(text.lines().any(|l| l.starts_with("c 6 ")));
    assert!(text.lines().any(|l| l.starts_with("g 1 ")));
    // the window is cleared, gauges and totals stand
    assert_eq!(cache.counters_iter().len(), 0);
    assert_eq!(cache.gauges_iter().len(), 1);
    assert_eq!(cache.total_metrics(), 2);
}
