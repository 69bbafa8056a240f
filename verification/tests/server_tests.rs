use capella::cache::CapellaCache;
use capella::parse::MetricType;
use capella::server::{ingest, StatsCodec};

#[test]
fn decode_splits_lines_and_drops_garbage() {
    let mut codec = StatsCodec;
    let metrics = codec.decode(b"a:1|c\nnot a metric\nb:2|g\n");
    assert_eq!(metrics.len(), 2);
    assert_eq!(metrics[0].name, b"a".to_vec());
    assert_eq!(metrics[0].metric_type, MetricType::Counter);
    assert_eq!(metrics[1].name, b"b".to_vec());
    assert_eq!(metrics[1].value, 2_000_000);
}

#[test]
fn decode_single_line_datagram() {
    let mut codec = StatsCodec;
    let metrics = codec.decode(b"a:1|c");
    assert_eq!(metrics.len(), 1);
    let metrics = codec.decode(b"");
    assert_eq!(metrics.len(), 0);
}

#[test]
fn ingest_counts_good_and_bad_datagrams() {
    let mut cache = CapellaCache::default();
    // two good events in one datagram: both recorded, nothing bad
    ingest(&mut cache, b"a:1|c\na:2|c");
    assert_eq!(cache.total_metrics(), 2);
    assert_eq!(cache.total_bad_metrics(), 0);
    // a fully malformed datagram counts once, as bad and as seen
    ingest(&mut cache, b"garbage");
    assert_eq!(cache.total_metrics(), 3);
    assert_eq!(cache.total_bad_metrics(), 1);
    // one bad fragment among good ones is dropped silently
    ingest(&mut cache, b"a:1|c\nbad fragment");
    assert_eq!(cache.total_metrics(), 4);
    assert_eq!(cache.total_bad_metrics(), 1);
    let counters = cache.counters_iter();
    assert_eq!(counters.len(), 1);
    assert_eq!(counters[0].1, 4_000_000);
}
