use capella::error::Error;
use capella::parse::{parse_metric, Metric, MetricType};

#[test]
fn bad_parse_cases() {
    let cases = vec![
        "test::1|c",
        "",
        "test|1:",
        "test:1|c@1",
        ":1.0|c",
        "test|1",
        "test:1|a",
        "test:c|c",
        "test:1|ms|0.3",
    ];
    for c in &cases {
        assert!(parse_metric(c.as_bytes()).is_err());
    }
}

#[test]
fn good_simple_counter() {
    let packet = b"test:1|c";
    let m1 = parse_metric(packet).unwrap();

    let mut m2 = Metric::new();
    m2.name = b"test".to_vec();
    m2.value = 1_000_000;

    assert_eq!(m1, m2);
}

#[test]
fn good_timing_with_rate() {
    let packet = b"test:1|ms|@0.1";
    let m1 = parse_metric(packet).unwrap();

    let mut m2 = Metric::new();
    m2.name = b"test".to_vec();
    m2.value = 1_000_000;
    m2.metric_type = MetricType::Timer;
    m2.sample_rate = Some(100_000);

    assert_eq!(m1, m2);
}

#[test]
fn good_parse_float_value() {
    let packet = b"test:1.0|g";
    assert!(parse_metric(packet).is_ok());
}

#[test]
fn good_nested_metric_name() {
    let packet = b"test.nested.name:1|c";
    let m1 = parse_metric(packet).unwrap();

    let mut m2 = Metric::new();
    m2.name = b"test.nested.name".to_vec();
    m2.value = 1_000_000;
    m2.metric_type = MetricType::Counter;

    assert_eq!(m1, m2);
}

#[test]
fn fraction_and_leading_dot_values() {
    let m = parse_metric(b"a:3.25|g").unwrap();
    assert_eq!(m.value, 3_250_000);
    let m = parse_metric(b"a:.5|g").unwrap();
    assert_eq!(m.value, 500_000);
    // fraction digits beyond the sixth are truncated
    let m = parse_metric(b"a:0.1234567|g").unwrap();
    assert_eq!(m.value, 123_456);
}

#[test]
fn sign_negates_all_but_counters() {
    let m = parse_metric(b"test:-5|g").unwrap();
    assert_eq!(m.value, -5_000_000);
    let m = parse_metric(b"test:-5|ms").unwrap();
    assert_eq!(m.value, -5_000_000);
    let m = parse_metric(b"test:-5|s").unwrap();
    assert_eq!(m.value, -5_000_000);
    // counters are monotonic: the sign token is consumed but ignored
    let m = parse_metric(b"test:-5|c").unwrap();
    assert_eq!(m.value, 5_000_000);
    assert_eq!(m.metric_type, MetricType::Counter);
    // an explicit plus changes nothing
    let m = parse_metric(b"test:+5|g").unwrap();
    assert_eq!(m.value, 5_000_000);
}

#[test]
fn value_out_of_range_is_rejected() {
    // ten integer digits exceed the value range
    assert!(parse_metric(b"test:1000000000|c").is_err());
    assert!(parse_metric(b"test:999999999|c").is_ok());
}

#[test]
fn rate_outside_unit_interval_is_rejected() {
    assert!(parse_metric(b"test:1|ms|@1.5").is_err());
    assert!(parse_metric(b"test:1|ms|@0.0").is_err());
    assert!(parse_metric(b"test:1|ms|@1.0").is_ok());
    // the rate needs digits on both sides of the dot
    assert!(parse_metric(b"test:1|ms|@.5").is_err());
    assert!(parse_metric(b"test:1|ms|@1").is_err());
}

#[test]
fn metric_type_tokens() {
    assert_eq!(MetricType::from_str(b"c").unwrap(), MetricType::Counter);
    assert_eq!(MetricType::from_str(b"g").unwrap(), MetricType::Gauge);
    assert_eq!(MetricType::from_str(b"ms").unwrap(), MetricType::Timer);
    assert_eq!(MetricType::from_str(b"s").unwrap(), MetricType::Unique);
    assert_eq!(MetricType::from_str(b"x").unwrap_err(), Error::Parse);
}

#[test]
fn parse_error_description() {
    let e = parse_metric(b"oops").unwrap_err();
    assert_eq!(e, Error::Parse);
    assert_eq!(e.description(), "Error parsing metric");
}
