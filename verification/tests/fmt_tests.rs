use ldapbench::textfmt::{format_latency, format_latency_range};

#[test]
fn microseconds_below_one_millisecond() {
    assert_eq!(format_latency(0), (String::from("0"), "us"));
    assert_eq!(format_latency(42), (String::from("42"), "us"));
    assert_eq!(format_latency(999), (String::from("999"), "us"));
}

#[test]
fn milliseconds_with_two_decimals() {
    assert_eq!(format_latency(1_000), (String::from("1.00"), "ms"));
    assert_eq!(format_latency(1_500), (String::from("1.50"), "ms"));
    assert_eq!(format_latency(1_555), (String::from("1.56"), "ms"));
    assert_eq!(format_latency(999_994), (String::from("999.99"), "ms"));
    assert_eq!(format_latency(999_999), (String::from("1000.00"), "ms"));
}

#[test]
fn seconds_from_one_million_microseconds() {
    assert_eq!(format_latency(1_000_000), (String::from("1.00"), "s"));
    assert_eq!(format_latency(2_500_000), (String::from("2.50"), "s"));
    assert_eq!(format_latency(61_234_000), (String::from("61.23"), "s"));
}

#[test]
fn range_unit_follows_upper_end() {
    assert_eq!(
        format_latency_range(10, 900),
        (String::from("10"), String::from("900"), "us")
    );
    assert_eq!(
        format_latency_range(500, 2_000),
        (String::from("0.50"), String::from("2.00"), "ms")
    );
    assert_eq!(
        format_latency_range(900_000, 3_000_000),
        (String::from("0.90"), String::from("3.00"), "s")
    );
}
