use net_rate::decimal::render_counter;
use net_rate::store::{counter_from_content, parse_counter};

#[test]
fn absent_file_loads_as_zero() {
    assert_eq!(counter_from_content(None), 0);
}

#[test]
fn malformed_content_loads_as_zero() {
    assert_eq!(parse_counter(b""), 0);
    assert_eq!(parse_counter(b"   "), 0);
    assert_eq!(parse_counter(b"abc"), 0);
    assert_eq!(parse_counter(b"12a"), 0);
    assert_eq!(parse_counter(b"-5"), 0);
    assert_eq!(parse_counter(b"1 2"), 0);
    assert_eq!(parse_counter(b"18446744073709551616"), 0);
}

#[test]
fn whitespace_around_the_number_is_ignored() {
    assert_eq!(parse_counter(b"123"), 123);
    assert_eq!(parse_counter(b"  123  \n"), 123);
    assert_eq!(parse_counter(b"\t42\r\n"), 42);
}

#[test]
fn plus_sign_parses_as_rust_would() {
    assert_eq!(parse_counter(b"+7"), 7);
    assert_eq!(parse_counter(b"+"), 0);
}

#[test]
fn largest_counter_loads() {
    assert_eq!(parse_counter(b"18446744073709551615"), u64::MAX);
}

#[test]
fn render_is_plain_decimal_text() {
    assert_eq!(render_counter(0), b"0".to_vec());
    assert_eq!(render_counter(9), b"9".to_vec());
    assert_eq!(render_counter(10), b"10".to_vec());
    assert_eq!(render_counter(305441741), b"305441741".to_vec());
    assert_eq!(render_counter(u64::MAX), b"18446744073709551615".to_vec());
}

#[test]
fn store_then_load_round_trips() {
    for v in [0u64, 1, 9, 10, 11, 99, 100, 1023, 1024, 123456789, u64::MAX - 1, u64::MAX] {
        let content = render_counter(v);
        assert_eq!(parse_counter(&content), v);
        assert_eq!(counter_from_content(Some(&content[..])), v);
    }
}
