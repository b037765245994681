use net_rate::counters::ByteState;
use net_rate::engine::plan_tick;
use net_rate::netdev::ParseError;

#[test]
fn reset_safe_subtraction_never_underflows() {
    let d = ByteState { recv: 100, send: 5 }.sub(ByteState { recv: 150, send: 3 });
    assert_eq!(d, ByteState { recv: 0, send: 2 });
    let d = ByteState { recv: 7, send: 7 }.sub(ByteState { recv: 7, send: 7 });
    assert_eq!(d, ByteState { recv: 0, send: 0 });
    let d = ByteState { recv: u64::MAX, send: 0 }.sub(ByteState { recv: 0, send: u64::MAX });
    assert_eq!(d, ByteState { recv: u64::MAX, send: 0 });
    let d = ByteState { recv: 1500, send: 900 }.sub(ByteState { recv: 500, send: 300 });
    assert_eq!(d, ByteState { recv: 1000, send: 600 });
}

#[test]
fn first_ever_run_writes_counters_as_intervals() {
    let table = b"eth0: 500 0 0 0 0 0 0 0 300 0\n";
    let out = plan_tick(table, b"eth0", None, None, false).unwrap();
    assert_eq!(out.delta, ByteState { recv: 500, send: 300 });
    assert_eq!(out.total_recv, b"500".to_vec());
    assert_eq!(out.total_send, b"300".to_vec());
    assert_eq!(out.interval_recv, b"500".to_vec());
    assert_eq!(out.interval_send, b"300".to_vec());
}

#[test]
fn second_run_writes_the_delta_against_persisted_totals() {
    let table1 = b"eth0: 500 0 0 0 0 0 0 0 300 0\n";
    let out1 = plan_tick(table1, b"eth0", None, None, false).unwrap();

    let table2 = b"eth0: 1500 0 0 0 0 0 0 0 900 0\n";
    let out2 = plan_tick(
        table2,
        b"eth0",
        Some(&out1.total_send[..]),
        Some(&out1.total_recv[..]),
        false,
    )
    .unwrap();
    assert_eq!(out2.total_recv, b"1500".to_vec());
    assert_eq!(out2.total_send, b"900".to_vec());
    assert_eq!(out2.delta, ByteState { recv: 1000, send: 600 });
    assert_eq!(out2.interval_recv, b"1000".to_vec());
    assert_eq!(out2.interval_send, b"600".to_vec());
}

#[test]
fn scaled_intervals_are_formatted() {
    let table = b"eth0: 1049600 0 0 0 0 0 0 0 1536 0\n";
    let out = plan_tick(table, b"eth0", Some(&b"1024"[..]), Some(&b"0"[..]), true).unwrap();
    // recv delta 1049600, send delta 512
    assert_eq!(out.delta, ByteState { recv: 1049600, send: 512 });
    assert_eq!(out.interval_recv, b"1.0MB".to_vec());
    assert_eq!(out.interval_send, b"512B".to_vec());
    assert_eq!(out.total_recv, b"1049600".to_vec());
    assert_eq!(out.total_send, b"1536".to_vec());
}

#[test]
fn counter_reset_yields_zero_intervals() {
    let table = b"eth0: 100 0 0 0 0 0 0 0 50 0\n";
    let out = plan_tick(table, b"eth0", Some(&b"900"[..]), Some(&b"1500"[..]), false).unwrap();
    assert_eq!(out.delta, ByteState { recv: 0, send: 0 });
    assert_eq!(out.interval_recv, b"0".to_vec());
    assert_eq!(out.interval_send, b"0".to_vec());
    assert_eq!(out.total_recv, b"100".to_vec());
    assert_eq!(out.total_send, b"50".to_vec());
}

#[test]
fn malformed_previous_totals_count_as_zero() {
    let table = b"eth0: 500 0 0 0 0 0 0 0 300 0\n";
    let out = plan_tick(table, b"eth0", Some(&b"oops"[..]), Some(&b""[..]), false).unwrap();
    assert_eq!(out.delta, ByteState { recv: 500, send: 300 });
}

#[test]
fn parse_failure_aborts_the_tick() {
    let table = b"lo: 1 0 0 0 0 0 0 0 2 0\n";
    let r = plan_tick(table, b"eth0", None, None, false);
    assert!(matches!(r, Err(ParseError::DeviceNotFound)));
    let bad = b"eth0: x 0 0 0 0 0 0 0 2 0\n";
    let r = plan_tick(bad, b"eth0", None, None, false);
    assert!(matches!(r, Err(ParseError::BadField)));
    let short = b"eth0: 1 2\n";
    let r = plan_tick(short, b"eth0", None, None, false);
    assert!(matches!(r, Err(ParseError::TooFewFields)));
}
