use net_rate::format::{format_bytes, format_bytes_string};

#[test]
fn boundary_at_1024_stays_plain_bytes() {
    assert_eq!(format_bytes_string(1024, true), "1024B");
}

#[test]
fn just_above_1024_is_scaled_to_kb() {
    let s = format_bytes_string(1025, true);
    assert!(s.starts_with("1.0"));
    assert!(s.ends_with("KB"));
    assert_eq!(s, "1.0KB");
}

#[test]
fn boundary_at_1048576_stays_kb() {
    let s = format_bytes_string(1048576, true);
    assert!(s.ends_with("KB"));
    assert_eq!(s, "1024KB");
}

#[test]
fn just_above_1048576_is_scaled_to_mb() {
    let s = format_bytes_string(1048577, true);
    assert!(s.ends_with("MB"));
    assert_eq!(s, "1.0MB");
}

#[test]
fn small_counts_keep_the_b_suffix() {
    assert_eq!(format_bytes_string(0, true), "0B");
    assert_eq!(format_bytes_string(512, true), "512B");
    assert_eq!(format_bytes_string(1023, true), "1023B");
}

#[test]
fn exact_multiples_have_no_fraction() {
    assert_eq!(format_bytes_string(2048, true), "2KB");
    assert_eq!(format_bytes_string(3 * 1048576, true), "3MB");
}

#[test]
fn fraction_is_truncated_not_rounded() {
    assert_eq!(format_bytes_string(1536, true), "1.5KB");
    // 1997/1024 = 1.950..., one truncated digit
    assert_eq!(format_bytes_string(1997, true), "1.9KB");
    // 3.5 MB exactly
    assert_eq!(format_bytes_string(3 * 1048576 + 524288, true), "3.5MB");
    // 2.999... MB truncates to 2.9MB
    assert_eq!(format_bytes_string(3 * 1048576 - 1, true), "2.9MB");
}

#[test]
fn largest_count_formats() {
    assert_eq!(format_bytes_string(u64::MAX, true), "17592186044415.9MB");
}

#[test]
fn scaling_disabled_is_plain_decimal() {
    assert_eq!(format_bytes_string(0, false), "0");
    assert_eq!(format_bytes_string(7, false), "7");
    assert_eq!(format_bytes_string(1024, false), "1024");
    assert_eq!(format_bytes_string(123456789, false), "123456789");
    assert_eq!(format_bytes_string(u64::MAX, false), "18446744073709551615");
}

#[test]
fn byte_output_matches_string_output() {
    for v in [0u64, 1, 1023, 1024, 1025, 1048576, 1048577, u64::MAX] {
        for scaling in [false, true] {
            let bytes = format_bytes(v, scaling);
            let s = format_bytes_string(v, scaling);
            assert_eq!(bytes, s.as_bytes().to_vec());
        }
    }
}
