use matching_engine::number::parse_human_readable_u32;
use matching_engine::perf::calculate_perf;

#[test]
fn sizes_with_units() {
    assert_eq!(parse_human_readable_u32("10"), Ok(10));
    assert_eq!(parse_human_readable_u32("500k"), Ok(500_000));
    assert_eq!(parse_human_readable_u32("2M"), Ok(2_000_000));
    assert_eq!(parse_human_readable_u32("1G"), Ok(1_000_000_000));
    assert_eq!(parse_human_readable_u32("  5k \n"), Ok(5_000));
    assert_eq!(parse_human_readable_u32("+7"), Ok(7));
    assert_eq!(parse_human_readable_u32("4294967295"), Ok(u32::MAX));
}

#[test]
fn sizes_with_unicode_whitespace_and_kelvin_sign() {
    assert_eq!(parse_human_readable_u32("\u{3000}5k"), Ok(5_000));
    assert_eq!(parse_human_readable_u32("7\u{00A0}\u{2009}"), Ok(7));
    assert_eq!(parse_human_readable_u32("5\u{212A}"), Ok(5_000));
    assert_eq!(parse_human_readable_u32("\u{85}\u{205F}"), Err("Input string cannot be empty"));
    assert_eq!(parse_human_readable_u32("5\u{00E9}"), Err("Failed to parse the number part"));
}

#[test]
fn size_errors() {
    assert_eq!(parse_human_readable_u32("   "), Err("Input string cannot be empty"));
    assert_eq!(parse_human_readable_u32(""), Err("Input string cannot be empty"));
    assert_eq!(parse_human_readable_u32("abc"), Err("Failed to parse the number part"));
    assert_eq!(parse_human_readable_u32("k"), Err("Failed to parse the number part"));
    assert_eq!(parse_human_readable_u32("-5"), Err("Failed to parse the number part"));
    assert_eq!(parse_human_readable_u32("99999999999999999999"), Err("Failed to parse the number part"));
    assert_eq!(parse_human_readable_u32("5x"), Err("Unsupported unit character"));
    assert_eq!(parse_human_readable_u32("5g"), Err("Result value exceeds the maximum value for u32"));
    assert_eq!(parse_human_readable_u32("4294967296"), Err("Result value exceeds the maximum value for u32"));
}

#[test]
fn percentiles_nearest_rank() {
    let data: Vec<u32> = vec![10, 3, 8, 1, 5, 7, 2, 9, 6, 4];
    let s = calculate_perf(data).unwrap();
    assert_eq!(s.p10, 1);
    assert_eq!(s.p20, 2);
    assert_eq!(s.p50, 5);
    assert_eq!(s.p90, 9);
    assert_eq!(s.p95, 10);
    assert_eq!(s.p999, 10);
    assert_eq!(s.p100, 10);
}

#[test]
fn percentiles_of_one_and_none() {
    assert!(calculate_perf(Vec::new()).is_none());
    let s = calculate_perf(vec![42]).unwrap();
    assert_eq!((s.p10, s.p50, s.p100), (42, 42, 42));
}
