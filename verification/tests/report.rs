use oxipng::report::{format_bytes, json_escape, parse_chunk_name};

#[test]
fn test_format_bytes() {
    assert_eq!(format_bytes(1023, false), "1023 bytes");
    assert_eq!(format_bytes(800_000, false), "781 KiB");
    assert_eq!(format_bytes(12_500_000, false), "11.9 MiB");
    assert_eq!(format_bytes(2_000_000_000, false), "1.86 GiB");
    assert_eq!(format_bytes(-1024, false), "-1.00 KiB");
}

#[test]
fn format_bytes_with_raw_count() {
    assert_eq!(format_bytes(2048, true), "2.00 KiB (2048 bytes)");
    assert_eq!(format_bytes(-3_000_000, true), "-2.86 MiB (-3000000 bytes)");
    assert_eq!(format_bytes(100, true), "100 bytes");
    assert_eq!(format_bytes(0, false), "0 bytes");
    assert_eq!(format_bytes(-5, false), "-5 bytes");
}

#[test]
fn format_bytes_precision_bounds() {
    assert_eq!(format_bytes(10234, false), "9.99 KiB");
    assert_eq!(format_bytes(10235, false), "10.0 KiB");
    assert_eq!(format_bytes(102_348, false), "99.9 KiB");
    assert_eq!(format_bytes(102_349, false), "100 KiB");
    assert_eq!(format_bytes(1 << 20, false), "1.00 MiB");
    assert_eq!(format_bytes(1 << 30, false), "1.00 GiB");
    assert_eq!(format_bytes(5 << 40, false), "5120 GiB");
}

#[test]
fn json_escape_special_characters() {
    assert_eq!(json_escape("plain"), "plain");
    assert_eq!(json_escape("a\"b\\c\nd"), "a\\\"b\\\\c\\nd");
    assert_eq!(json_escape("\t\r\u{8}\u{c}"), "\\t\\r\\b\\f");
    assert_eq!(json_escape(""), "");
    assert_eq!(json_escape("é/ü"), "é/ü");
}

#[test]
fn parse_chunk_name_accepts_four_bytes() {
    assert_eq!(parse_chunk_name("tEXt"), Ok(*b"tEXt"));
    assert_eq!(parse_chunk_name("  iTXt\n"), Ok(*b"iTXt"));
}

#[test]
fn parse_chunk_name_rejects_other_lengths() {
    assert_eq!(parse_chunk_name("abc"), Err("Invalid chunk name abc".to_string()));
    assert_eq!(parse_chunk_name("abcde"), Err("Invalid chunk name abcde".to_string()));
    assert_eq!(parse_chunk_name(" ab "), Err("Invalid chunk name  ab ".to_string()));
}
