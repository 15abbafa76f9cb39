use segment_rust::name::{file_name, parse_file_name, FILE_EXTENSION, NAME_WIDTH};

#[test]
fn extension_and_width() {
    assert_eq!(FILE_EXTENSION, "segment");
    assert_eq!(NAME_WIDTH, 8);
}

#[test]
fn file_name_of_zero() {
    assert_eq!(file_name(0), "00000000.segment");
}

#[test]
fn file_name_fills_with_zeros_to_eight_digits() {
    assert_eq!(file_name(1), "00000001.segment");
    assert_eq!(file_name(42), "00000042.segment");
    assert_eq!(file_name(1_234_567), "01234567.segment");
    assert_eq!(file_name(12_345_678), "12345678.segment");
    assert_eq!(file_name(99_999_999), "99999999.segment");
}

#[test]
fn file_name_keeps_all_digits_of_a_long_offset() {
    assert_eq!(file_name(100_000_000), "100000000.segment");
    assert_eq!(file_name(123_456_789_012), "123456789012.segment");
    assert_eq!(file_name(u64::MAX), "18446744073709551615.segment");
}

#[test]
fn file_name_agrees_with_std_formatting() {
    for n in [0u64, 9, 10, 99, 100, 9_999_999, 10_000_000, 99_999_999, 100_000_000, u64::MAX] {
        assert_eq!(file_name(n), format!("{:08}.{}", n, FILE_EXTENSION));
    }
}

#[test]
fn parse_reads_what_file_name_wrote() {
    for n in [0u64, 1, 7, 10, 42, 12_345_678, 100_000_000, 4_294_967_296, u64::MAX - 1, u64::MAX] {
        assert_eq!(parse_file_name(&file_name(n)), Some(n));
    }
}

#[test]
fn parse_takes_leading_zeros() {
    assert_eq!(parse_file_name("00000000.segment"), Some(0));
    assert_eq!(parse_file_name("0.segment"), Some(0));
    assert_eq!(parse_file_name("007.segment"), Some(7));
    assert_eq!(parse_file_name("000000000000000000000000000012.segment"), Some(12));
}

#[test]
fn parse_takes_a_name_without_the_extension() {
    assert_eq!(parse_file_name("42"), Some(42));
    assert_eq!(parse_file_name("00000042"), Some(42));
}

#[test]
fn parse_takes_a_plus_sign() {
    assert_eq!(parse_file_name("+5.segment"), Some(5));
    assert_eq!(parse_file_name("+5"), Some(5));
}

#[test]
fn parse_agrees_with_std_on_bare_numbers() {
    for text in ["0", "12", "+12", "-12", "", "+", "1a", "a1", " 1", "1 ", "18446744073709551615",
        "18446744073709551616", "99999999999999999999999", "++1", "1+", "0x10", "1_000"]
    {
        assert_eq!(parse_file_name(text), text.parse::<u64>().ok(), "{:?}", text);
    }
}

#[test]
fn parse_takes_the_largest_offset_and_no_more() {
    assert_eq!(parse_file_name("18446744073709551615.segment"), Some(u64::MAX));
    assert_eq!(parse_file_name("18446744073709551616.segment"), None);
    assert_eq!(parse_file_name("18446744073709551620.segment"), None);
    assert_eq!(parse_file_name("99999999999999999999.segment"), None);
    assert_eq!(parse_file_name("100000000000000000000.segment"), None);
}

#[test]
fn parse_refuses_names_without_digits() {
    assert_eq!(parse_file_name(""), None);
    assert_eq!(parse_file_name(".segment"), None);
    assert_eq!(parse_file_name("+.segment"), None);
    assert_eq!(parse_file_name("+"), None);
    assert_eq!(parse_file_name("segment"), None);
}

#[test]
fn parse_refuses_what_is_no_digit() {
    assert_eq!(parse_file_name("abc.segment"), None);
    assert_eq!(parse_file_name("12a4.segment"), None);
    assert_eq!(parse_file_name("-1.segment"), None);
    assert_eq!(parse_file_name("1.5.segment"), None);
    assert_eq!(parse_file_name(" 1.segment"), None);
    assert_eq!(parse_file_name("1 .segment"), None);
    assert_eq!(parse_file_name("1+.segment"), None);
    assert_eq!(parse_file_name("++1.segment"), None);
    assert_eq!(parse_file_name("/.segment"), None);
    assert_eq!(parse_file_name(":.segment"), None);
}

#[test]
fn parse_refuses_other_extensions() {
    assert_eq!(parse_file_name("00000000.log"), None);
    assert_eq!(parse_file_name("00000000.segment.bak"), None);
    assert_eq!(parse_file_name("00000000.segment.segment"), None);
    assert_eq!(parse_file_name("00000000.SEGMENT"), None);
    assert_eq!(parse_file_name("00000000segment"), None);
    assert_eq!(parse_file_name("00000000."), None);
}

#[test]
fn parse_refuses_characters_outside_ascii() {
    assert_eq!(parse_file_name("\u{661}\u{662}.segment"), None);
    assert_eq!(parse_file_name("\u{ff11}"), None);
    assert_eq!(parse_file_name("1\u{e9}.segment"), None);
    assert_eq!(parse_file_name("12.segm\u{e9}nt"), None);
}

#[test]
fn parse_refuses_a_directory_in_front() {
    assert_eq!(parse_file_name("dir/00000000.segment"), None);
}
