use perfstat::text::{parse_usize, split_trimmed, trim};

#[test]
fn trim_removes_white_space_at_both_ends() {
    assert_eq!(trim("  a b \t\n"), "a b");
    assert_eq!(trim("\u{3000}x\u{a0}"), "x");
    assert_eq!(trim("   "), "");
    assert_eq!(trim(""), "");
}

#[test]
fn split_keeps_empty_fields() {
    assert_eq!(split_trimmed("a, b ,c", ','), vec!["a", "b", "c"]);
    assert_eq!(split_trimmed("1, 2, ", ','), vec!["1", "2", ""]);
    assert_eq!(split_trimmed("", ','), vec![""]);
    assert_eq!(split_trimmed(",", ','), vec!["", ""]);
}

#[test]
fn parse_reads_unsigned_decimals() {
    assert_eq!(parse_usize("0"), Some(0));
    assert_eq!(parse_usize("1234"), Some(1234));
    assert_eq!(parse_usize("+7"), Some(7));
    assert_eq!(parse_usize("007"), Some(7));
    assert_eq!(parse_usize(&usize::MAX.to_string()), Some(usize::MAX));
}

#[test]
fn parse_rejects_what_is_not_a_usize() {
    assert_eq!(parse_usize(""), None);
    assert_eq!(parse_usize("+"), None);
    assert_eq!(parse_usize("-1"), None);
    assert_eq!(parse_usize("1.5"), None);
    assert_eq!(parse_usize(" 1"), None);
    assert_eq!(parse_usize("global"), None);
    assert_eq!(parse_usize("99999999999999999999999"), None);
}
