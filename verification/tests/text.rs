use crawler::text::{decimal_text, lines, parse_i64, parse_usize, replace_char, unsigned_text};

#[test]
fn decimal_text_writes_the_digits() {
    assert_eq!(decimal_text(0), "0");
    assert_eq!(decimal_text(7), "7");
    assert_eq!(decimal_text(42), "42");
    assert_eq!(decimal_text(-1), "-1");
    assert_eq!(decimal_text(1234567890), "1234567890");
    assert_eq!(decimal_text(i64::MAX), "9223372036854775807");
    assert_eq!(decimal_text(i64::MIN), "-9223372036854775808");
    assert_eq!(unsigned_text(u64::MAX), "18446744073709551615");
    assert_eq!(unsigned_text(100), "100");
}

#[test]
fn replace_char_turns_every_occurrence() {
    assert_eq!(replace_char("owner/name", '/', "-"), "owner-name");
    assert_eq!(replace_char("//a//", '/', "-"), "--a--");
    assert_eq!(replace_char("plain", '/', "-"), "plain");
    assert_eq!(replace_char("", '/', "-"), "");
    assert_eq!(replace_char("a/b/c", '/', "::"), "a::b::c");
    assert_eq!(replace_char("a/b/", '/', ""), "ab");
}

#[test]
fn parse_i64_reads_signed_decimals() {
    assert_eq!(parse_i64("12"), Some(12));
    assert_eq!(parse_i64("-12"), Some(-12));
    assert_eq!(parse_i64("+7"), Some(7));
    assert_eq!(parse_i64("007"), Some(7));
    assert_eq!(parse_i64("0"), Some(0));
    assert_eq!(parse_i64("-0"), Some(0));
    assert_eq!(parse_i64("9223372036854775807"), Some(i64::MAX));
    assert_eq!(parse_i64("-9223372036854775808"), Some(i64::MIN));
}

#[test]
fn parse_i64_refuses_what_is_no_number_or_does_not_fit() {
    assert_eq!(parse_i64(""), None);
    assert_eq!(parse_i64("-"), None);
    assert_eq!(parse_i64("+"), None);
    assert_eq!(parse_i64("1a"), None);
    assert_eq!(parse_i64(" 1"), None);
    assert_eq!(parse_i64("--1"), None);
    assert_eq!(parse_i64("+-1"), None);
    assert_eq!(parse_i64("٣"), None);
    assert_eq!(parse_i64("9223372036854775808"), None);
    assert_eq!(parse_i64("-9223372036854775809"), None);
    assert_eq!(parse_i64("99999999999999999999999999999999999999999"), None);
}

#[test]
fn parse_usize_takes_no_minus_sign() {
    assert_eq!(parse_usize("0"), Some(0));
    assert_eq!(parse_usize("+15"), Some(15));
    assert_eq!(parse_usize("18446744073709551615"), Some(usize::MAX));
    assert_eq!(parse_usize("18446744073709551616"), None);
    assert_eq!(parse_usize("-1"), None);
    assert_eq!(parse_usize(""), None);
    assert_eq!(parse_usize("1 2"), None);
}

#[test]
fn lines_splits_at_newlines() {
    let list = |v: &[&str]| v.iter().map(|s| s.to_string()).collect::<Vec<String>>();
    assert_eq!(lines("a\nb"), list(&["a", "b"]));
    assert_eq!(lines("a\nb\n"), list(&["a", "b"]));
    assert_eq!(lines("a\r\nb\r\n"), list(&["a", "b"]));
    assert_eq!(lines(""), list(&[]));
    assert_eq!(lines("\n"), list(&[""]));
    assert_eq!(lines("a\n\nb"), list(&["a", "", "b"]));
    assert_eq!(lines("a\r"), list(&["a\r"]));
    assert_eq!(lines("a\rb\n"), list(&["a\rb"]));
    assert_eq!(lines("\r\n\r\n"), list(&["", ""]));
}
