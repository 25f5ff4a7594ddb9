use hunkpick::text::{dec_string, int_string, ordinal_string, trim_string};

#[test]
fn trimming_removes_unicode_whitespace_at_both_ends_only() {
    assert_eq!(trim_string("  \u{a0}error: x  y\n\t"), "error: x  y");
    assert_eq!(trim_string("\u{3000}\u{2028}"), "");
    assert_eq!(trim_string(""), "");
    assert_eq!(trim_string("a"), "a");
    // Not whitespace: a zero-width space is left where it stands.
    assert_eq!(trim_string("\u{200b}a "), "\u{200b}a");
}

#[test]
fn numbers_are_written_in_decimal() {
    assert_eq!(dec_string(0), "0");
    assert_eq!(dec_string(4294967295), "4294967295");
    assert_eq!(dec_string(u64::MAX), "18446744073709551615");
    assert_eq!(int_string(-42), "-42");
    assert_eq!(int_string(i32::MIN), "-2147483648");
    assert_eq!(int_string(7), "7");
}

#[test]
fn an_ordinal_is_one_past_its_index() {
    assert_eq!(ordinal_string(0), "1");
    assert_eq!(ordinal_string(9), "10");
    assert_eq!(ordinal_string(usize::MAX), (usize::MAX as u128 + 1).to_string());
}
