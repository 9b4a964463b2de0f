use trusty::utils::make_text_single_line;
use trusty::utils::parse_decimal;
use trusty::utils::slice_text;
use trusty::utils::str_eq;
use trusty::utils::truncate_rich_text;
use trusty::utils::usize_to_string;

#[test]
fn test_slice_text() {
    let result = slice_text(0, 3, "foobar");
    assert_eq!(result, "foo");
    let result_2 = slice_text(2, 5, "foobar");
    assert_eq!(result_2, "oba");
    let result_3 = slice_text(0, 999, "foobar");
    assert_eq!(result_3, "foobar");
    let result_4 = slice_text(999, 0, "foobar");
    assert_eq!(result_4, "foobar");
}

#[test]
fn test_make_text_single_line() {
    let result = make_text_single_line("Hello my name is: \r\n🤷🏾🥷 \r\nIDK ninja!");
    assert_eq!(result, "Hello my name is: 🤷🏾🥷 IDK ninja!");
    let result_2 = make_text_single_line("\r\n");
    assert_eq!(result_2, "");
    let result_3 = make_text_single_line("Hello my name is 🤷🏾🥷");
    assert_eq!(result_3, "Hello my name is 🤷🏾🥷");
}

#[test]
fn test_truncate_rich_text() {
    let result_1 = truncate_rich_text("🤷🏾🥷🏽🦀😀", 2);
    assert_eq!(result_1, "🤷🏾");
    let result_2 = truncate_rich_text("🤷🏾🥷🏽🦀😀", 4);
    assert_eq!(result_2, "🤷🏾🥷🏽");
    let result_3 = truncate_rich_text("A🥷🏽B😀", 4);
    assert_eq!(result_3, "A🥷🏽B");
    let result_4 = truncate_rich_text("A🥷🏽B😀", 3);
    assert_eq!(result_4, "A🥷🏽");
    let result_5 = truncate_rich_text("🤷🏾🥷🏽🦀😀", 5);
    assert_eq!(result_5, "🤷🏾🥷🏽");
    let result_6 = truncate_rich_text("A🤷🏾BCD🥷🏽🦀E😀FGHI JKLMN", 999);
    assert_eq!(result_6, "A🤷🏾BCD🥷🏽🦀E😀FGHI JKLMN");
    let result_7 = truncate_rich_text("A🤷🏾BCD🥷🏽🦀E😀FGHI JKLMN", 0);
    assert_eq!(result_7, "");
}

#[test]
fn test_parse_decimal() {
    assert_eq!(parse_decimal("0"), Some(0));
    assert_eq!(parse_decimal("12034"), Some(12034));
    assert_eq!(parse_decimal(""), None);
    assert_eq!(parse_decimal("12a"), None);
    assert_eq!(parse_decimal("-5"), None);
    assert_eq!(parse_decimal("18446744073709551615"), Some(u64::MAX));
    assert_eq!(parse_decimal("18446744073709551616"), None);
}

#[test]
fn test_usize_to_string() {
    assert_eq!(usize_to_string(0), "0");
    assert_eq!(usize_to_string(7), "7");
    assert_eq!(usize_to_string(12034), "12034");
}

#[test]
fn test_str_eq() {
    assert!(str_eq("", ""));
    assert!(str_eq("föö", "föö"));
    assert!(!str_eq("foo", "fo"));
    assert!(!str_eq("foo", "fob"));
}
