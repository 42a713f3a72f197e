use lbs::focus::{focus_backend, focus_step, FocusBackend, FocusNext, FocusQuery, FocusReply};
use lbs::ui::clean_name;
use lbs::text::{
    after_last, chars_of, contains, decimal, ends_with, is_whitespace, lines, parse_u32, parse_u64,
    replace_all, split_first, split_second, split_whitespace, starts_with, trim,
};

#[test]
fn trim_strips_unicode_white_space() {
    assert_eq!(trim("  a b \t\n"), "a b");
    assert_eq!(trim("\u{3000}x\u{a0}"), "x");
    assert_eq!(trim("   "), "");
    assert_eq!(trim(""), "");
    assert!(is_whitespace('\u{2009}'));
    assert!(!is_whitespace('x'));
    assert_eq!(chars_of("héllo"), vec!['h', 'é', 'l', 'l', 'o']);
}

#[test]
fn split_pieces() {
    assert_eq!(split_second("a--b--c", "--"), Some("b".to_string()));
    assert_eq!(split_second("a--b", "--"), Some("b".to_string()));
    assert_eq!(split_second("ab", "--"), None);
    assert_eq!(split_second("a----b", "--"), Some("".to_string()));
    assert_eq!(split_first("x,y,z", ","), "x");
    assert_eq!(split_first("xyz", ","), "xyz");
    assert_eq!(after_last("PID: 12", ':'), " 12");
    assert_eq!(after_last("a:b:c", ':'), "c");
    assert_eq!(after_last("abc", ':'), "abc");
}

#[test]
fn searching() {
    assert!(contains("firefox-bin", "-bin"));
    assert!(!contains("firefox", "-bin"));
    assert!(contains("abc", ""));
    assert!(starts_with("Icon=foo", "Icon="));
    assert!(!starts_with("Ico", "Icon="));
    assert!(ends_with("a.desktop", ".desktop"));
    assert!(!ends_with("desktop", ".desktop"));
}

#[test]
fn replace_all_replaces_without_overlap() {
    assert_eq!(replace_all("aaa", "aa", "b"), "ba");
    assert_eq!(replace_all("Icon=Icon=x", "Icon=", ""), "x");
    assert_eq!(replace_all("foo-bin-bin", "-bin", ""), "foo");
    assert_eq!(replace_all("abc", "z", "y"), "abc");
}

#[test]
fn parsing_numbers() {
    assert_eq!(parse_u32("42"), Some(42));
    assert_eq!(parse_u32("+42"), Some(42));
    assert_eq!(parse_u32("007"), Some(7));
    assert_eq!(parse_u32(""), None);
    assert_eq!(parse_u32("+"), None);
    assert_eq!(parse_u32("-1"), None);
    assert_eq!(parse_u32(" 1"), None);
    assert_eq!(parse_u32("4294967295"), Some(4294967295));
    assert_eq!(parse_u32("4294967296"), None);
    assert_eq!(parse_u64("18446744073709551615"), Some(u64::MAX));
    assert_eq!(parse_u64("18446744073709551616"), None);
    assert_eq!(parse_u64("99999999999999999999999"), None);
    assert_eq!(parse_u64("12a"), None);
}

#[test]
fn words_lines_and_numbers() {
    assert_eq!(split_whitespace("  a  bc\td\n"), vec!["a", "bc", "d"]);
    assert!(split_whitespace("   ").is_empty());
    assert_eq!(lines("a\nb\r\n\nc"), vec!["a", "b", "", "c"]);
    assert_eq!(lines("a\n"), vec!["a"]);
    assert_eq!(lines("a\r"), vec!["a\r"]);
    assert!(lines("").is_empty());
    assert_eq!(decimal(0), "0");
    assert_eq!(decimal(1234), "1234");
    assert_eq!(decimal(u32::MAX), "4294967295");
}

#[test]
fn std_conversions() {
    assert_eq!(clean_name("ÀBC-bin"), "àbc");
    assert!(matches!(focus_backend(false, false, "ÀKDE", "WAYLAND"), FocusBackend::KdeWayland));
    let q = FocusQuery::X11WindowPid { window_id: "0x1".to_string() };
    assert!(matches!(focus_step(&q, FocusReply::Output(b"_NET_WM_PID = 41\n".to_vec())), FocusNext::Found(41)));
    assert!(matches!(focus_step(&q, FocusReply::Output(vec![b'=', b' ', b'4', 0xff])), FocusNext::Found(0)));
}
