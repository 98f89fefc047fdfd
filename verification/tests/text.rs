use stadhouder::number::{i64_text, parse_i64, parse_u64_up_to, u64_text};
use stadhouder::text::{
    cat3, ends_with, eq_ignore_ascii_case, has_text, join, replace, same_text, split_at_each,
    split_at_first, starts_with, to_chars, to_text, trim_text, white,
};

fn chars(text: &str) -> Vec<char> {
    to_chars(text)
}

#[test]
fn whitespace_is_trimmed_as_unicode_has_it() {
    assert_eq!(trim_text(" \t\r\na b\u{a0}\u{2003}\u{3000}"), "a b");
    assert_eq!(trim_text(" \n "), "");
    assert_eq!(trim_text("x"), "x");
    for code in 0..0x11_0000u32 {
        if let Some(c) = char::from_u32(code) {
            assert_eq!(white(c), c.is_whitespace());
        }
    }
}

#[test]
fn texts_are_split_and_joined() {
    let pieces = split_at_each(&chars(";a;;b"), ';');
    let texts: Vec<String> = pieces.iter().map(|p| to_text(p)).collect();
    assert_eq!(texts, vec!["", "a", "", "b"]);
    assert_eq!(join(&pieces, '/'), "/a//b");
    assert_eq!(join(&[], '/'), "");
    assert_eq!(split_at_each(&chars(""), ';').len(), 1);
    let line = chars("k=v=w");
    let (k, v) = split_at_first(&line, '=').unwrap();
    assert_eq!((to_text(k), to_text(v)), ("k".to_string(), "v=w".to_string()));
    assert!(split_at_first(&chars("kv"), '=').is_none());
}

#[test]
fn texts_are_compared_and_changed() {
    assert!(same_text("\u{e9}", "\u{e9}") && !same_text("a", "ab"));
    assert!(starts_with(&chars("abc"), &chars("ab")) && !starts_with(&chars("a"), &chars("ab")));
    assert!(ends_with(&chars("abc"), &chars("bc")) && !ends_with(&chars("c"), &chars("bc")));
    assert_eq!(replace(&chars("a-b-"), '-', '_'), "a_b_");
    assert!(eq_ignore_ascii_case(&chars("TrUe"), &chars("true")));
    assert!(!eq_ignore_ascii_case(&chars("\u{c9}"), &chars("\u{e9}")));
    assert_eq!(cat3("a", "", "c"), "ac");
    assert!(has_text(&["x".to_string(), "y".to_string()], "y"));
    assert!(!has_text(&[], "y"));
}

#[test]
fn integers_are_written_and_read() {
    for i in [0, 9, 10, -1, 1234567890, i64::MAX, i64::MIN] {
        assert_eq!(i64_text(i), format!("{i}"));
        assert_eq!(parse_i64(&chars(&i64_text(i))), Some(i));
    }
    assert_eq!(u64_text(u64::MAX), format!("{}", u64::MAX));
    assert_eq!(parse_u64_up_to(&chars("65535"), 65535), Some(65535));
    assert_eq!(parse_u64_up_to(&chars("65536"), 65535), None);
    assert_eq!(parse_u64_up_to(&chars("+7"), 10), Some(7));
    assert_eq!(parse_u64_up_to(&chars("-7"), 10), None);
    assert_eq!(parse_u64_up_to(&chars("18446744073709551616"), u64::MAX), None);
}
