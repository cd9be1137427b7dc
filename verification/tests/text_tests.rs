use bmsupgrade::text::{char_is_ws, chars_of, str_lt};

#[test]
fn chars_of_reads_every_scalar() {
    assert_eq!(chars_of("h\u{e9}llo"), vec!['h', '\u{e9}', 'l', 'l', 'o']);
    assert_eq!(chars_of(""), Vec::<char>::new());
}

#[test]
fn whitespace_predicate_matches_unicode() {
    assert!(char_is_ws(' '));
    assert!(char_is_ws('\t'));
    assert!(char_is_ws('\n'));
    assert!(char_is_ws('\r'));
    assert!(char_is_ws('\u{a0}'));
    assert!(char_is_ws('\u{2003}'));
    assert!(char_is_ws('\u{3000}'));
    assert!(!char_is_ws('x'));
    assert!(!char_is_ws('/'));
    assert!(!char_is_ws('\u{200b}'));
}

#[test]
fn string_order_is_lexicographic_by_scalar() {
    let s = |t: &str| t.to_string();
    assert!(str_lt(&s(""), &s("a")));
    assert!(str_lt(&s("a"), &s("b")));
    assert!(str_lt(&s("a"), &s("ab")));
    assert!(str_lt(&s("ab"), &s("b")));
    assert!(str_lt(&s("Z"), &s("a")));
    assert!(!str_lt(&s("a"), &s("a")));
    assert!(!str_lt(&s("b"), &s("a")));
}
