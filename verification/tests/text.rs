use yoctofy::text::{
    after_last_of, before_first_of, contains_text, joined, pieces_of, replaced, same_text,
    split_at_last_of, starts_with, strip_prefix, trim_end_of, trimmed,
};

#[test]
fn text_prefixes() {
    assert!(starts_with("git+x", "git+"));
    assert!(!starts_with("gi", "git+"));
    assert_eq!(strip_prefix("git+x", "git+"), Some("x"));
    assert_eq!(strip_prefix("x", "git+"), None);
    assert_eq!(strip_prefix("é1", "é"), Some("1"));
}

#[test]
fn text_equality() {
    assert!(same_text("abc", "abc"));
    assert!(!same_text("abc", "abd"));
    assert!(!same_text("abc", "ab"));
}

#[test]
fn text_inside_text() {
    assert!(contains_text("abc", "bc"));
    assert!(contains_text("abc", ""));
    assert!(!contains_text("abc", "cb"));
    assert!(!contains_text("", "a"));
}

#[test]
fn text_before_and_after_a_character() {
    assert_eq!(before_first_of("a?b?c", '?'), "a");
    assert_eq!(before_first_of("abc", '?'), "abc");
    assert_eq!(after_last_of("a/b/c", '/'), "c");
    assert_eq!(after_last_of("abc", '/'), "abc");
    assert_eq!(split_at_last_of("a#b#c", '#'), Some(("a#b", "c")));
    assert_eq!(split_at_last_of("abc", '#'), None);
}

#[test]
fn text_trimmed_at_its_end() {
    assert_eq!(trim_end_of("a//", "/"), "a");
    assert_eq!(trim_end_of("a.git.git", ".git"), "a");
    assert_eq!(trim_end_of("a", "/"), "a");
}

#[test]
fn text_replaced() {
    assert_eq!(replaced("https://a/https://b", "https://", "git://"), "git://a/git://b");
    assert_eq!(replaced("aaa", "aa", "b"), "ba");
    assert_eq!(replaced("a.b", ".", "\\."), "a\\.b");
    assert_eq!(replaced("", "x", "y"), "");
}

#[test]
fn text_pieces_join_to_the_text() {
    let parts = pieces_of("/a//b/", '/');
    assert_eq!(parts, vec!["", "a", "", "b", ""]);
    assert_eq!(joined(&parts, "/"), "/a//b/");
    assert_eq!(pieces_of("", '/'), vec![""]);
    assert_eq!(joined(&[], "/"), "");
}

#[test]
fn text_trimmed_of_white_space() {
    assert_eq!(trimmed("  a b\t\n"), "a b");
    assert_eq!(trimmed("\u{3000}\u{a0}x\u{2028}\u{85}"), "x");
    assert_eq!(trimmed(" \r\n "), "");
    assert_eq!(trimmed("\u{200b}x"), "\u{200b}x");
}

#[test]
fn text_trimmed_as_std_does() {
    for c in '\0'..=char::MAX {
        let s = format!("{c}x{c}");
        assert_eq!(trimmed(&s).len() == 1, c.is_whitespace(), "{:?}", c);
    }
}
