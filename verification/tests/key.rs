use zed_haskell::key::split_key;
use zed_haskell::text::same_text;

#[test]
fn splits_at_every_dot() {
    assert_eq!(
        split_key("haskell.plugin.eval.globalOn"),
        vec!["haskell", "plugin", "eval", "globalOn"]
    );
}

#[test]
fn text_without_dot_is_one_segment() {
    assert_eq!(split_key("haskell"), vec!["haskell"]);
}

#[test]
fn empty_text_is_one_empty_segment() {
    assert_eq!(split_key(""), vec![""]);
}

#[test]
fn dots_at_the_ends_and_in_a_row_give_empty_segments() {
    assert_eq!(split_key("."), vec!["", ""]);
    assert_eq!(split_key(".a"), vec!["", "a"]);
    assert_eq!(split_key("a."), vec!["a", ""]);
    assert_eq!(split_key("a..b"), vec!["a", "", "b"]);
    assert_eq!(split_key("..."), vec!["", "", "", ""]);
}

#[test]
fn splits_like_the_standard_library() {
    for key in ["", ".", "a", "a.b", "a..b.", ".x.y", "h\u{e9}.\u{4e16}\u{754c}.\u{1f600}z. .end"] {
        let expected: Vec<&str> = key.split('.').collect();
        assert_eq!(split_key(key), expected);
    }
}

#[test]
fn characters_of_several_bytes_stay_whole() {
    assert_eq!(
        split_key("\u{e9}t\u{e9}.\u{4e16}\u{754c}.\u{1f600}"),
        vec!["\u{e9}t\u{e9}", "\u{4e16}\u{754c}", "\u{1f600}"]
    );
}

#[test]
fn segments_joined_by_dots_are_the_key() {
    for key in ["", "a", "a.b.c", "..", "x..y."] {
        assert_eq!(split_key(key).join("."), key);
    }
}

#[test]
fn same_text_is_equality() {
    assert!(same_text("", ""));
    assert!(same_text("scope", "scope"));
    assert!(same_text("\u{e9}t\u{e9}", "\u{e9}t\u{e9}"));
    assert!(!same_text("scope", "scopes"));
    assert!(!same_text("scope", "scopf"));
    assert!(!same_text("scope", "Scope"));
    assert!(!same_text("", "a"));
    assert!(!same_text("\u{e9}", "e"));
}
