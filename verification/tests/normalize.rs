use rsame::norm::{
    char_is_space, eq_ignoring_whitespace, line_is_blank, squash_whitespace, Options,
};

fn chars(s: &str) -> Vec<char> {
    s.chars().collect()
}

#[test]
fn squash_collapses_runs() {
    assert_eq!(squash_whitespace("a  b"), chars("a b"));
    assert_eq!(squash_whitespace("a\t\n b"), chars("a b"));
    assert_eq!(squash_whitespace("ab"), chars("ab"));
}

#[test]
fn squash_keeps_boundary_spaces() {
    // Runs collapse to a single space but are not trimmed away.
    assert_eq!(squash_whitespace("  a  "), chars(" a "));
    assert_eq!(squash_whitespace("   "), chars(" "));
    assert_eq!(squash_whitespace(""), chars(""));
}

#[test]
fn eq_ignoring_whitespace_examples() {
    assert!(eq_ignoring_whitespace("a \t b", "a b"));
    assert!(eq_ignoring_whitespace("", ""));
    assert!(!eq_ignoring_whitespace("a b", "ab"));
    assert!(!eq_ignoring_whitespace(" a", "a"));
}

#[test]
fn blank_detection() {
    assert!(line_is_blank(""));
    assert!(line_is_blank(" \t\r"));
    assert!(!line_is_blank(" a "));
}

#[test]
fn unicode_whitespace_recognized() {
    assert!(char_is_space('\u{a0}'));
    assert!(char_is_space('\u{3000}'));
    assert!(!char_is_space('a'));
    assert!(line_is_blank("\u{2003}\u{2028}"));
}

#[test]
fn options_fields() {
    let o = Options { ignore_whitespace: true, ignore_blank_lines: false };
    assert!(o.ignore_whitespace);
    assert!(!o.ignore_blank_lines);
    let n = Options::none();
    assert!(!n.ignore_whitespace && !n.ignore_blank_lines);
}
