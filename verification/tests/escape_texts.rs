use mtxt::errors::MtxtError;
use mtxt::escape::{escape_string, unescape_string};

#[test]
fn escape_special_characters() {
    assert_eq!(escape_string("plain"), "plain");
    assert_eq!(escape_string("a\\b"), "a\\\\b");
    assert_eq!(escape_string("a\nb"), "a\\nb");
    assert_eq!(escape_string("a\tb"), "a\\tb");
    assert_eq!(escape_string("say \"hi\""), "say \\\"hi\\\"");
    assert_eq!(escape_string("\u{1}"), "\\x01");
    assert_eq!(escape_string("\u{1f}"), "\\x1F");
}

#[test]
fn unescape_is_exact_inverse() {
    let cases = vec!["plain", "a\\b", "a\nb\tc", "say \"hi\"", "\u{1}\u{1f}", "", "ünïcode"];
    for case in cases {
        let escaped = escape_string(case);
        assert_eq!(unescape_string(&escaped).unwrap(), case);
    }
}

#[test]
fn unescape_rejects_unknown_escapes() {
    assert_eq!(unescape_string("a\\qb").unwrap_err(), MtxtError::InputParse);
    assert_eq!(unescape_string("tail\\").unwrap_err(), MtxtError::InputParse);
    assert_eq!(unescape_string("\\x1").unwrap_err(), MtxtError::InputParse);
    assert_eq!(unescape_string("\\xZZ").unwrap_err(), MtxtError::InputParse);
    assert_eq!(unescape_string("\\x0Ago").unwrap(), "\ngo");
}
