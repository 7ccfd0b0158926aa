//! The path codec on its own: truncation and segment splitting.

use fsdb::maxify;
use fsdb::resolve_segments;
use fsdb::split_segments;

#[test]
fn maxify_truncates_to_limit() {
    assert_eq!(maxify("keythatisverylong", Some(8)), "keythati".to_string());
    assert_eq!(maxify("ab", Some(8)), "ab".to_string());
    assert_eq!(maxify("ab", None), "ab".to_string());
    assert_eq!(maxify("abc", Some(3)), "abc".to_string());
    assert_eq!(maxify("abc", Some(0)), "".to_string());
    assert_eq!(maxify("", Some(4)), "".to_string());
}

#[test]
fn split_skips_empty_segments() {
    assert_eq!(split_segments("a/b/c"), vec!["a", "b", "c"]);
    assert_eq!(split_segments("/a//b/c/"), vec!["a", "b", "c"]);
    assert_eq!(split_segments(""), Vec::<String>::new());
    assert_eq!(split_segments("///"), Vec::<String>::new());
    assert_eq!(split_segments("one"), vec!["one"]);
}

#[test]
fn resolve_truncates_each_segment() {
    assert_eq!(resolve_segments("alpha/bravo/c", Some(4)), vec!["alph", "brav", "c"]);
    assert_eq!(resolve_segments("/abs/x", Some(2)), vec!["ab", "x"]);
    assert_eq!(resolve_segments("a//b/", None), vec!["a", "b"]);
}
