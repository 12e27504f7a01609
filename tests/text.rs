use jcd::path::{join_name, name, parent};
use jcd::text::{contains_exec, folded_chars, lex_lt_exec, split_text};

fn cs(s: &str) -> Vec<char> {
    s.chars().collect()
}

#[test]
fn containment_and_order() {
    assert!(contains_exec(&cs("foobar"), &cs("oba")));
    assert!(!contains_exec(&cs("foo"), &cs("oof")));
    assert!(contains_exec(&cs("x"), &cs("")));
    assert!(lex_lt_exec(&cs("/a-c"), &cs("/a/b")));
    assert!(!lex_lt_exec(&cs("b"), &cs("ab")));
}

#[test]
fn folding_lowers_only_when_insensitive() {
    assert_eq!(folded_chars("AbC", false), cs("abc"));
    assert_eq!(folded_chars("AbC", true), cs("AbC"));
}

#[test]
fn path_pieces() {
    assert_eq!(parent("/a/b"), Some("/a".to_string()));
    assert_eq!(parent("/a"), Some("/".to_string()));
    assert_eq!(parent("/"), None);
    assert_eq!(name("/a/bc"), "bc");
    assert_eq!(name("/"), "");
    assert_eq!(join_name("/", "x"), "/x");
    assert_eq!(join_name("/a", "x"), "/a/x");
    assert_eq!(split_text("a//b", '/'), vec!["a".to_string(), "".to_string(), "b".to_string()]);
}
