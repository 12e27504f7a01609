use jcd::resolve::resolve_search_context;

fn res(cwd: &str, term: &str) -> (String, String) {
    resolve_search_context(cwd, term)
}

#[test]
fn empty_term_stays() {
    assert_eq!(res("/a/b", ""), ("/a/b".to_string(), "".to_string()));
}

#[test]
fn dot_dot_goes_up() {
    assert_eq!(res("/a/b", ".."), ("/a".to_string(), "".to_string()));
    assert_eq!(res("/a", ".."), ("/".to_string(), "".to_string()));
    assert_eq!(res("/", ".."), ("/".to_string(), "".to_string()));
}

#[test]
fn dot_stays() {
    assert_eq!(res("/a/b", "."), ("/a/b".to_string(), "".to_string()));
}

#[test]
fn relative_walk_takes_first_component() {
    assert_eq!(res("/a/b/c", "../foo"), ("/a/b".to_string(), "foo".to_string()));
    assert_eq!(res("/a/b/c", "../../foo/bar"), ("/a".to_string(), "foo".to_string()));
    assert_eq!(res("/a/b/c", "./x"), ("/a/b/c".to_string(), "x".to_string()));
    assert_eq!(res("/a/b/c", "./../y"), ("/a/b".to_string(), "y".to_string()));
}

#[test]
fn multi_level_ascent() {
    assert_eq!(res("/a/b/c", "../../"), ("/a".to_string(), "".to_string()));
    assert_eq!(res("/a/b/c", "../.."), ("/a".to_string(), "".to_string()));
    assert_eq!(res("/a/b/c", "../../../../.."), ("/".to_string(), "".to_string()));
    assert_eq!(res("/a/b/c", "/.."), ("/a/b/c".to_string(), "".to_string()));
    assert_eq!(res("/a/b/c", "..."), ("/a/b/c".to_string(), "".to_string()));
}

#[test]
fn other_terms_unchanged() {
    assert_eq!(res("/a", "foo"), ("/a".to_string(), "foo".to_string()));
    assert_eq!(res("/a", "foo/bar"), ("/a".to_string(), "foo/bar".to_string()));
    assert_eq!(res("/a", "/abs/x"), ("/a".to_string(), "/abs/x".to_string()));
}

#[test]
fn trailing_separator_on_current_directory() {
    assert_eq!(res("/home/u/", ".."), ("/home".to_string(), "".to_string()));
    assert_eq!(res("/a/b/", "../x"), ("/a".to_string(), "x".to_string()));
    assert_eq!(res("/a/b/", "./x"), ("/a/b/".to_string(), "x".to_string()));
}
