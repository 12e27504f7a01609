use jcd::cli::{get_ignore_file_paths, parse_arguments, parse_index, select_match};
use jcd::ranking::{DirectoryMatch, MatchQuality};

fn args(a: &[&str]) -> Vec<String> {
    a.iter().map(|s| s.to_string()).collect()
}

#[test]
fn no_term_is_refused() {
    assert!(parse_arguments(&args(&["jcd"])).is_none());
    assert!(parse_arguments(&args(&["jcd", "-i", "-x", "--quiet"])).is_none());
    assert!(parse_arguments(&args(&[])).is_none());
}

#[test]
fn flags_term_and_index() {
    let o = parse_arguments(&args(&["jcd", "-i", "src", "2", "--quiet", "-x"])).unwrap();
    assert_eq!(o.search_term, "src");
    assert_eq!(o.tab_index, 2);
    assert!(!o.case_sensitive);
    assert!(o.quiet);
    assert!(o.bypass_ignore);
    let d = parse_arguments(&args(&["jcd", "src"])).unwrap();
    assert_eq!(d.tab_index, 0);
    assert!(d.case_sensitive);
    assert!(!d.quiet);
    assert!(!d.bypass_ignore);
}

#[test]
fn invalid_index_reads_as_zero() {
    let o = parse_arguments(&args(&["jcd", "src", "abc", "3"])).unwrap();
    assert_eq!(o.tab_index, 3);
    let p = parse_arguments(&args(&["jcd", "src", "4", "5"])).unwrap();
    assert_eq!(p.tab_index, 4);
}

#[test]
fn index_parsing() {
    assert_eq!(parse_index("42"), Some(42));
    assert_eq!(parse_index("+7"), Some(7));
    assert_eq!(parse_index("0"), Some(0));
    assert_eq!(parse_index(""), None);
    assert_eq!(parse_index("+"), None);
    assert_eq!(parse_index("-1"), None);
    assert_eq!(parse_index("1x"), None);
    assert_eq!(parse_index("18446744073709551615"), Some(usize::MAX));
    assert_eq!(parse_index("18446744073709551616"), None);
}

#[test]
fn selection_by_index() {
    let ms = vec![
        DirectoryMatch { path: "/a".to_string(), depth_from_current: 1, match_quality: MatchQuality::ExactDown },
        DirectoryMatch { path: "/b".to_string(), depth_from_current: 1, match_quality: MatchQuality::PrefixDown },
    ];
    assert_eq!(select_match(&ms, 0), Some("/a".to_string()));
    assert_eq!(select_match(&ms, 1), Some("/b".to_string()));
    assert_eq!(select_match(&ms, 2), None);
    assert_eq!(select_match(&Vec::new(), 0), None);
}

#[test]
fn ignore_file_candidates_in_order() {
    let p = get_ignore_file_paths(Some("/w"), None, Some("/home/u"));
    assert_eq!(
        p,
        vec![
            "/w/.jcdignore".to_string(),
            "/home/u/.config/jcd/ignore".to_string(),
            "/home/u/.jcdignore".to_string(),
            "/etc/jcd/ignore".to_string(),
        ]
    );
    let q = get_ignore_file_paths(None, Some("/cfg"), None);
    assert_eq!(q, vec!["/cfg/jcd/ignore".to_string(), "/etc/jcd/ignore".to_string()]);
    let r = get_ignore_file_paths(None, None, None);
    assert_eq!(r, vec![".config/jcd/ignore".to_string(), "/etc/jcd/ignore".to_string()]);
}
