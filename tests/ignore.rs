use jcd::ignore::{load_ignore_patterns, parse_ignore_patterns, should_ignore_directory, MAX_IGNORE_PATTERNS};

#[test]
fn comments_blank_and_invalid_lines_are_skipped() {
    let ps = parse_ignore_patterns("# c\n\n  target  \n(unclosed\n^\\.git$\r\n");
    let srcs: Vec<&str> = ps.iter().map(|p| p.source()).collect();
    assert_eq!(srcs, vec!["target", "^\\.git$"]);
}

#[test]
fn patterns_match_anywhere_in_the_name() {
    let ps = parse_ignore_patterns("arg\n^\\.git$");
    assert!(should_ignore_directory("target", &ps));
    assert!(should_ignore_directory(".git", &ps));
    assert!(!should_ignore_directory(".github", &ps));
    assert!(!should_ignore_directory("src", &ps));
}

#[test]
fn no_patterns_ignore_nothing() {
    let ps = parse_ignore_patterns("");
    assert!(ps.is_empty());
    assert!(!should_ignore_directory("anything", &ps));
}

#[test]
fn loading_stops_at_the_cap() {
    let mut content = String::new();
    for i in 0..150 {
        content.push_str(&format!("p{}\n", i));
    }
    let ps = parse_ignore_patterns(&content);
    assert_eq!(ps.len(), MAX_IGNORE_PATTERNS);
    assert_eq!(ps[99].source(), "p99");
}

#[test]
fn oversized_pattern_is_skipped() {
    let ps = parse_ignore_patterns("a{1000}{1000}\nok");
    let srcs: Vec<&str> = ps.iter().map(|p| p.source()).collect();
    assert_eq!(srcs, vec!["ok"]);
}

#[test]
fn first_readable_file_wins() {
    let contents = vec![None, Some("first\n".to_string()), Some("second\n".to_string())];
    let ps = load_ignore_patterns(&contents);
    let srcs: Vec<&str> = ps.iter().map(|p| p.source()).collect();
    assert_eq!(srcs, vec!["first"]);
    assert!(load_ignore_patterns(&vec![None, None]).is_empty());
}
