use jcd::absolute::{find_search_root_and_pattern, list_or_self, search_absolute_path};
use jcd::budget::SearchContext;
use jcd::engine::{find_matching_directories, find_matching_directories_within, search_directories};
use jcd::ignore::{parse_ignore_patterns, IgnorePattern};
use jcd::ranking::{DirectoryMatch, MatchQuality};
use jcd::search::{breadth_first_search, search_down_breadth_first_all, search_up_tree_with_priority};
use jcd::segments::search_path_pattern_fast;

/// A directory tree held in memory: every directory path it contains.
struct Tree {
    dirs: Vec<String>,
}

impl Tree {
    fn new(dirs: &[&str]) -> Tree {
        let mut all: Vec<String> = vec!["/".to_string()];
        for d in dirs {
            all.push(d.to_string());
        }
        Tree { dirs: all }
    }

    fn list(&self, dir: &str) -> Option<Vec<String>> {
        if !self.is_dir(dir) {
            return None;
        }
        let prefix = if dir.ends_with('/') { dir.to_string() } else { format!("{}/", dir) };
        let mut names: Vec<String> = self
            .dirs
            .iter()
            .filter(|d| d.starts_with(&prefix) && d.len() > prefix.len() && !d[prefix.len()..].contains('/'))
            .map(|d| d[prefix.len()..].to_string())
            .collect();
        names.sort();
        Some(names)
    }

    fn is_dir(&self, p: &str) -> bool {
        self.dirs.iter().any(|d| d == p)
    }
}

fn run(tree: &Tree, cwd: &str, term: &str, ignore: &Vec<IgnorePattern>) -> Vec<DirectoryMatch> {
    let list = |d: &str| tree.list(d);
    let is_dir = |d: &str| tree.is_dir(d);
    search_directories(cwd, term, true, ignore, &list, &is_dir)
}

fn paths(r: &[DirectoryMatch]) -> Vec<String> {
    r.iter().map(|m| m.path.clone()).collect()
}

fn project() -> Tree {
    Tree::new(&["/home", "/home/u", "/home/u/projA", "/home/u/projA/src", "/home/u/projA/src/utils", "/home/u/projA/docs"])
}

#[test]
fn dot_yields_current_directory() {
    let t = project();
    let r = run(&t, "/home/u/projA", ".", &Vec::new());
    assert_eq!(r.len(), 1);
    assert_eq!(r[0].path, "/home/u/projA");
    assert_eq!(r[0].depth_from_current, 0);
    assert_eq!(r[0].match_quality, MatchQuality::ExactDown);
}

#[test]
fn dot_dot_yields_parent() {
    let t = project();
    let r = run(&t, "/home/u/projA", "..", &Vec::new());
    assert_eq!(paths(&r), vec!["/home/u".to_string()]);
    assert_eq!(r[0].depth_from_current, 0);
    assert_eq!(r[0].match_quality, MatchQuality::ExactDown);
}

#[test]
fn immediate_child_ranks_first() {
    let t = project();
    let r = run(&t, "/home/u/projA", "src", &Vec::new());
    assert_eq!(r[0].path, "/home/u/projA/src");
    assert_eq!(r[0].depth_from_current, 1);
    assert_eq!(r[0].match_quality, MatchQuality::ExactDown);
}

#[test]
fn deep_phase_finds_grandchild() {
    let t = project();
    let r = run(&t, "/home/u/projA", "utils", &Vec::new());
    assert_eq!(paths(&r), vec!["/home/u/projA/src/utils".to_string()]);
    assert_eq!(r[0].depth_from_current, 2);
    assert_eq!(r[0].match_quality, MatchQuality::ExactDown);
}

#[test]
fn early_stop_on_exact_child() {
    let t = Tree::new(&["/r", "/r/foo", "/r/foo/foobar"]);
    let r = run(&t, "/r", "foo", &Vec::new());
    assert_eq!(paths(&r), vec!["/r/foo".to_string()]);
}

#[test]
fn ignored_directory_is_neither_found_nor_entered() {
    let t = Tree::new(&["/r", "/r/node_modules", "/r/node_modules/lib", "/r/a", "/r/a/lib2"]);
    let ignore = parse_ignore_patterns("# comment\n\nnode_modules\n");
    assert_eq!(ignore.len(), 1);
    let r = run(&t, "/r", "lib", &ignore);
    assert_eq!(paths(&r), vec!["/r/a/lib2".to_string()]);
    let r2 = run(&t, "/r", "node", &ignore);
    assert!(r2.is_empty());
}

#[test]
fn ignored_ancestor_is_skipped_and_ascent_continues() {
    let t = Tree::new(&["/work", "/work/build", "/work/build/x"]);
    let ignore = parse_ignore_patterns("^build$");
    let r = run(&t, "/work/build/x", "w", &ignore);
    assert_eq!(paths(&r), vec!["/work".to_string()]);
    assert_eq!(r[0].depth_from_current, -2);
    assert_eq!(r[0].match_quality, MatchQuality::PartialUp);
}

#[test]
fn absolute_trailing_slash_lists_children() {
    let t = Tree::new(&["/tmp", "/tmp/a", "/tmp/b", "/tmp/a/deep"]);
    let r = run(&t, "/home", "/tmp/", &Vec::new());
    assert_eq!(paths(&r), vec!["/tmp/a".to_string(), "/tmp/b".to_string()]);
    for m in &r {
        assert_eq!(m.depth_from_current, 1);
        assert_eq!(m.match_quality, MatchQuality::PrefixDown);
    }
}

#[test]
fn absolute_trailing_slash_without_children_is_the_directory() {
    let t = Tree::new(&["/tmp"]);
    let r = run(&t, "/home", "/tmp/", &Vec::new());
    assert_eq!(paths(&r), vec!["/tmp".to_string()]);
    assert_eq!(r[0].depth_from_current, 0);
    assert_eq!(r[0].match_quality, MatchQuality::ExactDown);
}

#[test]
fn list_or_self_on_empty_directory() {
    let t = Tree::new(&["/tmp"]);
    let list = |d: &str| t.list(d);
    let r = list_or_self("/tmp", true, &Vec::new(), &list);
    assert_eq!(paths(&r), vec!["/tmp".to_string()]);
}

#[test]
fn absolute_existing_path_is_itself() {
    let t = project();
    let r = run(&t, "/", "/home/u", &Vec::new());
    assert_eq!(paths(&r), vec!["/home/u".to_string()]);
    assert_eq!(r[0].depth_from_current, 0);
}

#[test]
fn absolute_missing_path_searches_from_existing_prefix() {
    let t = project();
    let is_dir = |d: &str| t.is_dir(d);
    let (root, pat) = find_search_root_and_pattern("/home/u/proj/x", &is_dir);
    assert_eq!(root, Some("/home/u".to_string()));
    assert_eq!(pat, "proj");
    let list = |d: &str| t.list(d);
    let r = search_absolute_path("/home/u/proj/x", true, &Vec::new(), &list, &is_dir);
    assert_eq!(paths(&r), vec!["/home/u/projA".to_string()]);
    assert_eq!(r[0].match_quality, MatchQuality::PrefixDown);
}

#[test]
fn find_search_root_falls_back_to_root() {
    let is_dir = |_d: &str| false;
    let (root, pat) = find_search_root_and_pattern("/nothing/here", &is_dir);
    assert_eq!(root, Some("/".to_string()));
    assert_eq!(pat, "nothing");
}

#[test]
fn segment_pattern_resolves_in_order() {
    let t = project();
    let r = run(&t, "/home/u", "projA/src", &Vec::new());
    assert_eq!(paths(&r), vec!["/home/u/projA/src".to_string()]);
    assert_eq!(r[0].depth_from_current, 2);
    assert_eq!(r[0].match_quality, MatchQuality::ExactDown);
}

#[test]
fn segment_pattern_through_an_ancestor() {
    let t = project();
    let r = run(&t, "/home/u/projA/docs", "projA/src", &Vec::new());
    assert_eq!(paths(&r), vec!["/home/u/projA/src".to_string()]);
    assert_eq!(r[0].depth_from_current, 0);
    assert_eq!(r[0].match_quality, MatchQuality::ExactUp);
}

#[test]
fn segment_search_is_budgeted() {
    let mut dirs: Vec<String> = vec!["/r".to_string()];
    for i in 0..30 {
        dirs.push(format!("/r/a{:02}", i));
        dirs.push(format!("/r/a{:02}/b", i));
    }
    let refs: Vec<&str> = dirs.iter().map(|s| s.as_str()).collect();
    let t = Tree::new(&refs);
    let list = |d: &str| t.list(d);
    let mut ctx = SearchContext::new();
    let mut matches = Vec::new();
    search_path_pattern_fast("/r", "a/b", &mut matches, &mut ctx, true, &Vec::new(), &list);
    assert_eq!(matches.len(), 20);
    assert_eq!(ctx.current_matches, 20);
}

#[test]
fn deep_phase_is_budgeted() {
    let mut dirs: Vec<String> = vec!["/r".to_string()];
    for i in 0..30 {
        dirs.push(format!("/r/d{:02}", i));
        dirs.push(format!("/r/d{:02}/x", i));
    }
    let refs: Vec<&str> = dirs.iter().map(|s| s.as_str()).collect();
    let t = Tree::new(&refs);
    let list = |d: &str| t.list(d);
    let mut ctx = SearchContext::new();
    let r = search_down_breadth_first_all("/r", "x", true, &Vec::new(), &list, &mut ctx);
    assert_eq!(r.len(), 20);
    let mut free = SearchContext::new();
    let all = breadth_first_search("/r", "x", true, &Vec::new(), &list, false, &mut free);
    assert_eq!(all.len(), 30);
}

#[test]
fn upward_exact_before_partial() {
    let r = search_up_tree_with_priority("/src/lib/src2/src/here", "src", true, &Vec::new());
    assert_eq!(paths(&r), vec!["/src/lib/src2/src".to_string(), "/src".to_string(), "/src/lib/src2".to_string()]);
    assert_eq!(r[0].depth_from_current, -1);
    assert_eq!(r[0].match_quality, MatchQuality::ExactUp);
    assert_eq!(r[1].depth_from_current, -4);
    assert_eq!(r[2].match_quality, MatchQuality::PartialUp);
}

#[test]
fn case_insensitive_matching() {
    let t = Tree::new(&["/r", "/r/Docs"]);
    let list = |d: &str| t.list(d);
    let is_dir = |d: &str| t.is_dir(d);
    let r = find_matching_directories("/r", "docs", false, &Vec::new(), &list, &is_dir);
    assert_eq!(paths(&r), vec!["/r/Docs".to_string()]);
    assert_eq!(r[0].match_quality, MatchQuality::ExactDown);
    let r2 = find_matching_directories("/r", "docs", true, &Vec::new(), &list, &is_dir);
    assert!(r2.is_empty());
}

#[test]
fn results_have_no_duplicate_paths_and_follow_buckets() {
    let t = Tree::new(&["/a", "/a/b", "/a/b/ab", "/a/b/ab/abc", "/a/b/xab"]);
    let r = run(&t, "/a/b", "ab", &Vec::new());
    let p = paths(&r);
    let mut sorted = p.clone();
    sorted.sort();
    sorted.dedup();
    assert_eq!(sorted.len(), p.len());
    assert_eq!(p, vec!["/a/b/ab".to_string(), "/a/b/xab".to_string()]);
}

#[test]
fn spent_budget_adds_nothing_to_segment_search() {
    let t = project();
    let list = |d: &str| t.list(d);
    let mut ctx = SearchContext::new();
    for _ in 0..20 {
        ctx.add_match();
    }
    assert!(!ctx.proceed());
    let mut matches = Vec::new();
    search_path_pattern_fast("/home/u", "projA/src", &mut matches, &mut ctx, true, &Vec::new(), &list);
    assert!(matches.is_empty());
}

#[test]
fn deep_phase_reaches_nine_levels() {
    let t = Tree::new(&[
        "/r", "/r/a", "/r/a/b", "/r/a/b/c", "/r/a/b/c/d", "/r/a/b/c/d/e", "/r/a/b/c/d/e/f", "/r/a/b/c/d/e/f/g",
        "/r/a/b/c/d/e/f/g/h", "/r/a/b/c/d/e/f/g/h/zz", "/r/a/b/c/d/e/f/g/h/zz/zz",
    ]);
    let list = |d: &str| t.list(d);
    let mut ctx = SearchContext::new();
    let r = search_down_breadth_first_all("/r", "zz", true, &Vec::new(), &list, &mut ctx);
    assert_eq!(paths(&r), vec!["/r/a/b/c/d/e/f/g/h/zz".to_string()]);
    assert_eq!(r[0].depth_from_current, 9);
}

#[test]
fn engine_with_budget_finds_deep_match() {
    let t = project();
    let list = |d: &str| t.list(d);
    let is_dir = |d: &str| t.is_dir(d);
    let mut ctx = SearchContext::new();
    let r = find_matching_directories_within("/home/u/projA", "utils", true, &Vec::new(), &list, &is_dir, &mut ctx);
    assert_eq!(paths(&r), vec!["/home/u/projA/src/utils".to_string()]);
    assert!(!ctx.exhausted);
}
