use jcd::ranking::{bucket_of, finalize_matches, DirectoryMatch, MatchQuality};

fn m(path: &str, depth: i32, q: MatchQuality) -> DirectoryMatch {
    DirectoryMatch { path: path.to_string(), depth_from_current: depth, match_quality: q }
}

#[test]
fn buckets_follow_the_table() {
    assert_eq!(bucket_of(&m("/a", 1, MatchQuality::ExactDown)), 0);
    assert_eq!(bucket_of(&m("/a", 1, MatchQuality::PrefixDown)), 1);
    assert_eq!(bucket_of(&m("/a", 1, MatchQuality::PartialDown)), 2);
    assert_eq!(bucket_of(&m("/a", -3, MatchQuality::ExactUp)), 3);
    assert_eq!(bucket_of(&m("/a", -1, MatchQuality::PartialUp)), 4);
    assert_eq!(bucket_of(&m("/a", 2, MatchQuality::ExactDown)), 5);
    assert_eq!(bucket_of(&m("/a", 3, MatchQuality::PrefixDown)), 6);
    assert_eq!(bucket_of(&m("/a", 0, MatchQuality::PartialDown)), 7);
}

#[test]
fn finalize_orders_by_bucket_then_depth_then_path() {
    let input = vec![
        m("/x/deep/p", 3, MatchQuality::PartialDown),
        m("/up2", -2, MatchQuality::ExactUp),
        m("/up1", -1, MatchQuality::ExactUp),
        m("/x/b", 1, MatchQuality::PrefixDown),
        m("/x/a", 1, MatchQuality::PrefixDown),
        m("/x/e", 1, MatchQuality::ExactDown),
        m("/x/q/d", 2, MatchQuality::PartialDown),
    ];
    let r = finalize_matches(input);
    let p: Vec<&str> = r.iter().map(|x| x.path.as_str()).collect();
    assert_eq!(p, vec!["/x/e", "/x/a", "/x/b", "/up1", "/up2", "/x/q/d", "/x/deep/p"]);
}

#[test]
fn finalize_keeps_best_occurrence_of_a_path() {
    let input = vec![
        m("/x/a", 2, MatchQuality::PartialDown),
        m("/x/a", 1, MatchQuality::ExactDown),
        m("/x/a", 1, MatchQuality::PrefixDown),
    ];
    let r = finalize_matches(input);
    assert_eq!(r.len(), 1);
    assert_eq!(r[0].match_quality, MatchQuality::ExactDown);
    assert_eq!(r[0].depth_from_current, 1);
}

#[test]
fn finalize_of_nothing_is_nothing() {
    assert!(finalize_matches(Vec::new()).is_empty());
}
