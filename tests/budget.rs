use jcd::budget::{SearchContext, MAX_MATCHES, MAX_SEARCH_TIME_MS};

#[test]
fn fresh_budget_allows_work() {
    let c = SearchContext::new();
    assert_eq!(c.max_matches, MAX_MATCHES);
    assert_eq!(c.max_time_ms, MAX_SEARCH_TIME_MS);
    assert!(c.should_continue());
}

#[test]
fn budget_stops_at_match_ceiling() {
    let mut c = SearchContext::new();
    for _ in 0..20 {
        c.add_match();
    }
    assert_eq!(c.current_matches, 20);
    assert!(!c.should_continue());
}

#[test]
fn budget_stops_at_time_ceiling() {
    let c = SearchContext::new();
    assert!(c.continues_at(499));
    assert!(!c.continues_at(500));
}

#[test]
fn spent_budget_stays_spent() {
    let mut c = SearchContext::new();
    assert!(c.proceed());
    assert!(!c.exhausted);
    for _ in 0..20 {
        c.add_match();
    }
    assert!(!c.proceed());
    assert!(c.exhausted);
    assert!(!c.proceed());
}
