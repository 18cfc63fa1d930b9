use pinwheel::tracker::{validate_quote, Tracker};

fn s(text: &str) -> String {
    text.to_string()
}

fn pool_abcd() -> Vec<String> {
    vec![s("A"), s("B"), s("C"), s("D")]
}

#[test]
fn new_tracker_is_empty() {
    let t = Tracker::new(5);
    assert_eq!(t.last_quotes.len(), 0);
    assert_eq!(t.capacity, 5);
    assert!(!t.is_tracked("anything"));
}

#[test]
fn record_then_tracked() {
    let mut t = Tracker::new(3);
    t.add_quote(s("alpha"));
    assert!(t.is_tracked("alpha"));
    t.add_quote(s("beta"));
    assert!(t.is_tracked("beta"));
    assert!(t.is_tracked("alpha"));
    assert!(!t.is_tracked("gamma"));
}

#[test]
fn capacity_plus_one_distinct_records_keep_last_in_order() {
    let mut t = Tracker::new(2);
    t.add_quote(s("one"));
    t.add_quote(s("two"));
    t.add_quote(s("three"));
    assert_eq!(t.last_quotes, vec![s("two"), s("three")]);
}

#[test]
fn capacity_one_keeps_only_most_recent() {
    let mut t = Tracker::new(1);
    t.add_quote(s("one"));
    t.add_quote(s("two"));
    assert_eq!(t.last_quotes, vec![s("two")]);
    assert!(!t.is_tracked("one"));
}

#[test]
fn rerecord_moves_to_most_recent_without_growth() {
    let mut t = Tracker::new(3);
    t.add_quote(s("a"));
    t.add_quote(s("b"));
    t.add_quote(s("c"));
    t.add_quote(s("a"));
    assert_eq!(t.last_quotes.len(), 3);
    assert_eq!(t.last_quotes, vec![s("b"), s("c"), s("a")]);
}

#[test]
fn validate_untracked_candidate_returned_and_recorded() {
    let pool = pool_abcd();
    let mut t = Tracker::new(3);
    assert!(!t.is_tracked("C"));
    let r = validate_quote("C", &pool, &mut t);
    assert_eq!(r, s("C"));
    assert!(t.is_tracked("C"));
}

#[test]
fn validate_tracked_candidate_picks_next_untracked_forward() {
    let pool = pool_abcd();
    let mut t = Tracker::new(4);
    t.add_quote(s("B"));
    let r = validate_quote("B", &pool, &mut t);
    assert_eq!(r, s("C"));
    assert!(t.is_tracked("C"));
}

#[test]
fn validate_scan_wraps_around_the_pool() {
    let pool = vec![s("A"), s("B"), s("C")];
    let mut t = Tracker::new(3);
    t.add_quote(s("C"));
    let r = validate_quote("C", &pool, &mut t);
    assert_eq!(r, s("A"));
    assert!(t.is_tracked("A"));
}

#[test]
fn validate_all_tracked_returns_candidate_unchanged() {
    let pool = vec![s("A"), s("B"), s("C")];
    let mut t = Tracker::new(5);
    t.add_quote(s("A"));
    t.add_quote(s("B"));
    t.add_quote(s("C"));
    let before = t.last_quotes.clone();
    let r = validate_quote("B", &pool, &mut t);
    assert_eq!(r, s("B"));
    assert_eq!(t.last_quotes, before);
}

#[test]
fn tracked_candidate_absent_from_pool_returned_unchanged() {
    let pool = pool_abcd();
    let mut t = Tracker::new(3);
    t.add_quote(s("X"));
    let before = t.last_quotes.clone();
    let r = validate_quote("X", &pool, &mut t);
    assert_eq!(r, s("X"));
    assert_eq!(t.last_quotes, before);
}

#[test]
fn scenario_first_pick_records_candidate() {
    let pool = pool_abcd();
    let mut t = Tracker::new(2);
    let r = validate_quote("B", &pool, &mut t);
    assert_eq!(r, s("B"));
    assert_eq!(t.last_quotes, vec![s("B")]);
}

#[test]
fn scenario_repeat_pick_moves_to_next_untracked() {
    let pool = pool_abcd();
    let mut t = Tracker::new(2);
    validate_quote("B", &pool, &mut t);
    let r = validate_quote("B", &pool, &mut t);
    assert_eq!(r, s("C"));
    assert_eq!(t.last_quotes, vec![s("B"), s("C")]);
}

#[test]
fn scenario_third_pick_evicts_oldest() {
    let pool = pool_abcd();
    let mut t = Tracker::new(2);
    validate_quote("B", &pool, &mut t);
    validate_quote("B", &pool, &mut t);
    let r = validate_quote("A", &pool, &mut t);
    assert_eq!(r, s("A"));
    assert_eq!(t.last_quotes, vec![s("C"), s("A")]);
}

#[test]
fn scenario_fourth_pick_evicts_again() {
    let pool = pool_abcd();
    let mut t = Tracker::new(2);
    validate_quote("B", &pool, &mut t);
    validate_quote("B", &pool, &mut t);
    validate_quote("A", &pool, &mut t);
    let r = validate_quote("D", &pool, &mut t);
    assert_eq!(r, s("D"));
    assert_eq!(t.last_quotes, vec![s("A"), s("D")]);
}

#[test]
fn scenario_fifth_pick_scans_from_candidate_position() {
    let pool = pool_abcd();
    let mut t = Tracker::new(2);
    validate_quote("B", &pool, &mut t);
    validate_quote("B", &pool, &mut t);
    validate_quote("A", &pool, &mut t);
    validate_quote("D", &pool, &mut t);
    let r = validate_quote("A", &pool, &mut t);
    assert_eq!(r, s("B"));
    assert_eq!(t.last_quotes, vec![s("D"), s("B")]);
}
