use colorschemes::filter::{filter_flavors, FuzzyFilter};

#[test]
fn empty_query_accepts_everything() {
    let filter = FuzzyFilter::new();
    assert!(filter.matches("", "anything").is_some());
    assert!(filter.matches("", "").is_some());
    assert!(filter.matches("", "catppuccin mocha").is_some());
}

#[test]
fn scattered_subsequence_is_accepted() {
    let filter = FuzzyFilter::new();
    assert!(filter.matches("ctp", "catppuccin mocha").is_some());
}

#[test]
fn missing_characters_are_rejected() {
    let filter = FuzzyFilter::new();
    assert!(filter.matches("xyz", "catppuccin mocha").is_none());
}

#[test]
fn empty_candidate_rejects_nonempty_query() {
    let filter = FuzzyFilter::new();
    assert!(filter.matches("a", "").is_none());
}

#[test]
fn single_letter_accepts_all_three() {
    let filter = FuzzyFilter::new();
    assert!(filter.matches("a", "mocha").is_some());
    assert!(filter.matches("a", "latte").is_some());
    assert!(filter.matches("a", "frappe").is_some());
}

#[test]
fn contiguous_match_beats_scattered_match() {
    let filter = FuzzyFilter::new();
    let contiguous = filter.matches("ab", "abxx").unwrap();
    let scattered = filter.matches("ab", "axbx").unwrap();
    assert!(contiguous > scattered);
}

#[test]
fn filter_keeps_accepted_candidates_in_order() {
    let filter = FuzzyFilter::new();
    let candidates =
        vec!["mocha".to_string(), "latte".to_string(), "frappe".to_string()];
    assert_eq!(filter_flavors(&filter, "a", &candidates), candidates);
    assert_eq!(filter_flavors(&filter, "", &candidates), candidates);
    assert_eq!(filter_flavors(&filter, "tt", &candidates), vec!["latte".to_string()]);
    assert_eq!(filter_flavors(&filter, "xyz", &candidates), Vec::<String>::new());
}
