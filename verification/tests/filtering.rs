//! Behavioral tests for the two filtering strategies.

use tmenu::ContainsFilterer;
use tmenu::Filterer;
use tmenu::FuzzyFilterer;

fn opts(v: &[&str]) -> Vec<String> {
    v.iter().map(|s| s.to_string()).collect()
}

#[test]
fn contains_filters_substring() {
    let f = ContainsFilterer::new(opts(&["apple", "banana", "grape"]));
    let r = f.filter("an");
    assert_eq!(r, vec!["banana".to_string()]);
}

#[test]
fn contains_is_case_insensitive() {
    let f = ContainsFilterer::new(opts(&["Apple", "BANANA", "grape"]));
    let r = f.filter("aP");
    assert_eq!(r, vec!["Apple".to_string(), "grape".to_string()]);
}

#[test]
fn contains_empty_query_keeps_all_in_order() {
    let f = ContainsFilterer::new(opts(&["b", "a", "c"]));
    let r = f.filter("");
    assert_eq!(r, vec!["b".to_string(), "a".to_string(), "c".to_string()]);
}

#[test]
fn contains_trace_marks_first_occurrence_span() {
    let f = ContainsFilterer::new(opts(&["banana"]));
    let r = f.filter_with_matches("an");
    assert_eq!(r.len(), 1);
    assert_eq!(r[0].text, "banana");
    assert_eq!(r[0].matched_indices, vec![1, 2]);
}

#[test]
fn contains_trace_empty_for_empty_query() {
    let f = ContainsFilterer::new(opts(&["apple"]));
    let r = f.filter_with_matches("");
    assert_eq!(r.len(), 1);
    assert!(r[0].matched_indices.is_empty());
}

#[test]
fn contains_result_is_subset_of_candidates() {
    let f = ContainsFilterer::new(opts(&["one", "two", "three"]));
    let all = ["one", "two", "three"];
    for q in ["o", "e", "t", "xyz", ""] {
        for kept in f.filter(q) {
            assert!(all.contains(&kept.as_str()));
        }
    }
}

#[test]
fn fuzzy_example_ordering_and_traces() {
    let f = FuzzyFilterer::new(opts(&["apple", "banana", "grape"]));
    let r = f.filter_with_matches("ae");
    assert_eq!(r.len(), 2);
    assert_eq!(r[0].text, "apple");
    assert_eq!(r[0].matched_indices, vec![0, 4]);
    assert_eq!(r[1].text, "grape");
    assert_eq!(r[1].matched_indices, vec![2, 4]);
}

#[test]
fn fuzzy_match_scores_exactly() {
    let f = FuzzyFilterer::new(Vec::new());
    // 'a' at 0: 10 + 2; 'e' at 4, non-contiguous: +1.
    assert_eq!(f.fuzzy_match("apple", "ae"), Some((13, vec![0, 4])));
    // 'a' at 0: 12; 'p' at 1: +5; 'p' at 2: +5.
    assert_eq!(f.fuzzy_match("apple", "app"), Some((22, vec![0, 1, 2])));
    // 'a' at 2, not first: 10; 'e' at 4, non-contiguous: +1.
    assert_eq!(f.fuzzy_match("grape", "ae"), Some((11, vec![2, 4])));
}

#[test]
fn fuzzy_match_requires_in_order_positions() {
    let f = FuzzyFilterer::new(Vec::new());
    // Both characters occur, but not in order: no strictly increasing
    // alignment exists.
    assert_eq!(f.fuzzy_match("ba", "ab"), None);
    assert_eq!(f.fuzzy_match("banana", "ae"), None);
}

#[test]
fn fuzzy_match_is_case_insensitive() {
    let f = FuzzyFilterer::new(Vec::new());
    assert_eq!(f.fuzzy_match("APPLE", "ae"), Some((13, vec![0, 4])));
    assert_eq!(f.fuzzy_match("apple", "AE"), Some((13, vec![0, 4])));
}

#[test]
fn fuzzy_match_empty_pattern_matches_everything() {
    let f = FuzzyFilterer::new(Vec::new());
    assert_eq!(f.fuzzy_match("anything", ""), Some((0, vec![])));
    assert_eq!(f.fuzzy_match("", ""), Some((0, vec![])));
}

#[test]
fn fuzzy_prefix_match_outranks_scattered_match() {
    let f = FuzzyFilterer::new(opts(&["zaxbxc", "abcx"]));
    let r = f.filter_with_matches("abc");
    assert_eq!(r.len(), 2);
    // Contiguous prefix: 12 + 5 + 5 = 22 beats scattered 10 + 1 + 1 = 12.
    assert_eq!(r[0].text, "abcx");
    assert_eq!(r[1].text, "zaxbxc");
}

#[test]
fn fuzzy_equal_scores_keep_original_order() {
    let f = FuzzyFilterer::new(opts(&["ba", "bc"]));
    let r = f.filter_with_matches("b");
    assert_eq!(r.len(), 2);
    assert_eq!(r[0].text, "ba");
    assert_eq!(r[1].text, "bc");
}

#[test]
fn fuzzy_empty_query_keeps_all_in_order_with_empty_traces() {
    let f = FuzzyFilterer::new(opts(&["c", "a", "b"]));
    let r = f.filter_with_matches("");
    assert_eq!(r.len(), 3);
    assert_eq!(r[0].text, "c");
    assert_eq!(r[1].text, "a");
    assert_eq!(r[2].text, "b");
    assert!(r.iter().all(|m| m.matched_indices.is_empty()));
}

#[test]
fn fuzzy_drops_unmatched_candidates() {
    let f = FuzzyFilterer::new(opts(&["apple", "pear"]));
    let r = f.filter("z");
    assert!(r.is_empty());
}

#[test]
fn fuzzy_filter_strips_traces_but_keeps_order() {
    let f = FuzzyFilterer::new(opts(&["zaxbxc", "abcx"]));
    let r = f.filter("abc");
    assert_eq!(r, vec!["abcx".to_string(), "zaxbxc".to_string()]);
}

#[test]
fn fuzzy_traces_are_strictly_increasing_and_in_bounds() {
    let f = FuzzyFilterer::new(opts(&["mississippi", "abracadabra", "xyz"]));
    for q in ["si", "aa", "ab", "x", ""] {
        for m in f.filter_with_matches(q) {
            let n = m.text.chars().count();
            let mut prev: Option<usize> = None;
            for &i in &m.matched_indices {
                assert!(i < n);
                if let Some(p) = prev {
                    assert!(i > p);
                }
                prev = Some(i);
            }
        }
    }
}
