use clipboard_history::fuzzy::search;
use clipboard_history::history::ClipboardEntry;

fn make_entry(id: u64, content: &str) -> ClipboardEntry {
    ClipboardEntry { id, content: content.to_string(), created_at: 0 }
}

#[test]
fn test_empty_query_returns_all() {
    let entries = vec![
        make_entry(1, "hello"),
        make_entry(2, "world"),
        make_entry(3, "foo"),
    ];
    let results = search("", &entries);
    assert_eq!(results.len(), 3);
}

#[test]
fn test_fuzzy_match_filters() {
    let entries = vec![
        make_entry(1, "hello world"),
        make_entry(2, "goodbye world"),
        make_entry(3, "foo bar"),
    ];
    let results = search("helo", &entries);
    // "hello world" should match "helo" fuzzily
    assert!(!results.is_empty());
    assert!(results.iter().any(|(e, _)| e.content == "hello world"));
}

#[test]
fn test_no_match_returns_empty() {
    let entries = vec![make_entry(1, "hello"), make_entry(2, "world")];
    let results = search("zzzzz", &entries);
    assert!(results.is_empty());
}

#[test]
fn test_results_sorted_by_score() {
    let entries = vec![
        make_entry(1, "abc"),
        make_entry(2, "abcdef"),
        make_entry(3, "xyzabc"),
    ];
    let results = search("abc", &entries);
    // All should match; check they're sorted by score descending
    assert!(results.len() >= 2);
    for i in 0..results.len() - 1 {
        assert!(results[i].1 >= results[i + 1].1);
    }
}

#[test]
fn test_empty_query_keeps_order_and_scores_zero() {
    let entries = vec![
        make_entry(1, "hello"),
        make_entry(2, "world"),
        make_entry(3, "foo"),
    ];
    let results = search("", &entries);
    assert_eq!(results.len(), 3);
    assert_eq!(results[0].0.content, "hello");
    assert_eq!(results[1].0.content, "world");
    assert_eq!(results[2].0.content, "foo");
    for (_, score) in &results {
        assert_eq!(*score, 0);
    }
}

#[test]
fn test_equal_scores_keep_given_order() {
    // Identical contents score identically; the sort is stable, so the
    // given order is kept among them.
    let entries = vec![
        make_entry(1, "same text"),
        make_entry(2, "same text"),
        make_entry(3, "same text"),
    ];
    let results = search("same", &entries);
    assert_eq!(results.len(), 3);
    assert_eq!(results[0].0.id, 1);
    assert_eq!(results[1].0.id, 2);
    assert_eq!(results[2].0.id, 3);
}
