use clipboard_history::history::History;
use clipboard_history::storage::{deserialize, serialize};

#[test]
fn test_save_and_load_roundtrip() {
    let mut history = History::new(100);
    history.push("test entry 1".into());
    history.push("test entry 2".into());

    let data = serialize(&history);
    let loaded = deserialize(&data, 100);
    assert_eq!(loaded.entries().len(), 2);
    assert_eq!(loaded.entries()[0].content, "test entry 2");
    assert_eq!(loaded.entries()[1].content, "test entry 1");
}

#[test]
fn test_load_missing_file_returns_empty() {
    // A missing backing file resolves to a fresh empty history.
    let history = History::new(100);
    assert_eq!(history.entries().len(), 0);
}

#[test]
fn test_load_corrupted_json_returns_empty() {
    let bytes: Vec<u8> = b"not valid json!!!".to_vec();
    let loaded = deserialize(&bytes, 100);
    assert_eq!(loaded.entries().len(), 0);
    assert_eq!(loaded.max_size(), 100);
}

#[test]
fn test_roundtrip_preserves_ids_timestamps_and_counters() {
    let mut history = History::new(5);
    history.push_at("alpha".into(), 11);
    history.push_at("beta".into(), -22);
    history.push_at("gamma".into(), 33);
    let ids: Vec<u64> = history.entries().iter().map(|e| e.id).collect();

    let data = serialize(&history);
    let loaded = deserialize(&data, 999);
    assert_eq!(loaded.max_size(), 5);
    assert_eq!(loaded.next_id(), history.next_id());
    assert_eq!(loaded.entries().len(), 3);
    assert_eq!(loaded.entries()[0].content, "gamma");
    assert_eq!(loaded.entries()[0].created_at, 33);
    assert_eq!(loaded.entries()[1].content, "beta");
    assert_eq!(loaded.entries()[1].created_at, -22);
    assert_eq!(loaded.entries()[2].content, "alpha");
    assert_eq!(loaded.entries()[2].created_at, 11);
    let loaded_ids: Vec<u64> = loaded.entries().iter().map(|e| e.id).collect();
    assert_eq!(ids, loaded_ids);
}

#[test]
fn test_roundtrip_of_empty_store() {
    let history = History::new(42);
    let data = serialize(&history);
    let loaded = deserialize(&data, 7);
    assert_eq!(loaded.entries().len(), 0);
    assert_eq!(loaded.max_size(), 42);
    assert_eq!(loaded.next_id(), 1);
}

#[test]
fn test_roundtrip_keeps_non_ascii_text() {
    let mut history = History::new(10);
    history.push("snippet with \u{00e9}\u{4e16}\u{1f4cb} characters".into());
    let data = serialize(&history);
    let loaded = deserialize(&data, 10);
    assert_eq!(loaded.entries().len(), 1);
    assert_eq!(
        loaded.entries()[0].content,
        "snippet with \u{00e9}\u{4e16}\u{1f4cb} characters"
    );
}

#[test]
fn test_truncated_bytes_fall_back_to_empty() {
    let mut history = History::new(100);
    history.push("something".into());
    let mut data = serialize(&history);
    data.pop();
    let loaded = deserialize(&data, 100);
    assert_eq!(loaded.entries().len(), 0);
    assert_eq!(loaded.max_size(), 100);
}

#[test]
fn test_empty_bytes_fall_back_to_empty() {
    // Zero bytes parse as zero words, which lack even a header.
    let loaded = deserialize(&Vec::new(), 64);
    assert_eq!(loaded.entries().len(), 0);
    assert_eq!(loaded.max_size(), 64);
}
