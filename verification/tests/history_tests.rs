use clipboard_history::history::History;

#[test]
fn test_push_new_entry() {
    let mut history = History::new(100);
    assert!(history.push("hello".into()));
    assert_eq!(history.entries().len(), 1);
    assert_eq!(history.entries()[0].content, "hello");
}

#[test]
fn test_skip_duplicate_of_most_recent() {
    let mut history = History::new(100);
    history.push("hello".into());
    assert!(!history.push("hello".into()));
    assert_eq!(history.entries().len(), 1);
}

#[test]
fn test_move_past_duplicate_to_front() {
    let mut history = History::new(100);
    history.push("first".into());
    history.push("second".into());
    history.push("third".into());

    // Push "first" again — should move to front
    assert!(history.push("first".into()));
    assert_eq!(history.entries().len(), 3);
    assert_eq!(history.entries()[0].content, "first");
    assert_eq!(history.entries()[1].content, "third");
    assert_eq!(history.entries()[2].content, "second");
}

#[test]
fn test_max_size_enforced() {
    let mut history = History::new(3);
    history.push("a".into());
    history.push("b".into());
    history.push("c".into());
    history.push("d".into());

    assert_eq!(history.entries().len(), 3);
    // Most recent first
    assert_eq!(history.entries()[0].content, "d");
    assert_eq!(history.entries()[1].content, "c");
    assert_eq!(history.entries()[2].content, "b");
}

#[test]
fn test_get_by_id() {
    let mut history = History::new(100);
    history.push("hello".into());
    let id = history.entries()[0].id;
    assert!(history.get_by_id(id).is_some());
    assert!(history.get_by_id(9999).is_none());
}

#[test]
fn test_id_increments() {
    let mut history = History::new(100);
    history.push("a".into());
    history.push("b".into());
    // IDs should be unique and incrementing
    let ids: Vec<u64> = history.entries().iter().map(|e| e.id).collect();
    assert_eq!(ids.len(), 2);
    assert_ne!(ids[0], ids[1]);
}

#[test]
fn test_ids_strictly_increase_in_creation_order() {
    let mut history = History::new(10);
    history.push("a".into());
    history.push("b".into());
    history.push("c".into());
    // Most recent first, so creation order is reversed.
    let ids: Vec<u64> = history.entries().iter().map(|e| e.id).collect();
    assert!(ids[2] < ids[1] && ids[1] < ids[0]);
}

#[test]
fn test_move_to_front_keeps_id() {
    let mut history = History::new(100);
    history.push("first".into());
    let first_id = history.entries()[0].id;
    history.push("second".into());
    history.push("first".into());
    assert_eq!(history.entries()[0].content, "first");
    assert_eq!(history.entries()[0].id, first_id);
}

#[test]
fn test_empty_content_rejected() {
    let mut history = History::new(100);
    assert!(!history.push("".into()));
    assert_eq!(history.entries().len(), 0);
}

#[test]
fn test_push_at_refreshes_timestamp_on_move() {
    let mut history = History::new(100);
    history.push_at("first".into(), 1000);
    history.push_at("second".into(), 2000);
    assert!(history.push_at("first".into(), 3000));
    assert_eq!(history.entries()[0].content, "first");
    assert_eq!(history.entries()[0].created_at, 3000);
}

#[test]
fn test_max_size_zero_keeps_nothing() {
    let mut history = History::new(0);
    assert!(history.push("a".into()));
    assert_eq!(history.entries().len(), 0);
}
