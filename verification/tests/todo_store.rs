//! Behavioural tests for the state store and its projections.

use soon::state::{AppState, Bucket, Todo};

fn texts(items: &[Todo]) -> Vec<&str> {
    items.iter().map(|t| t.text.as_str()).collect()
}

fn ids(items: &[Todo]) -> Vec<u32> {
    items.iter().map(|t| t.id).collect()
}

#[test]
fn default_state_is_empty() {
    let s = AppState::default();
    assert_eq!(s.uncommitted_todo, "");
    assert!(s.todos.is_empty());
}

#[test]
fn add_item_on_empty_store() {
    let mut s = AppState::default();
    s.add_item("buy milk".to_string());
    assert_eq!(s.todos.len(), 1);
    assert_eq!(s.todos[0].id, 0);
    assert_eq!(s.todos[0].text, "buy milk");
    assert_eq!(s.todos[0].bucket, Bucket::Todo);
}

#[test]
fn adding_three_items_assigns_sequential_ids() {
    let mut s = AppState::default();
    s.add_item("a".to_string());
    s.add_item("b".to_string());
    s.add_item("c".to_string());
    assert_eq!(ids(&s.todos), vec![0, 1, 2]);
    assert_eq!(texts(&s.todos), vec!["a", "b", "c"]);
    assert!(s.todos.iter().all(|t| t.bucket == Bucket::Todo));
}

#[test]
fn add_item_leaves_scratch_input_untouched() {
    let mut s = AppState::default();
    s.set_scratch_input("draft".to_string());
    s.add_item("draft".to_string());
    assert_eq!(s.uncommitted_todo, "draft");
}

#[test]
fn set_scratch_input_replaces_unconditionally() {
    let mut s = AppState::default();
    s.set_scratch_input("one".to_string());
    s.set_scratch_input("".to_string());
    assert_eq!(s.uncommitted_todo, "");
    assert!(s.todos.is_empty());
}

#[test]
fn set_bucket_moves_only_the_matching_item() {
    let mut s = AppState::default();
    s.add_item("a".to_string());
    s.add_item("b".to_string());
    s.add_item("c".to_string());
    s.set_bucket(1, Bucket::Done);
    let todo = s.items_in_bucket(Bucket::Todo);
    let done = s.items_in_bucket(Bucket::Done);
    assert_eq!(ids(&todo), vec![0, 2]);
    assert_eq!(ids(&done), vec![1]);
    assert_eq!(s.todos[1].text, "b");
    assert_eq!(s.todos[1].id, 1);
}

#[test]
fn set_bucket_unknown_identifier_is_a_noop() {
    let mut s = AppState::default();
    s.add_item("a".to_string());
    s.add_item("b".to_string());
    s.add_item("c".to_string());
    let before = s.clone();
    s.set_bucket(99, Bucket::Done);
    assert_eq!(s, before);
}

#[test]
fn toggling_a_bucket_restores_the_original_state() {
    let mut s = AppState::default();
    s.add_item("a".to_string());
    s.add_item("b".to_string());
    s.set_bucket(0, Bucket::Done);
    let original = s.clone();
    s.set_bucket(0, Bucket::Todo);
    s.set_bucket(0, Bucket::Done);
    assert_eq!(s, original);
}

#[test]
fn projections_preserve_insertion_order() {
    let mut s = AppState::default();
    for name in ["p", "q", "r", "t"] {
        s.add_item(name.to_string());
    }
    s.set_bucket(0, Bucket::Done);
    s.set_bucket(3, Bucket::Done);
    assert_eq!(ids(&s.items_in_bucket(Bucket::Todo)), vec![1, 2]);
    assert_eq!(ids(&s.items_in_bucket(Bucket::Done)), vec![0, 3]);
}
