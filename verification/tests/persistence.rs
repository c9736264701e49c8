//! Tests for the persistence discipline: one write per mutation, carrying the
//! post-mutation snapshot, and the load-at-start behaviour.

use soon::codec::serialize;
use soon::state::{AppState, Bucket};
use soon::store::{load_state, StateStore};

/// A test double for the storage backend: it just records every write.
struct RecordingStorage {
    writes: Vec<String>,
}

impl RecordingStorage {
    fn new() -> Self {
        RecordingStorage { writes: Vec::new() }
    }

    fn set_item(&mut self, value: String) {
        self.writes.push(value);
    }

    fn last(&self) -> Option<&str> {
        self.writes.last().map(|s| s.as_str())
    }
}

#[test]
fn every_mutation_writes_exactly_one_snapshot() {
    let mut storage = RecordingStorage::new();
    let mut store = StateStore::new(load_state(storage.last()));

    storage.set_item(store.set_scratch_input("mi".to_string()));
    assert_eq!(storage.writes.len(), 1);
    assert_eq!(storage.writes[0], serialize(store.state()));

    storage.set_item(store.add_item("buy milk".to_string()));
    assert_eq!(storage.writes.len(), 2);
    assert_eq!(storage.writes[1], serialize(store.state()));

    storage.set_item(store.set_bucket(0, Bucket::Done));
    assert_eq!(storage.writes.len(), 3);
    assert_eq!(storage.writes[2], serialize(store.state()));

    storage.set_item(store.set_bucket(99, Bucket::Done));
    assert_eq!(storage.writes.len(), 4);
    assert_eq!(storage.writes[3], storage.writes[2]);
}

#[test]
fn a_session_survives_a_reload_through_storage() {
    let mut storage = RecordingStorage::new();
    let mut store = StateStore::new(load_state(storage.last()));
    assert_eq!(store.state(), &AppState::default());

    storage.set_item(store.add_item("first".to_string()));
    storage.set_item(store.add_item("second".to_string()));
    storage.set_item(store.set_bucket(0, Bucket::Done));
    storage.set_item(store.set_scratch_input("thi".to_string()));
    let final_state = store.state().clone();

    // a fresh session loads the last written snapshot
    let reloaded = StateStore::new(load_state(storage.last()));
    assert_eq!(reloaded.state(), &final_state);
    assert_eq!(reloaded.state().uncommitted_todo, "thi");
    assert_eq!(reloaded.state().todos.len(), 2);
    assert_eq!(reloaded.state().todos[0].bucket, Bucket::Done);
    assert_eq!(reloaded.state().todos[1].bucket, Bucket::Todo);
}

#[test]
fn an_unavailable_storage_still_yields_a_usable_session() {
    // no storage at all: the session starts fresh and works in memory
    let mut store = StateStore::new(load_state(None));
    let _ = store.add_item("kept in memory".to_string());
    assert_eq!(store.state().todos.len(), 1);
    assert_eq!(store.state().todos[0].text, "kept in memory");
}
