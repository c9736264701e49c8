//! The persistence discipline around the state store: the starting state is
//! loaded once from whatever storage held, and every mutation yields exactly
//! one write, the serialized post-mutation snapshot, for the caller to hand
//! to storage. A failed write only costs durability: the in-memory state
//! stays authoritative.

use crate::codec::{deserialize, serialize, spec_parse_state, spec_serialize};
use crate::state::{has_id, set_first, AppState, AppStateView, Bucket, TodoView};
use vstd::prelude::*;

verus! {

/// The state store bound to its persistence bridge.
pub struct StateStore {
    pub state: AppState,
}

impl StateStore {
    /// Starts from a loaded (or default) state.
    pub fn new(initial: AppState) -> (s: Self)
        ensures
            s.state@ == initial@,
    {
        StateStore { state: initial }
    }

    /// The current state, for the view to render from.
    pub fn state(&self) -> (r: &AppState)
        ensures
            r@ == self.state@,
    {
        &self.state
    }

    /// Replaces the scratch input; returns the one persistence write, the
    /// serialized post-mutation snapshot.
    pub fn set_scratch_input(&mut self, text: String) -> (write: String)
        ensures
            final(self).state@.uncommitted_todo == text@,
            final(self).state@.todos == old(self).state@.todos,
            write@ == spec_serialize(final(self).state@),
    {
        self.state.set_scratch_input(text);
        serialize(&self.state)
    }

    /// Appends a new item; returns the one persistence write, the serialized
    /// post-mutation snapshot.
    pub fn add_item(&mut self, text: String) -> (write: String)
        requires
            old(self).state.todos@.len() < u32::MAX,
        ensures
            final(self).state@.todos == old(self).state@.todos.push(
                TodoView {
                    id: old(self).state@.todos.len() as u32,
                    text: text@,
                    bucket: Bucket::Todo,
                },
            ),
            final(self).state@.uncommitted_todo == old(self).state@.uncommitted_todo,
            write@ == spec_serialize(final(self).state@),
    {
        self.state.add_item(text);
        serialize(&self.state)
    }

    /// Moves the first item carrying `id` to `bucket` (a no-op when no item
    /// carries it); returns the one persistence write, the serialized
    /// post-mutation snapshot.
    pub fn set_bucket(&mut self, id: u32, bucket: Bucket) -> (write: String)
        ensures
            final(self).state@.todos == set_first(old(self).state@.todos, id, bucket),
            final(self).state@.uncommitted_todo == old(self).state@.uncommitted_todo,
            !has_id(old(self).state@.todos, id) ==> final(self).state@ == old(self).state@,
            write@ == spec_serialize(final(self).state@),
    {
        self.state.set_bucket(id, bucket);
        serialize(&self.state)
    }
}

/// Turns what was read from storage into the starting state: the decoded
/// state when the stored value is present and well formed, the default empty
/// state when it is absent or corrupt. Never fails.
pub fn load_state(raw: Option<&str>) -> (s: AppState)
    ensures
        match raw {
            Some(value) => match spec_parse_state(value@) {
                Some(v) => s@ == v,
                None => s@ == AppStateView::empty(),
            },
            None => s@ == AppStateView::empty(),
        },
{
    match raw {
        Some(value) => match deserialize(value) {
            Some(st) => st,
            None => AppState::default(),
        },
        None => AppState::default(),
    }
}

} // verus!
