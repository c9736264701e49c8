//! The state store: an ordered list of todo items, each in one of two
//! buckets, plus the scratch input text that has not been submitted yet.
//!
//! Mutations are `set_scratch_input`, `add_item` and `set_bucket`; the two
//! bucket projections are derived by a linear filter. Identifiers are
//! assigned as "count of items already present" at insertion time, and no
//! deletion or reordering operation exists.

use vstd::prelude::*;

verus! {

/// The two-valued classification of an item.
#[derive(Clone, Copy, PartialEq, Eq, Debug, Structural)]
pub enum Bucket {
    Todo,
    Done,
}

/// A single todo entry. `id` and `text` are immutable after creation;
/// `bucket` is mutable.
#[derive(Debug, PartialEq, Eq)]
pub struct Todo {
    pub id: u32,
    pub text: String,
    pub bucket: Bucket,
}

/// The mathematical model of a [`Todo`].
#[verifier::ext_equal]
pub struct TodoView {
    pub id: u32,
    pub text: Seq<char>,
    pub bucket: Bucket,
}

impl View for Todo {
    type V = TodoView;

    open spec fn view(&self) -> TodoView {
        TodoView { id: self.id, text: self.text@, bucket: self.bucket }
    }
}

impl Clone for Todo {
    fn clone(&self) -> (r: Self)
        ensures
            r == *self,
    {
        Todo { id: self.id, text: self.text.clone(), bucket: self.bucket }
    }
}

/// The full aggregate: the scratch input plus the ordered item list.
#[derive(Clone, Debug, PartialEq, Eq)]
pub struct AppState {
    pub uncommitted_todo: String,
    pub todos: Vec<Todo>,
}

/// The mathematical model of an [`AppState`].
#[verifier::ext_equal]
pub struct AppStateView {
    pub uncommitted_todo: Seq<char>,
    pub todos: Seq<TodoView>,
}

impl View for AppState {
    type V = AppStateView;

    open spec fn view(&self) -> AppStateView {
        AppStateView {
            uncommitted_todo: self.uncommitted_todo@,
            todos: self.todos@.map_values(|t: Todo| t@),
        }
    }
}

impl AppStateView {
    /// The default empty state: no scratch text, no items.
    pub open spec fn empty() -> AppStateView {
        AppStateView { uncommitted_todo: Seq::empty(), todos: Seq::empty() }
    }
}

impl Default for AppState {
    fn default() -> (s: Self)
        ensures
            s@ == AppStateView::empty(),
    {
        let s = AppState { uncommitted_todo: String::new(), todos: Vec::new() };
        proof {
            assert(s@.todos =~= Seq::<TodoView>::empty());
            assert(s@ == AppStateView::empty());
        }
        s
    }
}

/// Whether some item in `todos` carries identifier `id`.
pub open spec fn has_id(todos: Seq<TodoView>, id: u32) -> bool {
    exists|j: int| 0 <= j < todos.len() && todos[j].id == id
}

/// Whether `i` is the first position in `todos` whose item carries `id`.
pub open spec fn first_with_id(todos: Seq<TodoView>, id: u32, i: int) -> bool {
    &&& 0 <= i < todos.len()
    &&& todos[i].id == id
    &&& forall|j: int| 0 <= j < i ==> todos[j].id != id
}

/// `todos` with the bucket of the first item carrying `id` replaced by
/// `bucket`; unchanged when no item carries `id`.
pub open spec fn set_first(todos: Seq<TodoView>, id: u32, bucket: Bucket) -> Seq<TodoView>
    decreases todos.len(),
{
    if todos.len() == 0 {
        todos
    } else if todos[0].id == id {
        todos.update(0, TodoView { id: todos[0].id, text: todos[0].text, bucket })
    } else {
        seq![todos[0]] + set_first(todos.skip(1), id, bucket)
    }
}

/// When no item carries `id`, `set_first` is the identity.
pub proof fn lemma_set_first_absent(todos: Seq<TodoView>, id: u32, bucket: Bucket)
    requires
        !has_id(todos, id),
    ensures
        set_first(todos, id, bucket) == todos,
    decreases todos.len(),
{
    if todos.len() == 0 {
    } else {
        assert(todos[0].id != id);
        assert(!has_id(todos.skip(1), id)) by {
            if has_id(todos.skip(1), id) {
                let j = choose|j: int|
                    0 <= j < todos.skip(1).len() && todos.skip(1)[j].id == id;
                assert(todos[j + 1].id == id);
            }
        }
        lemma_set_first_absent(todos.skip(1), id, bucket);
        assert(seq![todos[0]] + todos.skip(1) =~= todos);
    }
}

/// When `i` is the first position carrying `id`, `set_first` updates exactly
/// that position, replacing only the bucket.
pub proof fn lemma_set_first_found(todos: Seq<TodoView>, id: u32, bucket: Bucket, i: int)
    requires
        first_with_id(todos, id, i),
    ensures
        set_first(todos, id, bucket) == todos.update(
            i,
            TodoView { id: todos[i].id, text: todos[i].text, bucket },
        ),
    decreases i,
{
    if i == 0 {
    } else {
        assert(todos[0].id != id);
        assert(first_with_id(todos.skip(1), id, i - 1)) by {
            assert(todos.skip(1)[i - 1] == todos[i]);
            assert(forall|j: int|
                0 <= j < i - 1 ==> #[trigger] todos.skip(1)[j].id == todos[j + 1].id);
        }
        lemma_set_first_found(todos.skip(1), id, bucket, i - 1);
        let nv = TodoView { id: todos[i].id, text: todos[i].text, bucket };
        assert(seq![todos[0]] + todos.skip(1).update(i - 1, nv) =~= todos.update(i, nv));
    }
}

/// `set_first` never touches an identifier, a text, or the order: only the
/// bucket of the first match can change.
pub proof fn lemma_set_first_preserves_ids(todos: Seq<TodoView>, id: u32, bucket: Bucket)
    ensures
        set_first(todos, id, bucket).len() == todos.len(),
        forall|j: int|
            0 <= j < todos.len() ==> (#[trigger] set_first(todos, id, bucket)[j]).id
                == todos[j].id && set_first(todos, id, bucket)[j].text == todos[j].text,
    decreases todos.len(),
{
    if todos.len() == 0 {
    } else if todos[0].id == id {
    } else {
        lemma_set_first_preserves_ids(todos.skip(1), id, bucket);
        assert(forall|j: int|
            1 <= j < todos.len() ==> (seq![todos[0]] + set_first(todos.skip(1), id, bucket))[j]
                == set_first(todos.skip(1), id, bucket)[j - 1]);
    }
}

/// Toggling the bucket of an item and then setting it back restores the
/// whole list exactly: no other field is altered.
pub proof fn lemma_toggle_restores(todos: Seq<TodoView>, id: u32, i: int, other: Bucket)
    requires
        first_with_id(todos, id, i),
    ensures
        set_first(set_first(todos, id, other), id, todos[i].bucket) == todos,
{
    lemma_set_first_found(todos, id, other, i);
    let mid = todos.update(i, TodoView { id: todos[i].id, text: todos[i].text, bucket: other });
    assert(first_with_id(mid, id, i));
    lemma_set_first_found(mid, id, todos[i].bucket, i);
    assert(TodoView { id: mid[i].id, text: mid[i].text, bucket: todos[i].bucket } =~= todos[i]);
    assert(mid.update(
        i,
        TodoView { id: mid[i].id, text: mid[i].text, bucket: todos[i].bucket },
    ) =~= todos);
}

/// The items of `todos` that lie in `bucket`, in their original order.
pub open spec fn in_bucket(todos: Seq<TodoView>, bucket: Bucket) -> Seq<TodoView> {
    todos.filter(|t: TodoView| t.bucket == bucket)
}

impl AppState {
    /// Replaces the scratch input unconditionally; the item list is untouched.
    pub fn set_scratch_input(&mut self, text: String)
        ensures
            final(self)@.uncommitted_todo == text@,
            final(self)@.todos == old(self)@.todos,
    {
        self.uncommitted_todo = text;
    }

    /// Appends a new item with identifier "count of items already present",
    /// in bucket `Todo`. The scratch input is left untouched: clearing it is
    /// the caller's responsibility.
    pub fn add_item(&mut self, text: String)
        requires
            old(self).todos@.len() < u32::MAX,
        ensures
            final(self)@.uncommitted_todo == old(self)@.uncommitted_todo,
            final(self)@.todos == old(self)@.todos.push(
                TodoView {
                    id: old(self)@.todos.len() as u32,
                    text: text@,
                    bucket: Bucket::Todo,
                },
            ),
    {
        let ghost pre = self@.todos;
        let id = self.todos.len() as u32;
        let ghost t_text = text@;
        self.todos.push(Todo { id, text, bucket: Bucket::Todo });
        proof {
            assert(self@.todos =~= pre.push(
                TodoView { id: pre.len() as u32, text: t_text, bucket: Bucket::Todo },
            ));
        }
    }

    /// Overwrites the bucket of the first item whose identifier matches `id`;
    /// a silent no-op when no item matches.
    pub fn set_bucket(&mut self, id: u32, bucket: Bucket)
        ensures
            final(self)@.uncommitted_todo == old(self)@.uncommitted_todo,
            final(self)@.todos == set_first(old(self)@.todos, id, bucket),
            !has_id(old(self)@.todos, id) ==> final(self)@ == old(self)@,
    {
        let ghost pre = self@.todos;
        let n = self.todos.len();
        let mut k: usize = 0;
        while k < n
            invariant
                n == self.todos.len(),
                0 <= k <= n,
                self@.todos == pre,
                self@.uncommitted_todo == old(self)@.uncommitted_todo,
                pre == old(self)@.todos,
                forall|j: int| 0 <= j < k ==> pre[j].id != id,
            decreases n - k,
        {
            if self.todos[k].id == id {
                let text = self.todos[k].text.clone();
                self.todos.set(k, Todo { id, text, bucket });
                proof {
                    let nv = TodoView { id: pre[k as int].id, text: pre[k as int].text, bucket };
                    assert(self@.todos =~= pre.update(k as int, nv));
                    assert(first_with_id(pre, id, k as int));
                    lemma_set_first_found(pre, id, bucket, k as int);
                }
                return ;
            }
            k += 1;
        }
        proof {
            assert(!has_id(pre, id));
            lemma_set_first_absent(pre, id, bucket);
            assert(self@ =~= old(self)@) by {
                assert(self@.todos =~= old(self)@.todos);
            }
        }
    }

    /// The items currently in `bucket`, cloned, in insertion order.
    pub fn items_in_bucket(&self, bucket: Bucket) -> (r: Vec<Todo>)
        ensures
            r@.map_values(|t: Todo| t@) == in_bucket(self@.todos, bucket),
    {
        let ghost all = self@.todos;
        let ghost pred = |t: TodoView| t.bucket == bucket;
        let mut r: Vec<Todo> = Vec::new();
        let n = self.todos.len();
        let mut k: usize = 0;
        proof {
            assert(r@.map_values(|t: Todo| t@) =~= Seq::<TodoView>::empty());
            assert(all.subrange(0, 0) =~= Seq::<TodoView>::empty());
            reveal_with_fuel(Seq::filter, 1);
            assert(Seq::<TodoView>::empty().filter(pred) =~= Seq::<TodoView>::empty());
        }
        while k < n
            invariant
                n == self.todos.len(),
                0 <= k <= n,
                all == self@.todos,
                r@.map_values(|t: Todo| t@) == all.subrange(0, k as int).filter(pred),
                pred == (|t: TodoView| t.bucket == bucket),
            decreases n - k,
        {
            let ghost r_pre = r@.map_values(|t: Todo| t@);
            if matches_bucket(&self.todos[k], bucket) {
                let item = self.todos[k].clone();
                r.push(item);
                proof {
                    assert(r@.map_values(|t: Todo| t@) =~= r_pre.push(all[k as int]));
                }
            }
            proof {
                reveal_with_fuel(Seq::filter, 2);
                let sub1 = all.subrange(0, k + 1 as int);
                assert(sub1.drop_last() =~= all.subrange(0, k as int));
                assert(sub1.last() == all[k as int]);
                assert(sub1.filter(pred) == all.subrange(0, k as int).filter(pred) + (
                    if pred(all[k as int]) {
                        seq![all[k as int]]
                    } else {
                        Seq::<TodoView>::empty()
                    }
                ));
                if pred(all[k as int]) {
                    assert(r@.map_values(|t: Todo| t@) =~= sub1.filter(pred));
                } else {
                    assert(r@.map_values(|t: Todo| t@) =~= sub1.filter(pred));
                }
            }
            k += 1;
        }
        proof {
            assert(all.subrange(0, n as int) =~= all);
        }
        r
    }
}

/// Whether `t` lies in `bucket`.
fn matches_bucket(t: &Todo, bucket: Bucket) -> (r: bool)
    ensures
        r == (t@.bucket == bucket),
{
    t.bucket == bucket
}

} // verus!
