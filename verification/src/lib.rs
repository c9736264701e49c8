//! A small todo-list core: a state store holding an ordered list of items in
//! two buckets ("Todo" and "Done") plus a scratch input field, a JSON codec
//! for the persisted wire format, and the load/save persistence discipline.

pub mod codec;
pub mod state;
pub mod store;
