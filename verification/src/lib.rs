//! A verified todo-forest engine: a hierarchy of todo items with explicit
//! sibling ordering, recursive completion cascades, countdown counters and a
//! single scalar note, kept consistent under create, edit, move, delete and
//! reset operations.

pub mod model;
pub mod store;
pub mod laws;

pub use model::TodoItem;
pub use model::MoveError;
pub use store::TodoStore;
