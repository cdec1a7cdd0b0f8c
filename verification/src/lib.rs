//! A personal task-prioritization engine.
//!
//! Tasks form a hierarchy: a task may own subtasks, which may own their own
//! subtasks, and every level is kept in a strict priority order derived from
//! lifecycle status, sub-tree complexity and a two-dimensional
//! importance/urgency position. The [`tasks::Task`] type owns one subtree and
//! answers ordering, complexity and structural queries; the
//! [`registry::Oswald`] registry presents the whole tree as a flat,
//! user-facing API and prepares bulk loads and saves for a storage adapter.

pub mod status;
pub mod model;
pub mod tasks;
pub mod registry;
pub mod store;
pub mod laws;

pub use status::TaskStatus;
pub use tasks::Task;
pub use registry::Oswald;
pub use store::SQLiteStore;
pub use store::MockDataStore;
pub use store::DummyStore;
