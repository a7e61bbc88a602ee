//! A small task-list manager: an in-memory store of tasks with a monotonic
//! identifier allocator, a keyboard-driven interaction controller, and a
//! human-readable text format for persisting the list between runs.

pub mod app;
pub mod codec;
pub mod task;
pub mod ui;
