//! A single-user task list: tasks with a status and a creation date, kept in
//! insertion order, persisted as one `status|description|date` line per task,
//! and driven through a numbered text menu.
pub mod codec;
pub mod session;
pub mod task;
pub mod text;
