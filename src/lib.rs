//! A single-user task list: an ordered store of tasks with unique ids,
//! edited in memory and kept between runs as a JSON array in one file.
pub mod error;
pub mod record;
pub mod store;
pub mod task;
