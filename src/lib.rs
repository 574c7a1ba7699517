//! A shared task board: an in-memory store of tasks in three status lanes,
//! the validation in front of it, and the fan-out that keeps any number of
//! observers up to date with every committed change.

pub mod task;
pub mod board;
pub mod bus;
pub mod hub;
pub mod router;
