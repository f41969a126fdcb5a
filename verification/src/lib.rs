//! A small task tracker: a list of named tasks with optional deadlines,
//! a three-state lifecycle (open, overdue, done), and a JSON persistence
//! format that reproduces the list state exactly. Every operation carries
//! a contract, and the laws module states the properties that hold of them.

pub mod task;
pub mod list;
pub mod dates;
pub mod codec;
pub mod laws;
