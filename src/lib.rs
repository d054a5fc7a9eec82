//! An Eisenhower-matrix task board. Tasks sit in one of five buckets (the
//! four quadrants and `Today`), each ordered by an explicit position.
//!
//! - `taxonomy`: buckets, categories and their tokens.
//! - `board`: the task store and its operations (create, toggle, edit,
//!   delete, reorder, move, listings), each stated over `BoardModel`.
//! - `guarantees`: laws that relate several operations.
//! - `text`: trimming, comparison, HTML escaping and time stamp splitting.
//! - `auth`: checking HTTP basic credentials.

pub mod auth;
pub mod board;
pub mod guarantees;
pub mod taxonomy;
pub mod text;
