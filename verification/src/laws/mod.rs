//! What the functions of this library promise, in plain terms.
//!
//! Each law speaks of the results of calls: of one call in terms of its arguments, or
//! of two calls in terms of each other.

pub mod builds;
pub mod engines;
pub mod formats;
pub mod handles;
pub mod keys;
pub mod levels;
pub mod maps;
pub mod memtables;
pub mod models;
pub mod sets;
pub mod settings;
pub mod tables;
pub mod threads;
pub mod trees;
