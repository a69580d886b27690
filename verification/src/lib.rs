//! A sorted key-value map backed by learned index structures, and a
//! log-structured storage engine that can use it as its memtable.
//!
//! [`LearnedMap`] uses linear models to predict the slot of a key. Each node of
//! the tree holds a model and an array of slots. Keys that the model maps to
//! one slot are kept in a child node, so that a slot never holds more than one
//! entry and a prediction is never off. [`LearnedSet`] holds keys only.
//!
//! The models use exact integer arithmetic: a key is mapped to an integer that
//! follows the order of the keys ([`Key::to_model_input`]), and a model maps
//! integers to slots by an exact fraction.
//!
//! All integer types up to 128 bits, byte arrays, `Vec<u8>` and `String` are
//! keys.
//!
//! The engine is found in [`lsm`]. It is written as a set of state machines: it
//! decides what is to be read and written, and its user owns the files.

pub mod build;
pub mod config;
pub mod error;
pub mod insert;
pub mod iter;
pub mod key;
pub mod laws;
pub mod lookup;
pub mod lsm;
pub mod map;
pub mod model;
pub mod node;
pub mod protocol;
pub mod rebuild;
pub mod remove;
pub mod set;

pub use config::{Config, Ratio};
pub use error::{Error, Result};
pub use iter::{Bound, Iter, Range};
pub use key::Key;
pub use map::{EpochGuard, LearnedMap, MapRef};
pub use set::{LearnedSet, SetRef};
