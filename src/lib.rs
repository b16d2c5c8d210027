//! A fixed-capacity hash table that resolves collisions by separate chaining.
//!
//! `key` says what a key type must offer, `chain` holds the collision chains,
//! `table` the slot array and the map operations, and `laws` the properties of
//! sequences of operations.
pub mod chain;
pub mod key;
pub mod laws;
pub mod table;

pub use chain::KeyValue;
pub use key::HashKey;
pub use table::{HashMap, DEFAULT_MAX_SIZE};
