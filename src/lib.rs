//! Associative arrays keyed by strings, kept as a sequence of entries sorted by
//! the 64-bit hash of each key, with binary-search lookup.
//!
//! Two distinct keys with the same hash are not told apart: the second one is
//! refused by `add`, and lookups address whichever entry holds that hash.

pub mod hashing;
pub mod laws;
pub mod store;

pub use hashing::hash_f;
pub use store::{Dict, DictEntry, DictIface};
