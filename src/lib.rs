//! Persistent containers whose elements live in a byte-keyed store.

pub mod account_id;
pub mod bytes;
pub mod codec;
pub mod entries;
pub mod laws;
pub mod map;
pub mod store;
pub mod vector;
