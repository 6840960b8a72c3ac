//! A typed access layer over an ordered, byte-keyed key-value store.
//!
//! Structured records are converted to canonical byte keys and byte
//! values, stored under those keys, retrieved and iterated in ascending
//! byte order of the keys, and converted back into structured records.

pub mod bytes;
pub mod codec;
pub mod command;
pub mod error;
pub mod key;
pub mod order;
pub mod store;
