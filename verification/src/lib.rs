//! A small key-value buffer pool: fixed-size records, kept in a bounded cache
//! with least-recently-used replacement, in front of a paged backing store.

pub mod buffer;
pub mod cache;
pub mod client;
pub mod coordinator;
pub mod data;
pub mod dispatcher;
pub mod durability;
pub mod entry;
pub mod error;
pub mod handle;
pub mod index;
pub mod lane;
pub mod pool;
pub mod ptr;
pub mod storage;
