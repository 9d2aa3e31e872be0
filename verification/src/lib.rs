//! A keyed cache that many threads can share: a table of unique
//! key/value entries behind one reader/writer lock, with a
//! compute-if-absent operation that loads a missing value at most once
//! per gap.
//!
//! `table` holds the mapping and states the exact effect of each operation
//! on it; `cache` guards one table with the lock; `laws` states what holds
//! of the operations together. `substring` is a small text utility: the
//! longest stretch of a string without a repeated character.

pub mod cache;
pub mod laws;
pub mod substring;
pub mod table;
