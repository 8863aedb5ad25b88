//! A chained hash table: an associative container mapping hashable,
//! equality-comparable keys to arbitrary values, built from first principles
//! with open hashing and separate chaining.
//!
//! The table owns an array of buckets, each bucket an ordered sequence of
//! key/value pairs that collide on the same bucket index. A single bucket
//! index function directs every operation, and the table grows (rehashes)
//! automatically when its load factor crosses 3/4.

pub mod hashkey;
pub mod laws;
pub mod table;

pub use hashkey::HashKey;
pub use table::HashMap;
