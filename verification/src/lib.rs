//! A minimal fixed-capacity associative container: a hash table with a fixed
//! number of buckets and chaining inside each bucket.
//!
//! The table owns a fixed sequence of buckets; every key is routed to the
//! bucket selected by its hash reduced modulo the bucket count, and each
//! bucket is a growable sequence of (key, value) entries scanned linearly.
//! The abstract model of a table is a `Map` from key views to values.

pub mod key;
pub mod table;

pub use key::TableKey;
pub use table::HashMap;
