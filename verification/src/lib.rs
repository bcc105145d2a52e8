//! Prefix-based lookup over dictd-style dictionaries: a tab-separated
//! headword index addressing byte ranges inside a gzip-compressed blob of
//! definition text, with a modification-time-keyed disk cache.
//!
//! The crate holds the lookup engine itself: the positional base-64 number
//! codec of the index format, the ordered prefix index, the decompressed
//! definition store, the cache record codec and validity rule, and the
//! ranked query path that ties them together. File and terminal I/O live
//! with the callers; every function here works on plain in-memory values.

pub mod cache;
pub mod catalog;
pub mod codec;
pub mod components;
pub mod config;
pub mod dict;
pub mod models;
pub mod store;
pub mod text;
pub mod trie;
