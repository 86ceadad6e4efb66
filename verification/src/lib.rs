//! Verified core of a local service watcher: parsing of the socket table,
//! deduplication, the sort/paginate query engine, and the poll-cycle change
//! decision. Transport and process plumbing live outside this crate.

pub mod parse;
pub mod poll;
pub mod query;
pub mod scan;
pub mod text;
pub mod types;
