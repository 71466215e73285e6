//! A small full-text search engine core: posting lists, a segment file
//! codec, numeric columns, an analyzer and the access-control pieces that
//! sit around them, each with a machine-checked contract.

pub mod mem;
pub mod numbers;
pub mod numeric;
pub mod text;
pub mod types;
pub mod analyzer;
pub mod auth;
pub mod backup;
pub mod database;
pub mod disk;
pub mod document;
pub mod fuzzy;
pub mod posting;
pub mod sorting;
pub mod worker;
pub mod stats;
pub mod indexing;
pub mod index_worker;
pub mod reindex;
pub mod query;
pub mod filter;
pub mod manifest;
pub mod snapshot;
