//! Core of a news-feed ingestion service: content-addressed deduplication of
//! article URLs, an in-memory article store with keyset pagination,
//! read-time near-duplicate clustering of titles, and popularity-weighted
//! retention.

use vstd::prelude::*;

pub mod changes;
pub mod config;
pub mod cursor;
pub mod db;
pub mod dedup;
pub mod feeds;
pub mod grouping;
pub mod models;
pub mod ranking;
pub mod routes;
pub mod text;

verus! {

} // verus!
