//! Full-text search over documents that are each summarised by a Bloom filter.
//!
//! A [`table::FilterTable`] maps document identifiers to filters; it is read
//! from a byte blob ([`storage`]) once, and every query ([`ranking::search`])
//! scores each document by how many distinct query terms its filter accepts.
use vstd::prelude::*;

pub mod filter;
pub mod text;
pub mod table;
pub mod ranking;
pub mod storage;
pub mod laws;
