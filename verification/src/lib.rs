//! Query-execution core of a segment-based inverted-index search engine.
//!
//! Given a segment's posting lists and term dictionary, the crate answers
//! boolean and range queries by producing, in ascending document-identifier
//! order, the documents matching a query.

pub mod analyzer;
pub mod analyzer_manager;
pub mod bitset;
pub mod compression;
pub mod docset;
pub mod exclude;
pub mod query_parser;
pub mod range_query;
pub mod schema;
pub mod segment;
pub mod segment_postings;
pub mod streamer;
pub mod term_weight;
pub mod weight;
pub mod vec_postings;
pub mod vint;

use vstd::prelude::*;

verus! {

/// A document identifier, dense within a segment, strictly increasing along a
/// posting list.
pub type DocId = u32;

} // verus!
