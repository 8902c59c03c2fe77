//! Search core of the lava index format: layout-aware readers for its
//! trailers and offset tables, BM25 posting-list retrieval, and FM-index
//! backward substring search, fused over several index files that share a
//! tokenizer.
//!
//! The crate holds the pure logic: byte-level decoding, table validation,
//! chunk lookup, rank queries, interval narrowing, result merging and
//! top-k selection. Storage backends hand it plain byte ranges.

pub mod bm25;
pub mod codec;
pub mod error;
pub mod fm;
pub mod plist;
pub mod substring;
pub mod tokenizer;
pub mod topk;
