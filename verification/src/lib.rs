//! A lightweight knowledge-graph engine for linked text notes.
//!
//! Notes are tokenized into weighted term vectors, cross-references between
//! notes are resolved into a graph of nodes and edges, and ranked retrieval
//! queries are answered from the assembled graph with a deterministic
//! multi-signal score.
//!
//! All text is handled as UTF-8 bytes; scores and term weights are held in
//! thousandth units (milli) so that every computation is exact integer
//! arithmetic.

pub mod bench;
pub mod bytes;
pub mod graph;
pub mod index;
pub mod links;
pub mod paths;
pub mod recall;
pub mod text;
pub mod weights;
