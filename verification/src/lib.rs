//! A semantic memory store: short notes under unique mnemonics, each with an
//! embedding, joined by typed links, and recalled by a score.
//!
//! The store holds its rows and links itself and is verified: every
//! operation states the store it leaves behind, and keeps the store's
//! invariant. What only an index over the stored data can tell, which rows
//! lie nearest to an embedding and which rows match a text, comes in as
//! an argument, and so do the clock and the scores, which are real numbers.
//! Distances and scores are counted in millionths.

pub mod admission;
pub mod config;
pub mod document;
pub mod exchange;
pub mod import;
pub mod laws;
pub mod links;
pub mod listing;
pub mod maintenance;
pub mod merge;
pub mod model;
pub mod rank;
pub mod recall;
pub mod round_trip;
pub mod storage;
pub mod store;
pub mod tag_counts;
pub mod tags;
pub mod text;
pub mod tools;
pub mod web;
pub mod write;

pub use crate::config::TriviaConfig;
pub use crate::import::ImportResult;
pub use crate::model::{
    EditResult, Memory, MemoryLink, MemorizeNeighbor, MemorizeResult, MemorySummary,
    MergeCandidate, TagCount,
};
pub use crate::store::MemoryStore;
