//! Retrieval-augmented knowledge base and streaming chat core.
use vstd::prelude::*;

pub mod chars;
pub mod types;
pub mod document;
pub mod provider;
pub mod embedding;
pub mod sse;
pub mod fusion;
pub mod ranking;
pub mod keyword;
pub mod vector_store;
pub mod store;
pub mod ingest;
pub mod state;
pub mod text;
pub mod splitter;

verus! {

} // verus!
