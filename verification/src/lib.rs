//! Local retrieval-augmented search: sentence-aware chunking, tokenization
//! and BM25 bookkeeping, with their behaviour stated as contracts.

pub mod bm25;
pub mod chunking;
pub mod engine;
pub mod error;
pub mod retriever;
pub mod snippet;
pub mod text;
pub mod token_counter;
pub mod tokenize;
pub mod types;
pub mod verify;

pub use error::RagrsError;
pub use types::{Chunk, ChunkMetadata, IndexResult};
