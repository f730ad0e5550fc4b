pub mod error;
pub mod model;
pub mod ranking;
pub mod service;
pub mod similarity;
pub mod system;
pub mod text;
pub mod wide;

pub use error::{McpError, McpResult};
pub use model::{
    ChunkView, Context, ContextChunk, ContextMatch, ContextMetadata, ContextReference,
    ContextSearchResult, ContextView, MatchView, MetadataView, ReferenceView, Score, Timestamp,
};
pub use service::{ChunkingService, RetrievalService};
pub use similarity::Similarity;
