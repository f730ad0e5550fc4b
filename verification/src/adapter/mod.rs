pub mod api;
pub mod cli;
pub mod memory_context_repository;
pub mod simple_embedding_service;
pub mod ui;

pub use memory_context_repository::InMemoryContextRepository;
pub use simple_embedding_service::SimpleEmbeddingService;
