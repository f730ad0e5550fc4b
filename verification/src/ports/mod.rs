pub mod context_repository_port;
pub mod embedding_port;

pub use context_repository_port::ContextRepositoryPort;
pub use embedding_port::EmbeddingPort;
