use vstd::prelude::*;

verus! {

/// What can go wrong in the library and around it.
///
/// Identifiers are carried as the 128-bit value of the identifier.
#[derive(Debug)]
pub enum McpError {
    /// No context, or no chunk set, is stored under this context identifier.
    ContextNotFound(u128),
    /// No chunk is stored under this chunk identifier.
    ChunkNotFound(u128),
    /// A reference does not name what it should.
    InvalidContextReference(String),
    /// A context is already stored under this identifier.
    ContextAlreadyExists(u128),
    /// The store failed for a reason of its own.
    StorageError(String),
    /// The embedder failed for a reason of its own.
    EmbeddingError(String),
    /// A value could not be encoded or decoded.
    SerializationError(String),
    /// Reading or writing failed.
    IoError(String),
    /// A request or a setting is not acceptable.
    ValidationError(String),
    /// The caller could not be identified.
    AuthenticationError(String),
    /// The caller may not do this.
    AuthorizationError(String),
    /// Too many requests.
    RateLimitExceeded,
    /// Too many contexts.
    ContextLimitExceeded,
    /// A service outside the library failed.
    ExternalServiceError(String),
    /// Anything else.
    Unknown(String),
}

/// The result of an operation of the library.
pub type McpResult<T> = Result<T, McpError>;

} // verus!
