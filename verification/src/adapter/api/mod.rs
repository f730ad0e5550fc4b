pub mod handlers;
pub mod models;

pub use handlers::{parse_tags, search_contexts, ApiError, ListQuery};
pub use models::{ErrorResponse, SearchRequest, StoreContextRequest, UpdateContextRequest};
