pub mod context_management_service;
pub mod context_search_service;

pub use context_management_service::ContextManagementService;
pub use context_search_service::ContextSearchService;
