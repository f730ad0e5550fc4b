use vstd::prelude::*;
use crate::adapter::api::handlers::{parse_tags, tag_names};
use crate::domain::model::{text_of, texts_of};
use crate::domain::text::{chars_of, spells};

verus! {

/// A request to create a context, as the desktop front end sends it.
#[derive(Debug)]
pub struct CreateContextRequest {
    pub content: String,
    pub source: Option<String>,
    pub content_type: Option<String>,
    pub tags: Vec<String>,
}

/// A call that the desktop front end makes to the server.
#[derive(Debug)]
pub enum ApiRequest {
    /// Fetch the list of contexts.
    LoadContexts,
    /// Create a context.
    CreateContext(CreateContextRequest),
    /// Delete the context with this identifier.
    DeleteContext(u128),
}

/// What the desktop front end knows between two events: the form for a new
/// context, what is selected, and the operation that is under way.
#[derive(Debug)]
pub struct McpApp {
    /// What the status line shows.
    pub status_message: String,
    /// The text of the new context, as typed.
    pub new_context_content: String,
    /// The source of the new context, as typed; empty for none.
    pub new_context_source: String,
    /// The tags of the new context, as typed, with commas between them.
    pub new_context_tags: String,
    /// The context that is selected in the list.
    pub selected_context_id: Option<u128>,
    /// The operation that is under way: `loading_contexts`,
    /// `creating_context` or `deleting_context`.
    pub loading_operation: Option<String>,
    /// The context that is to be deleted.
    pub delete_context_id: Option<u128>,
    /// Where the server is.
    pub api_url: String,
}

impl Default for McpApp {
    fn default() -> (r: Self)
        ensures
            r.status_message@ == "Ready"@,
            r.new_context_content@.len() == 0,
            r.new_context_source@.len() == 0,
            r.new_context_tags@.len() == 0,
            r.selected_context_id is None,
            r.loading_operation is None,
            r.delete_context_id is None,
            r.api_url@ == "http://localhost:3000"@,
    {
        McpApp {
            status_message: "Ready".to_owned(),
            new_context_content: String::new(),
            new_context_source: String::new(),
            new_context_tags: String::new(),
            selected_context_id: None,
            loading_operation: None,
            delete_context_id: None,
            api_url: "http://localhost:3000".to_owned(),
        }
    }
}

impl McpApp {
    /// The request that creates the context in the form: its text as typed,
    /// its source unless that is empty, no kind, and the tags that are named
    /// between the commas.
    pub open spec fn creates(&self, request: CreateContextRequest) -> bool {
        &&& request.content@ == self.new_context_content@
        &&& text_of(request.source) == if self.new_context_source@.len() == 0 {
            None
        } else {
            Some(self.new_context_source@)
        }
        &&& request.content_type is None
        &&& texts_of(request.tags@) == tag_names(self.new_context_tags@)
    }

    /// The call that the operation under way asks for, if any: the list while
    /// contexts are loaded, the form's context while one is created, and the
    /// context to delete while one is deleted, where one is named.
    pub fn get_api_request(&self) -> (r: Option<ApiRequest>)
        ensures
            match self.loading_operation {
                Some(operation) => if operation@ == "loading_contexts"@ {
                    r matches Some(ApiRequest::LoadContexts)
                } else if operation@ == "creating_context"@ {
                    r matches Some(ApiRequest::CreateContext(request)) && self.creates(request)
                } else if operation@ == "deleting_context"@ {
                    match self.delete_context_id {
                        Some(id) => r matches Some(ApiRequest::DeleteContext(deleted)) && deleted
                            == id,
                        None => r is None,
                    }
                } else {
                    r is None
                },
                None => r is None,
            },
    {
        let operation = match &self.loading_operation {
            Some(operation) => chars_of(operation.as_str()),
            None => {
                return None;
            },
        };
        if spells(&operation, "loading_contexts") {
            Some(ApiRequest::LoadContexts)
        } else if spells(&operation, "creating_context") {
            let tags = match parse_tags(Some(self.new_context_tags.clone())) {
                Some(tags) => tags,
                None => Vec::new(),
            };
            let request = CreateContextRequest {
                content: self.new_context_content.clone(),
                source: if self.new_context_source.as_str().is_empty() {
                    None
                } else {
                    Some(self.new_context_source.clone())
                },
                content_type: None,
                tags,
            };
            Some(ApiRequest::CreateContext(request))
        } else if spells(&operation, "deleting_context") {
            match self.delete_context_id {
                Some(id) => Some(ApiRequest::DeleteContext(id)),
                None => None,
            }
        } else {
            None
        }
    }
}

} // verus!
