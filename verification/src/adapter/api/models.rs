use vstd::prelude::*;
use std::collections::HashMap;
use crate::domain::model::{text_of, texts_of, ContextMetadata, MetadataView};

verus! {

/// A request to store a new context.
#[derive(Debug)]
pub struct StoreContextRequest {
    /// The text to store.
    pub content: String,
    /// Where the text comes from.
    pub source: Option<String>,
    /// What kind of text it is.
    pub content_type: Option<String>,
    /// Tags, if any.
    pub tags: Option<Vec<String>>,
    /// Anything else, by name.
    pub metadata: Option<HashMap<String, String>>,
}

/// A request to give a stored context a new text and new metadata.
#[derive(Debug)]
pub struct UpdateContextRequest {
    /// The new text.
    pub content: String,
    /// Where the text comes from.
    pub source: Option<String>,
    /// What kind of text it is.
    pub content_type: Option<String>,
    /// Tags, if any.
    pub tags: Option<Vec<String>>,
    /// Anything else, by name.
    pub metadata: Option<HashMap<String, String>>,
}

/// A request to search.
#[derive(Debug)]
pub struct SearchRequest {
    /// The query.
    pub query: String,
    /// Tags that the contexts must carry, if any.
    pub tags: Option<Vec<String>>,
    /// The greatest number of chunks that the embedder is asked for.
    pub limit: Option<usize>,
}

/// What a caller is told of a failure.
#[derive(Debug)]
pub struct ErrorResponse {
    /// What went wrong, in words.
    pub message: String,
    /// What went wrong, as a code.
    pub code: String,
}

/// The metadata that a request describes: its source and its kind, no hash,
/// its tags or none, and its named values or none.
pub open spec fn described(
    source: Option<String>,
    content_type: Option<String>,
    tags: Option<Vec<String>>,
    metadata: Option<HashMap<String, String>>,
) -> MetadataView {
    MetadataView {
        source: text_of(source),
        content_type: text_of(content_type),
        content_hash: None,
        tags: match tags {
            Some(list) => texts_of(list@),
            None => Seq::empty(),
        },
        custom: match metadata {
            Some(named) => named@,
            None => Map::empty(),
        },
    }
}

/// Builds the metadata that a request describes.
fn describe(
    source: Option<String>,
    content_type: Option<String>,
    tags: Option<Vec<String>>,
    metadata: Option<HashMap<String, String>>,
) -> (r: ContextMetadata)
    ensures
        r@ == described(source, content_type, tags, metadata),
{
    let r = ContextMetadata {
        source,
        content_type,
        content_hash: None,
        tags: match tags {
            Some(list) => list,
            None => Vec::new(),
        },
        custom: match metadata {
            Some(named) => named,
            None => HashMap::new(),
        },
    };
    assert(r@.tags =~= described(source, content_type, tags, metadata).tags);
    r
}

impl StoreContextRequest {
    /// The text and the metadata of the context to store.
    pub fn into_parts(self) -> (r: (String, ContextMetadata))
        ensures
            r.0@ == self.content@,
            r.1@ == described(self.source, self.content_type, self.tags, self.metadata),
    {
        let metadata = describe(self.source, self.content_type, self.tags, self.metadata);
        (self.content, metadata)
    }
}

impl UpdateContextRequest {
    /// The new text and the new metadata of the context.
    pub fn into_parts(self) -> (r: (String, ContextMetadata))
        ensures
            r.0@ == self.content@,
            r.1@ == described(self.source, self.content_type, self.tags, self.metadata),
    {
        let metadata = describe(self.source, self.content_type, self.tags, self.metadata);
        (self.content, metadata)
    }
}

} // verus!
