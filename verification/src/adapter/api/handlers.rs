use vstd::prelude::*;
use crate::adapter::api::models::{ErrorResponse, SearchRequest};
use crate::application::context_search_service::{answers, named, ContextSearchService};
use crate::domain::error::{McpError, McpResult};
use crate::domain::model::{texts_of, ContextSearchResult};
use crate::domain::text::{
    chars_of, number_of, parse_number, split_trimmed, string_of, texts, trimmed_fields,
};
use crate::ports::context_repository_port::ContextRepositoryPort;
use crate::ports::embedding_port::EmbeddingPort;

verus! {

/// Which contexts a listing asks for.
#[derive(Debug)]
pub struct ListQuery {
    /// The tags that the contexts must carry, if any were named.
    pub tags: Option<Vec<String>>,
    /// The greatest number of contexts to list.
    pub limit: usize,
    /// How many contexts to pass over first.
    pub offset: usize,
}

/// How many contexts a listing returns where no limit is named.
pub const DEFAULT_LIST_LIMIT: usize = 100;

/// How many chunks a search asks the embedder for where no limit is named.
pub const DEFAULT_SEARCH_LIMIT: usize = 10;

/// The number that an optional text stands for, or `default` where there is
/// no text or it stands for no number.
pub open spec fn number_or(text: Option<Seq<char>>, default: usize) -> usize {
    match text {
        Some(s) => match number_of(s) {
            Some(n) => n,
            None => default,
        },
        None => default,
    }
}

/// The names between the commas of `text`, each without the white space
/// around it, as strings.
fn names_of(text: &str) -> (names: Vec<String>)
    ensures
        texts_of(names@) == trimmed_fields(text@),
{
    let letters = chars_of(text);
    let parts = split_trimmed(&letters);
    let mut names: Vec<String> = Vec::new();
    let mut i: usize = 0;
    while i < parts.len()
        invariant
            i <= parts@.len(),
            texts_of(names@) == texts(parts@).take(i as int),
        decreases parts@.len() - i,
    {
        let ghost before = texts_of(names@);
        names.push(string_of(&parts[i]));
        assert(texts_of(names@) =~= before.push(parts@[i as int]@));
        assert(texts(parts@).take(i + 1) =~= texts(parts@).take(i as int).push(parts@[i as int]@));
        i += 1;
    }
    assert(texts(parts@).take(i as int) =~= texts(parts@));
    names
}

/// The number that `text` stands for, or `default`.
fn number_from(text: Option<&str>, default: usize) -> (n: usize)
    ensures
        n == number_or(
            match text {
                Some(s) => Some(s@),
                None => None,
            },
            default,
        ),
{
    match text {
        Some(s) => {
            let letters = chars_of(s);
            match parse_number(&letters) {
                Some(n) => n,
                None => default,
            }
        },
        None => default,
    }
}

impl ListQuery {
    /// Reads the parameters of a listing. The tags are the names between the
    /// commas of `tags`, each without the white space around it. The limit
    /// is 100 and the offset 0 where the parameter is missing or is no
    /// number.
    pub fn parse(tags: Option<&str>, limit: Option<&str>, offset: Option<&str>) -> (r: Self)
        ensures
            match tags {
                Some(named) => r.tags matches Some(list) && texts_of(list@) == trimmed_fields(
                    named@,
                ),
                None => r.tags is None,
            },
            r.limit == number_or(
                match limit {
                    Some(s) => Some(s@),
                    None => None,
                },
                DEFAULT_LIST_LIMIT,
            ),
            r.offset == number_or(
                match offset {
                    Some(s) => Some(s@),
                    None => None,
                },
                0,
            ),
    {
        ListQuery {
            tags: match tags {
                Some(named) => Some(names_of(named)),
                None => None,
            },
            limit: number_from(limit, DEFAULT_LIST_LIMIT),
            offset: number_from(offset, 0),
        }
    }
}

/// The names in a list of tags that is written with commas: the names
/// between the commas, each without the white space around it, except those
/// that are empty.
pub open spec fn tag_names(text: Seq<char>) -> Seq<Seq<char>> {
    trimmed_fields(text).filter(|name: Seq<char>| name.len() > 0)
}

/// Reads a list of tags that is written with commas.
pub fn parse_tags(tags_str: Option<String>) -> (r: Option<Vec<String>>)
    ensures
        match tags_str {
            Some(text) => r matches Some(list) && texts_of(list@) == tag_names(text@),
            None => r is None,
        },
{
    match tags_str {
        None => None,
        Some(text) => {
            let letters = chars_of(text.as_str());
            let parts = split_trimmed(&letters);
            let ghost named = |name: Seq<char>| name.len() > 0;
            let mut tags: Vec<String> = Vec::new();
            let mut i: usize = 0;
            assert(texts(parts@).take(0).filter(named) =~= Seq::<Seq<char>>::empty()) by {
                reveal(Seq::filter);
            }
            while i < parts.len()
                invariant
                    i <= parts@.len(),
                    named == (|name: Seq<char>| name.len() > 0),
                    texts_of(tags@) == texts(parts@).take(i as int).filter(named),
                decreases parts@.len() - i,
            {
                proof {
                    assert(texts(parts@).take(i + 1).drop_last() =~= texts(parts@).take(i as int));
                    assert(texts(parts@)[i as int] == parts@[i as int]@);
                    reveal(Seq::filter);
                }
                if parts[i].len() > 0 {
                    let ghost before = texts_of(tags@);
                    tags.push(string_of(&parts[i]));
                    assert(texts_of(tags@) =~= before.push(parts@[i as int]@));
                }
                i += 1;
            }
            assert(texts(parts@).take(i as int) =~= texts(parts@));
            Some(tags)
        },
    }
}

/// Answers a search request: among the contexts that carry the request's
/// tags where it names any, and else among all. Where the request names no
/// limit, the embedder is asked for 10 chunks.
pub fn search_contexts<R: ContextRepositoryPort, E: EmbeddingPort>(
    search: &ContextSearchService,
    repository: &R,
    embedding: &E,
    request: SearchRequest,
) -> (r: McpResult<ContextSearchResult>)
    requires
        repository.valid(),
        embedding.valid(),
    ensures
        r matches Ok(result) ==> result.total_matches == result.matches@.len()
            && result.matches@.len() <= search.retrieval().max_results(),
        repository.dependable() && embedding.dependable() ==> match request.tags {
            Some(tags) if tags@.len() > 0 => answers(
                r,
                search.found_tagged(
                    repository.contexts(),
                    repository.chunk_sets(),
                    request.query@,
                    texts_of(tags@),
                ),
            ),
            _ => answers(
                r,
                search.found_among(
                    repository.contexts(),
                    repository.chunk_sets(),
                    request.query@,
                    named(
                        embedding.similar(
                            request.query@,
                            match request.limit {
                                Some(limit) => limit as nat,
                                None => DEFAULT_SEARCH_LIMIT as nat,
                            },
                        ),
                    ),
                ),
            ),
        },
{
    let limit = match request.limit {
        Some(limit) => limit,
        None => DEFAULT_SEARCH_LIMIT,
    };
    match request.tags {
        Some(tags) => {
            if tags.len() > 0 {
                search.search_with_tags(repository, embedding, request.query, tags, limit)
            } else {
                search.search(repository, embedding, request.query, limit)
            }
        },
        None => search.search(repository, embedding, request.query, limit),
    }
}

/// A failure, as it is reported to a caller.
#[derive(Debug)]
pub struct ApiError(pub McpError);

/// The status that a failure is reported with.
pub open spec fn status_of(error: McpError) -> u16 {
    match error {
        McpError::ContextNotFound(_) => 404,
        McpError::ChunkNotFound(_) => 404,
        McpError::InvalidContextReference(_) => 400,
        McpError::ContextAlreadyExists(_) => 409,
        McpError::ValidationError(_) => 400,
        McpError::AuthenticationError(_) => 401,
        McpError::AuthorizationError(_) => 403,
        McpError::RateLimitExceeded => 429,
        McpError::ContextLimitExceeded => 429,
        _ => 500,
    }
}

/// The code that a failure is reported with.
pub open spec fn code_of(error: McpError) -> Seq<char> {
    match error {
        McpError::ContextNotFound(_) => "CONTEXT_NOT_FOUND"@,
        McpError::ChunkNotFound(_) => "CHUNK_NOT_FOUND"@,
        McpError::InvalidContextReference(_) => "INVALID_REFERENCE"@,
        McpError::ContextAlreadyExists(_) => "CONTEXT_EXISTS"@,
        McpError::ValidationError(_) => "VALIDATION_ERROR"@,
        McpError::AuthenticationError(_) => "AUTH_ERROR"@,
        McpError::AuthorizationError(_) => "FORBIDDEN"@,
        McpError::RateLimitExceeded => "RATE_LIMIT"@,
        McpError::ContextLimitExceeded => "CONTEXT_LIMIT"@,
        _ => "INTERNAL_ERROR"@,
    }
}

/// The words that a failure is reported with: the failure's own where it
/// concerns the request, fixed words else.
pub open spec fn message_of(error: McpError) -> Seq<char> {
    match error {
        McpError::ContextNotFound(_) => "Context not found"@,
        McpError::ChunkNotFound(_) => "Chunk not found"@,
        McpError::InvalidContextReference(message) => message@,
        McpError::ContextAlreadyExists(_) => "Context already exists"@,
        McpError::ValidationError(message) => message@,
        McpError::AuthenticationError(message) => message@,
        McpError::AuthorizationError(message) => message@,
        McpError::RateLimitExceeded => "Rate limit exceeded"@,
        McpError::ContextLimitExceeded => "Context limit exceeded"@,
        _ => "Internal server error"@,
    }
}

impl From<McpError> for ApiError {
    fn from(err: McpError) -> (r: Self) {
        ApiError(err)
    }
}

impl vstd::std_specs::convert::FromSpecImpl<McpError> for ApiError {
    open spec fn obeys_from_spec() -> bool {
        true
    }

    open spec fn from_spec(err: McpError) -> Self {
        ApiError(err)
    }
}

impl ApiError {
    /// The status and the body that the failure is reported with.
    pub fn into_parts(self) -> (r: (u16, ErrorResponse))
        ensures
            r.0 == status_of(self.0),
            r.1.code@ == code_of(self.0),
            r.1.message@ == message_of(self.0),
    {
        let (status, code, message): (u16, &str, String) = match self.0 {
            McpError::ContextNotFound(_) => (
                404,
                "CONTEXT_NOT_FOUND",
                "Context not found".to_owned(),
            ),
            McpError::ChunkNotFound(_) => (404, "CHUNK_NOT_FOUND", "Chunk not found".to_owned()),
            McpError::InvalidContextReference(message) => (400, "INVALID_REFERENCE", message),
            McpError::ContextAlreadyExists(_) => (
                409,
                "CONTEXT_EXISTS",
                "Context already exists".to_owned(),
            ),
            McpError::ValidationError(message) => (400, "VALIDATION_ERROR", message),
            McpError::AuthenticationError(message) => (401, "AUTH_ERROR", message),
            McpError::AuthorizationError(message) => (403, "FORBIDDEN", message),
            McpError::RateLimitExceeded => (429, "RATE_LIMIT", "Rate limit exceeded".to_owned()),
            McpError::ContextLimitExceeded => (
                429,
                "CONTEXT_LIMIT",
                "Context limit exceeded".to_owned(),
            ),
            _ => (500, "INTERNAL_ERROR", "Internal server error".to_owned()),
        };
        (status, ErrorResponse { message, code: code.to_owned() })
    }
}

} // verus!
