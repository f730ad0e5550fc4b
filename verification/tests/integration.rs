use mcp::adapter::api::{
    search_contexts, ApiError, ListQuery, SearchRequest, StoreContextRequest, UpdateContextRequest,
};
use mcp::adapter::{InMemoryContextRepository, SimpleEmbeddingService};
use mcp::application::{ContextManagementService, ContextSearchService};
use mcp::domain::{Context, McpError, Score};

/// A store, an embedder and the two services, set up as a server sets them
/// up.
struct Server {
    repository: InMemoryContextRepository,
    embedding: SimpleEmbeddingService,
    manager: ContextManagementService,
    search: ContextSearchService,
}

impl Server {
    fn new() -> Server {
        Server {
            repository: InMemoryContextRepository::new(),
            embedding: SimpleEmbeddingService::new(128).unwrap(),
            manager: ContextManagementService::new(1000, 200).unwrap(),
            search: ContextSearchService::new(10),
        }
    }

    fn store(&mut self, content: &str, tags: &[&str]) -> Result<Context, McpError> {
        let request = StoreContextRequest {
            content: content.to_string(),
            source: None,
            content_type: None,
            tags: Some(tags.iter().map(|t| t.to_string()).collect()),
            metadata: None,
        };
        let (content, metadata) = request.into_parts();
        assert!(self.manager.accepts(&content));
        self.manager.store_context(&mut self.repository, &mut self.embedding, content, metadata)
    }

    fn update(&mut self, id: u128, content: &str, tags: &[&str]) -> Result<Context, McpError> {
        let request = UpdateContextRequest {
            content: content.to_string(),
            source: None,
            content_type: None,
            tags: Some(tags.iter().map(|t| t.to_string()).collect()),
            metadata: None,
        };
        let (content, metadata) = request.into_parts();
        assert!(self.manager.accepts(&content));
        self.manager.update_context(
            &mut self.repository,
            &mut self.embedding,
            id,
            content,
            metadata,
        )
    }

    fn list(&self, tags: Option<&str>, limit: Option<&str>) -> Vec<Context> {
        let query = ListQuery::parse(tags, limit, None);
        self.manager
            .list_contexts(&self.repository, query.tags, query.limit, query.offset)
            .unwrap()
    }

    fn status_of(error: McpError) -> (u16, String) {
        let (status, body) = ApiError(error).into_parts();
        (status, body.code)
    }
}

fn value_of(score: Score) -> f64 {
    match score {
        Score::Ratio { matched, total } => {
            if total == 0 {
                0.0
            } else {
                matched as f64 / total as f64
            }
        }
        Score::Weight { bits } => f32::from_bits(bits) as f64,
    }
}

#[test]
fn test_client_server_interaction() {
    let mut server = Server::new();

    let content = "This is a test context for the integration test";
    let stored = server.store(content, &["test", "integration"]).unwrap();
    assert_eq!(stored.content, content);
    assert!(stored.id > 0);
    let context_id = stored.id;

    let found = server.manager.get_context(&server.repository, context_id).unwrap();
    assert_eq!(found.content, content);

    let list_response = server.list(None, Some("10"));
    assert!(!list_response.is_empty());
    let found = list_response.iter().any(|ctx| ctx.id == context_id);
    assert!(found, "Created context should be in the list response");

    let request =
        SearchRequest { query: "integration test".to_string(), tags: None, limit: Some(5) };
    let search_response =
        search_contexts(&server.search, &server.repository, &server.embedding, request).unwrap();
    if !search_response.matches.is_empty() {
        let score = value_of(search_response.matches[0].score);
        assert!(score > 0.0);
    }

    let updated_content = "This is an updated test context for the integration test";
    let updated = server.update(context_id, updated_content, &["test", "updated"]).unwrap();
    assert_eq!(updated.content, updated_content);

    let found = server.manager.get_context(&server.repository, context_id).unwrap();
    assert_eq!(found.content, updated_content);
    let tags = &found.metadata.tags;
    assert!(tags.contains(&"test".to_string()));
    assert!(tags.contains(&"updated".to_string()));
    assert!(!tags.contains(&"integration".to_string()));

    server.manager.delete_context(&mut server.repository, context_id).unwrap();

    let gone = server.manager.get_context(&server.repository, context_id).unwrap_err();
    assert_eq!(Server::status_of(gone).0, 404);
}

#[test]
fn test_client_error_handling() {
    let mut server = Server::new();

    let non_existent_id = 0x1234_5678_9abc_4def_8123_4567_89ab_cdef;
    let missing = server.manager.get_context(&server.repository, non_existent_id).unwrap_err();
    let (status, code) = Server::status_of(missing);
    assert_eq!(status, 404);
    assert_eq!(code, "CONTEXT_NOT_FOUND");

    let non_existent_id = 0x0fed_cba9_8765_4321_8fed_cba9_8765_4321;
    let missing = server.update(non_existent_id, "This won't work", &["test"]).unwrap_err();
    assert_eq!(Server::status_of(missing).0, 404);
}

#[test]
fn test_context_search_functionality() {
    let mut server = Server::new();

    let contexts = vec![
        (
            "Neural networks are a class of machine learning models inspired by the human brain.",
            vec!["ai", "machine_learning"],
        ),
        (
            "Transformers have revolutionized natural language processing and understanding.",
            vec!["ai", "nlp", "transformers"],
        ),
        (
            "An assistant is a program made to be helpful, harmless, and honest.",
            vec!["ai", "assistant", "helper"],
        ),
        (
            "Rust is a systems programming language focused on safety, speed, and concurrency.",
            vec!["programming", "systems", "rust"],
        ),
        (
            "Python is a popular high-level programming language known for its readability.",
            vec!["programming", "python"],
        ),
    ];

    let mut context_ids = Vec::new();
    for (content, tags) in contexts {
        let stored = server.store(content, &tags).unwrap();
        context_ids.push(stored.id);
    }

    let request = SearchRequest {
        query: "neural networks transformers assistant".to_string(),
        tags: None,
        limit: Some(10),
    };
    let found = search_contexts(&server.search, &server.repository, &server.embedding, request);
    assert!(found.is_ok());

    let request = SearchRequest {
        query: "programming".to_string(),
        tags: Some(vec!["rust".to_string()]),
        limit: Some(10),
    };
    let found =
        search_contexts(&server.search, &server.repository, &server.embedding, request).unwrap();
    assert!(!found.matches.is_empty());
    assert!(found.matches[0].context.content.contains("Rust"));

    let list_response = server.list(Some("ai,nlp"), Some("10"));
    assert!(!list_response.is_empty());
    for ctx in &list_response {
        let has_ai = ctx.metadata.tags.iter().any(|tag| tag == "ai");
        let has_nlp = ctx.metadata.tags.iter().any(|tag| tag == "nlp");
        assert!(has_ai && has_nlp, "Context should have both 'ai' and 'nlp' tags");
    }
    assert!(list_response[0].content.contains("Transformers"));

    for id in context_ids {
        assert!(server.manager.delete_context(&mut server.repository, id).is_ok());
    }
}

#[test]
fn test_tag_filtering() {
    let mut server = Server::new();

    let contexts = [
        ("Context 1", vec!["tag1", "tag2"]),
        ("Context 2", vec!["tag2", "tag3"]),
        ("Context 3", vec!["tag1", "tag3"]),
        ("Context 4", vec!["tag1", "tag2", "tag3"]),
    ];
    for (content, tags) in &contexts {
        assert!(server.store(content, tags).is_ok());
    }

    let list_response = server.list(Some("tag1"), Some("10"));
    assert_eq!(list_response.len(), 3);

    let list_response = server.list(Some("tag1,tag3"), Some("10"));
    assert_eq!(list_response.len(), 2);
    let contents: Vec<&str> = list_response.iter().map(|c| c.content.as_str()).collect();
    assert_eq!(contents, vec!["Context 3", "Context 4"]);

    let list_response = server.list(Some("tag1,tag2,tag3"), Some("10"));
    assert_eq!(list_response.len(), 1);
    assert_eq!(list_response[0].content, "Context 4");
}
