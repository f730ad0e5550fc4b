use std::collections::HashMap;

use mcp::adapter::api::{
    parse_tags, search_contexts, ApiError, ListQuery, SearchRequest, StoreContextRequest,
    UpdateContextRequest,
};
use mcp::adapter::cli::{
    answer, confirms, menu_choice, number_answer, optional_answer, tags_answer, MenuChoice,
};
use mcp::adapter::ui::{ApiRequest, McpApp};
use mcp::adapter::{InMemoryContextRepository, SimpleEmbeddingService};
use mcp::application::{ContextManagementService, ContextSearchService};
use mcp::domain::text::{chars_of, parse_number, split_trimmed};
use mcp::domain::{ContextMetadata, McpError, Score};

fn parts_of(text: &str) -> Vec<String> {
    split_trimmed(&chars_of(text)).iter().map(|p| p.iter().collect()).collect()
}

#[test]
fn parse_tags_trims_and_drops_empty_names() {
    assert_eq!(parse_tags(None), None);
    assert_eq!(
        parse_tags(Some("ai, nlp ,, transformers ,".to_string())),
        Some(vec!["ai".to_string(), "nlp".to_string(), "transformers".to_string()])
    );
    assert_eq!(parse_tags(Some(String::new())), Some(Vec::new()));
    assert_eq!(parse_tags(Some(" , ,".to_string())), Some(Vec::new()));
    assert_eq!(parse_tags(Some("one".to_string())), Some(vec!["one".to_string()]));
    assert_eq!(parse_tags(Some("two words".to_string())), Some(vec!["two words".to_string()]));
}

#[test]
fn fields_are_cut_at_commas_and_trimmed() {
    for text in ["", ",", "a", " a , b,c ", ",,", "a,", ",a", " \t x y \n", "a , \u{a0}b\u{2003}"] {
        let expected: Vec<String> = text.split(',').map(|s| s.trim().to_string()).collect();
        assert_eq!(parts_of(text), expected, "fields of {:?}", text);
    }
    assert_eq!(parts_of(" a , b,c "), vec!["a", "b", "c"]);
    assert_eq!(parts_of(",,"), vec!["", "", ""]);
}

#[test]
fn numbers_are_read_as_the_standard_library_reads_them() {
    let top = usize::MAX.to_string();
    let over = format!("{}0", usize::MAX);
    let next = format!("{}", usize::MAX as u128 + 1);
    for text in [
        "0", "7", "10", "+10", "0010", "", "+", "-", "-1", "+-1", "++1", " 1", "1 ", "1_000",
        "12a", "\u{663}", "1e3", "0x10", top.as_str(), over.as_str(), next.as_str(),
        "18446744073709551615", "18446744073709551616", "4294967295", "4294967296",
    ] {
        assert_eq!(parse_number(&chars_of(text)), text.parse::<usize>().ok(), "number {:?}", text);
    }
    assert_eq!(parse_number(&chars_of("+42")), Some(42));
    assert_eq!(parse_number(&chars_of("forty-two")), None);
}

#[test]
fn a_listing_has_defaults() {
    let query = ListQuery::parse(None, None, None);
    assert_eq!(query.tags, None);
    assert_eq!(query.limit, 100);
    assert_eq!(query.offset, 0);
    let query = ListQuery::parse(Some("ai, nlp,"), Some("10"), Some("20"));
    assert_eq!(query.tags, Some(vec!["ai".to_string(), "nlp".to_string(), String::new()]));
    assert_eq!(query.limit, 10);
    assert_eq!(query.offset, 20);
    let query = ListQuery::parse(Some(""), Some("ten"), Some("-1"));
    assert_eq!(query.tags, Some(vec![String::new()]));
    assert_eq!(query.limit, 100);
    assert_eq!(query.offset, 0);
}

#[test]
fn a_store_request_describes_the_metadata() {
    let mut named = HashMap::new();
    named.insert("author".to_string(), "someone".to_string());
    let request = StoreContextRequest {
        content: "text".to_string(),
        source: Some("test".to_string()),
        content_type: None,
        tags: Some(vec!["a".to_string()]),
        metadata: Some(named.clone()),
    };
    let (content, metadata) = request.into_parts();
    assert_eq!(content, "text");
    assert_eq!(metadata.source, Some("test".to_string()));
    assert_eq!(metadata.content_type, None);
    assert_eq!(metadata.content_hash, None);
    assert_eq!(metadata.tags, vec!["a"]);
    assert_eq!(metadata.custom, named);
    let request = UpdateContextRequest {
        content: "new".to_string(),
        source: None,
        content_type: Some("text/plain".to_string()),
        tags: None,
        metadata: None,
    };
    let (content, metadata) = request.into_parts();
    assert_eq!(content, "new");
    assert_eq!(metadata.content_type, Some("text/plain".to_string()));
    assert!(metadata.tags.is_empty());
    assert!(metadata.custom.is_empty());
}

#[test]
fn failures_are_reported_with_status_code_and_words() {
    let report = |error: McpError| {
        let (status, body) = ApiError(error).into_parts();
        (status, body.code, body.message)
    };
    let same = |got: (u16, String, String), status: u16, code: &str, message: &str| {
        assert_eq!(got, (status, code.to_string(), message.to_string()));
    };
    same(report(McpError::ContextNotFound(1)), 404, "CONTEXT_NOT_FOUND", "Context not found");
    same(report(McpError::ChunkNotFound(1)), 404, "CHUNK_NOT_FOUND", "Chunk not found");
    same(report(McpError::InvalidContextReference("bad".into())), 400, "INVALID_REFERENCE", "bad");
    same(report(McpError::ContextAlreadyExists(1)), 409, "CONTEXT_EXISTS", "Context already exists");
    same(report(McpError::ValidationError("no".into())), 400, "VALIDATION_ERROR", "no");
    same(report(McpError::AuthenticationError("who".into())), 401, "AUTH_ERROR", "who");
    same(report(McpError::AuthorizationError("not you".into())), 403, "FORBIDDEN", "not you");
    same(report(McpError::RateLimitExceeded), 429, "RATE_LIMIT", "Rate limit exceeded");
    same(report(McpError::ContextLimitExceeded), 429, "CONTEXT_LIMIT", "Context limit exceeded");
    for hidden in [
        McpError::StorageError("disk".into()),
        McpError::EmbeddingError("model".into()),
        McpError::SerializationError("json".into()),
        McpError::IoError("pipe".into()),
        McpError::ExternalServiceError("down".into()),
        McpError::Unknown("?".into()),
    ] {
        same(report(hidden), 500, "INTERNAL_ERROR", "Internal server error");
    }
}

#[test]
fn a_search_request_with_tags_searches_among_the_tagged() {
    let mut repository = InMemoryContextRepository::new();
    let mut embedding = SimpleEmbeddingService::new(32).unwrap();
    let management = ContextManagementService::new(1000, 200).unwrap();
    let mut rust = ContextMetadata::default();
    rust.tags = vec!["rust".to_string()];
    let stored = management
        .store_context(&mut repository, &mut embedding, "Rust is great".to_string(), rust)
        .unwrap();
    let search = ContextSearchService::new(10);
    let request = SearchRequest {
        query: "great rust missing".to_string(),
        tags: Some(vec!["rust".to_string()]),
        limit: None,
    };
    let result = search_contexts(&search, &repository, &embedding, request).unwrap();
    assert_eq!(result.total_matches, 1);
    assert_eq!(result.matches[0].context.id, stored.id);
    assert_eq!(result.matches[0].score, Score::Ratio { matched: 2, total: 3 });
    let request = SearchRequest {
        query: "great".to_string(),
        tags: Some(vec!["python".to_string()]),
        limit: Some(3),
    };
    let result = search_contexts(&search, &repository, &embedding, request).unwrap();
    assert_eq!(result.total_matches, 0);
    for tags in [None, Some(Vec::new())] {
        let request = SearchRequest { query: "great".to_string(), tags, limit: Some(3) };
        let result = search_contexts(&search, &repository, &embedding, request).unwrap();
        assert_eq!(result.total_matches, result.matches.len());
    }
}

#[test]
fn answers_of_the_interactive_client_are_read() {
    assert_eq!(menu_choice("1\n"), MenuChoice::Store);
    assert_eq!(menu_choice(" 2 "), MenuChoice::Get);
    assert_eq!(menu_choice("3"), MenuChoice::List);
    assert_eq!(menu_choice("4\r\n"), MenuChoice::Search);
    assert_eq!(menu_choice("5"), MenuChoice::Update);
    assert_eq!(menu_choice("6"), MenuChoice::Delete);
    assert_eq!(menu_choice("q"), MenuChoice::Quit);
    assert_eq!(menu_choice("quit\n"), MenuChoice::Quit);
    assert_eq!(menu_choice("exit"), MenuChoice::Quit);
    assert_eq!(menu_choice("Q"), MenuChoice::Invalid);
    assert_eq!(menu_choice("7"), MenuChoice::Invalid);
    assert_eq!(menu_choice("1 1"), MenuChoice::Invalid);
    assert_eq!(menu_choice(""), MenuChoice::Invalid);
    assert_eq!(answer("  some text \n"), "some text");
    assert_eq!(answer("\n"), "");
    assert_eq!(optional_answer(" \t\n"), None);
    assert_eq!(optional_answer(" web \n"), Some("web".to_string()));
    assert_eq!(tags_answer("\n"), None);
    assert_eq!(tags_answer(" a, b ,\n"), Some(vec!["a".to_string(), "b".to_string()]));
    assert_eq!(tags_answer(" , \n"), Some(Vec::new()));
    assert_eq!(number_answer(" 25\n", 10), 25);
    assert_eq!(number_answer("\n", 10), 10);
    assert_eq!(number_answer("many\n", 5), 5);
    assert!(confirms("y\n"));
    assert!(confirms(" Y "));
    assert!(!confirms("yes"));
    assert!(!confirms("n"));
    assert!(!confirms(""));
}

#[test]
fn the_desktop_front_end_asks_for_what_is_under_way() {
    let mut app = McpApp::default();
    assert_eq!(app.status_message, "Ready");
    assert_eq!(app.api_url, "http://localhost:3000");
    assert!(app.get_api_request().is_none());

    app.loading_operation = Some("loading_contexts".to_string());
    assert!(matches!(app.get_api_request(), Some(ApiRequest::LoadContexts)));

    app.loading_operation = Some("creating_context".to_string());
    app.new_context_content = "some text".to_string();
    app.new_context_tags = " a, ,b ".to_string();
    match app.get_api_request() {
        Some(ApiRequest::CreateContext(request)) => {
            assert_eq!(request.content, "some text");
            assert_eq!(request.source, None);
            assert_eq!(request.content_type, None);
            assert_eq!(request.tags, vec!["a", "b"]);
        }
        other => panic!("a create request was expected, not {:?}", other),
    }
    app.new_context_source = "web".to_string();
    app.new_context_tags = String::new();
    match app.get_api_request() {
        Some(ApiRequest::CreateContext(request)) => {
            assert_eq!(request.source, Some("web".to_string()));
            assert!(request.tags.is_empty());
        }
        other => panic!("a create request was expected, not {:?}", other),
    }

    app.loading_operation = Some("deleting_context".to_string());
    assert!(app.get_api_request().is_none());
    app.delete_context_id = Some(42);
    assert!(matches!(app.get_api_request(), Some(ApiRequest::DeleteContext(42))));

    app.loading_operation = Some("something else".to_string());
    assert!(app.get_api_request().is_none());
}
