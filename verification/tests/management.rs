use std::collections::HashMap;

use mcp::adapter::{InMemoryContextRepository, SimpleEmbeddingService};
use mcp::application::ContextManagementService;
use mcp::domain::{ContextMetadata, McpError};
use mcp::ports::ContextRepositoryPort;

fn tagged(tags: &[&str]) -> ContextMetadata {
    let mut metadata = ContextMetadata::default();
    metadata.tags = tags.iter().map(|t| t.to_string()).collect();
    metadata
}

#[test]
fn test_store_and_retrieve_context() {
    let mut context_repository = InMemoryContextRepository::new();
    let mut embedding_service = SimpleEmbeddingService::new(128).unwrap();
    let context_service = ContextManagementService::new(1000, 200).unwrap();

    let content = "This is a test context for the Model Context Protocol implementation";
    let metadata = ContextMetadata {
        source: Some("test".to_string()),
        content_type: Some("text/plain".to_string()),
        content_hash: None,
        tags: vec!["test".to_string(), "example".to_string()],
        custom: HashMap::new(),
    };

    assert!(context_service.accepts(content));
    let stored_context = context_service
        .store_context(
            &mut context_repository,
            &mut embedding_service,
            content.to_string(),
            metadata,
        )
        .expect("Failed to store context");

    assert_eq!(stored_context.content, content);
    assert_eq!(stored_context.metadata.tags, vec!["test", "example"]);
    assert_eq!(stored_context.metadata.source, Some("test".to_string()));

    let retrieved_context = context_service
        .get_context(&context_repository, stored_context.id)
        .expect("Failed to retrieve context");

    assert_eq!(retrieved_context.id, stored_context.id);
    assert_eq!(retrieved_context.content, stored_context.content);
    assert_eq!(retrieved_context.metadata.tags, stored_context.metadata.tags);

    let contexts_with_tags = context_service
        .list_contexts(&context_repository, Some(vec!["test".to_string()]), 10, 0)
        .expect("Failed to list contexts");

    assert_eq!(contexts_with_tags.len(), 1);
    assert_eq!(contexts_with_tags[0].id, stored_context.id);

    let updated_content = "This is an updated test context";
    let updated_metadata = ContextMetadata {
        source: Some("test-updated".to_string()),
        content_type: Some("text/plain".to_string()),
        content_hash: None,
        tags: vec!["test".to_string(), "updated".to_string()],
        custom: HashMap::new(),
    };

    let updated_context = context_service
        .update_context(
            &mut context_repository,
            &mut embedding_service,
            stored_context.id,
            updated_content.to_string(),
            updated_metadata,
        )
        .expect("Failed to update context");

    assert_eq!(updated_context.id, stored_context.id);
    assert_eq!(updated_context.content, updated_content);
    assert_eq!(updated_context.metadata.tags, vec!["test", "updated"]);

    context_service
        .delete_context(&mut context_repository, stored_context.id)
        .expect("Failed to delete context");

    let result = context_service.get_context(&context_repository, stored_context.id);
    assert!(result.is_err(), "Context should have been deleted");
}

#[test]
fn the_overlap_of_the_service_must_be_smaller_than_the_window() {
    assert!(matches!(ContextManagementService::new(200, 200), Err(McpError::ValidationError(_))));
    assert!(matches!(ContextManagementService::new(0, 0), Err(McpError::ValidationError(_))));
    assert!(ContextManagementService::new(1000, 200).is_ok());
}

#[test]
fn storing_keeps_the_embedded_chunks_of_the_text() {
    let mut store = InMemoryContextRepository::new();
    let mut embedder = SimpleEmbeddingService::new(8).unwrap();
    let service = ContextManagementService::new(10, 3).unwrap();
    let stored = service
        .store_context(
            &mut store,
            &mut embedder,
            "a b a b a b a b a b a b c".to_string(),
            tagged(&["x"]),
        )
        .unwrap();
    assert!(stored.expires_at.is_none());
    assert_eq!((stored.id >> 76) & 0xf, 4);
    let chunks = store.find_chunks_by_context_id(stored.id).unwrap();
    let positions: Vec<usize> = chunks.iter().map(|c| c.position).collect();
    let contents: Vec<&str> = chunks.iter().map(|c| c.content.as_str()).collect();
    assert_eq!(positions, vec![0, 7, 14, 21]);
    assert_eq!(contents, vec!["a b a b a ", " a b a b a", "b a b a b ", " b c"]);
    assert_eq!(chunks[0].embedding, Some(vec![0, 3, 2, 0, 0, 0, 0, 0]));
    assert_eq!(chunks[3].embedding, Some(vec![0, 0, 1, 1, 0, 0, 0, 0]));
    for chunk in &chunks {
        assert_eq!(chunk.context_id, stored.id);
    }
}

#[test]
fn a_context_without_text_has_no_chunk_set() {
    let mut store = InMemoryContextRepository::new();
    let mut embedder = SimpleEmbeddingService::new(8).unwrap();
    let service = ContextManagementService::new(10, 3).unwrap();
    let stored =
        service.store_context(&mut store, &mut embedder, String::new(), tagged(&[])).unwrap();
    assert!(store.find_by_id(stored.id).is_ok());
    assert!(matches!(
        store.find_chunks_by_context_id(stored.id),
        Err(McpError::ContextNotFound(id)) if id == stored.id
    ));
}

#[test]
fn updating_regenerates_the_chunks_and_keeps_the_creation_time() {
    let mut store = InMemoryContextRepository::new();
    let mut embedder = SimpleEmbeddingService::new(8).unwrap();
    let service = ContextManagementService::new(4, 0).unwrap();
    let stored = service
        .store_context(&mut store, &mut embedder, "abcdefghij".to_string(), tagged(&["old"]))
        .unwrap();
    assert_eq!(store.find_chunks_by_context_id(stored.id).unwrap().len(), 3);
    let updated = service
        .update_context(&mut store, &mut embedder, stored.id, "xyz".to_string(), tagged(&["new"]))
        .unwrap();
    assert_eq!(updated.id, stored.id);
    assert_eq!(updated.created_at, stored.created_at);
    assert_eq!(updated.metadata.tags, vec!["new"]);
    let chunks = store.find_chunks_by_context_id(stored.id).unwrap();
    assert_eq!(chunks.len(), 1);
    assert_eq!(chunks[0].content, "xyz");
    assert_eq!(store.find_by_id(stored.id).unwrap().content, "xyz");
    let emptied = service
        .update_context(&mut store, &mut embedder, stored.id, String::new(), tagged(&[]))
        .unwrap();
    assert_eq!(emptied.content, "");
    assert!(store.find_chunks_by_context_id(stored.id).is_err());
}

#[test]
fn updating_and_deleting_an_unknown_context_fails() {
    let mut store = InMemoryContextRepository::new();
    let mut embedder = SimpleEmbeddingService::new(8).unwrap();
    let service = ContextManagementService::new(4, 0).unwrap();
    let missing = service.update_context(&mut store, &mut embedder, 77, "x".to_string(), tagged(&[]));
    assert!(matches!(missing, Err(McpError::ContextNotFound(77))));
    assert!(matches!(service.delete_context(&mut store, 77), Err(McpError::ContextNotFound(77))));
    assert!(matches!(service.get_context(&store, 77), Err(McpError::ContextNotFound(77))));
}

#[test]
fn deleting_a_context_removes_it_and_its_chunks() {
    let mut store = InMemoryContextRepository::new();
    let mut embedder = SimpleEmbeddingService::new(8).unwrap();
    let service = ContextManagementService::new(4, 1).unwrap();
    let kept = service
        .store_context(&mut store, &mut embedder, "stays here".to_string(), tagged(&[]))
        .unwrap();
    let gone = service
        .store_context(&mut store, &mut embedder, "goes away".to_string(), tagged(&[]))
        .unwrap();
    service.delete_context(&mut store, gone.id).unwrap();
    assert!(matches!(
        service.get_context(&store, gone.id),
        Err(McpError::ContextNotFound(id)) if id == gone.id
    ));
    assert!(matches!(
        store.find_chunks_by_context_id(gone.id),
        Err(McpError::ContextNotFound(id)) if id == gone.id
    ));
    assert!(service.get_context(&store, kept.id).is_ok());
    assert_eq!(store.find_chunks_by_context_id(kept.id).unwrap().len(), 3);
}

#[test]
fn listing_filters_by_tags_only_where_tags_are_given() {
    let mut store = InMemoryContextRepository::new();
    let mut embedder = SimpleEmbeddingService::new(8).unwrap();
    let service = ContextManagementService::new(100, 10).unwrap();
    let first =
        service.store_context(&mut store, &mut embedder, "one".to_string(), tagged(&["a"])).unwrap();
    let second = service
        .store_context(&mut store, &mut embedder, "two".to_string(), tagged(&["a", "b"]))
        .unwrap();
    let ids = |list: Vec<mcp::domain::Context>| list.iter().map(|c| c.id).collect::<Vec<u128>>();
    assert_eq!(ids(service.list_contexts(&store, None, 10, 0).unwrap()), vec![first.id, second.id]);
    assert_eq!(
        ids(service.list_contexts(&store, Some(Vec::new()), 10, 0).unwrap()),
        vec![first.id, second.id]
    );
    assert_eq!(
        ids(service.list_contexts(&store, Some(vec!["b".to_string()]), 10, 0).unwrap()),
        vec![second.id]
    );
    assert_eq!(ids(service.list_contexts(&store, None, 1, 1).unwrap()), vec![second.id]);
}

#[test]
fn texts_whose_windows_split_a_character_are_not_accepted() {
    let service = ContextManagementService::new(3, 1).unwrap();
    assert!(service.accepts("plain ascii text"));
    assert!(!service.accepts("na\u{ef}ve"));
}
