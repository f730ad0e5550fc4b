use mcp::adapter::InMemoryContextRepository;
use mcp::domain::{Context, ContextChunk, ContextMetadata, McpError, Timestamp};
use mcp::ports::ContextRepositoryPort;

fn tagged(id: u128, content: &str, tags: &[&str]) -> Context {
    let mut metadata = ContextMetadata::default();
    metadata.tags = tags.iter().map(|t| t.to_string()).collect();
    Context {
        id,
        content: content.to_string(),
        metadata,
        created_at: Timestamp { seconds: 10, nanos: 5 },
        expires_at: None,
    }
}

fn chunk(context_id: u128, chunk_id: u128, content: &str, position: usize) -> ContextChunk {
    ContextChunk { context_id, chunk_id, content: content.to_string(), embedding: None, position }
}

fn strings(list: &[&str]) -> Vec<String> {
    list.iter().map(|t| t.to_string()).collect()
}

#[test]
fn saving_an_identifier_twice_fails_and_keeps_the_first() {
    let mut store = InMemoryContextRepository::new();
    let saved = store.save_context(tagged(1, "first", &["a"])).unwrap();
    assert_eq!(saved.content, "first");
    let again = store.save_context(tagged(1, "second", &["b"]));
    assert!(matches!(again, Err(McpError::ContextAlreadyExists(1))));
    let kept = store.find_by_id(1).unwrap();
    assert_eq!(kept.content, "first");
    assert_eq!(kept.metadata.tags, vec!["a"]);
    assert_eq!(store.list_all(10, 0).unwrap().len(), 1);
}

#[test]
fn finding_updating_and_deleting_an_unknown_identifier_fails() {
    let mut store = InMemoryContextRepository::new();
    store.save_context(tagged(1, "one", &[])).unwrap();
    assert!(matches!(store.find_by_id(2), Err(McpError::ContextNotFound(2))));
    assert!(matches!(store.update(tagged(2, "two", &[])), Err(McpError::ContextNotFound(2))));
    assert!(matches!(store.delete(2), Err(McpError::ContextNotFound(2))));
    assert_eq!(store.list_all(10, 0).unwrap().len(), 1);
    assert_eq!(store.find_by_id(1).unwrap().content, "one");
}

#[test]
fn update_overwrites_in_place() {
    let mut store = InMemoryContextRepository::new();
    store.save_context(tagged(1, "one", &[])).unwrap();
    store.save_context(tagged(2, "two", &[])).unwrap();
    store.save_context(tagged(3, "three", &[])).unwrap();
    let updated = store.update(tagged(2, "zwei", &["de"])).unwrap();
    assert_eq!(updated.content, "zwei");
    let all = store.list_all(10, 0).unwrap();
    let contents: Vec<&str> = all.iter().map(|c| c.content.as_str()).collect();
    assert_eq!(contents, vec!["one", "zwei", "three"]);
    assert_eq!(store.find_by_id(2).unwrap().metadata.tags, vec!["de"]);
}

#[test]
fn delete_removes_one_context_and_keeps_the_order() {
    let mut store = InMemoryContextRepository::new();
    for id in 1..=4u128 {
        store.save_context(tagged(id, "text", &[])).unwrap();
    }
    store.delete(2).unwrap();
    let ids: Vec<u128> = store.list_all(10, 0).unwrap().iter().map(|c| c.id).collect();
    assert_eq!(ids, vec![1, 3, 4]);
    assert!(matches!(store.find_by_id(2), Err(McpError::ContextNotFound(2))));
    assert!(matches!(store.delete(2), Err(McpError::ContextNotFound(2))));
}

#[test]
fn find_by_tags_asks_for_every_tag() {
    let mut store = InMemoryContextRepository::new();
    store.save_context(tagged(1, "first", &["a", "b"])).unwrap();
    store.save_context(tagged(2, "second", &["b", "c"])).unwrap();
    store.save_context(tagged(3, "third", &["a", "b", "c"])).unwrap();
    let found = store.find_by_tags(&strings(&["a", "b"]), 10, 0).unwrap();
    let ids: Vec<u128> = found.iter().map(|c| c.id).collect();
    assert_eq!(ids, vec![1, 3]);
    let found = store.find_by_tags(&strings(&["b"]), 10, 0).unwrap();
    assert_eq!(found.len(), 3);
    let found = store.find_by_tags(&strings(&["c", "a"]), 10, 0).unwrap();
    let ids: Vec<u128> = found.iter().map(|c| c.id).collect();
    assert_eq!(ids, vec![3]);
    assert!(store.find_by_tags(&strings(&["a", "d"]), 10, 0).unwrap().is_empty());
    assert_eq!(store.find_by_tags(&[], 10, 0).unwrap().len(), 3);
}

#[test]
fn pages_follow_the_order_of_saving() {
    let mut store = InMemoryContextRepository::new();
    for id in 1..=5u128 {
        let tags: &[&str] = if id % 2 == 1 { &["odd"] } else { &["even"] };
        store.save_context(tagged(id, "text", tags)).unwrap();
    }
    let ids = |list: Vec<Context>| list.iter().map(|c| c.id).collect::<Vec<u128>>();
    assert_eq!(ids(store.list_all(2, 0).unwrap()), vec![1, 2]);
    assert_eq!(ids(store.list_all(2, 2).unwrap()), vec![3, 4]);
    assert_eq!(ids(store.list_all(2, 4).unwrap()), vec![5]);
    assert_eq!(ids(store.list_all(2, 5).unwrap()), Vec::<u128>::new());
    assert_eq!(ids(store.list_all(0, 0).unwrap()), Vec::<u128>::new());
    assert_eq!(ids(store.list_all(usize::MAX, usize::MAX).unwrap()), Vec::<u128>::new());
    assert_eq!(ids(store.list_all(usize::MAX, 1).unwrap()), vec![2, 3, 4, 5]);
    let odd = strings(&["odd"]);
    assert_eq!(ids(store.find_by_tags(&odd, 2, 0).unwrap()), vec![1, 3]);
    assert_eq!(ids(store.find_by_tags(&odd, 2, 1).unwrap()), vec![3, 5]);
    assert_eq!(ids(store.find_by_tags(&odd, 2, 2).unwrap()), vec![5]);
    assert_eq!(ids(store.find_by_tags(&odd, 2, 3).unwrap()), Vec::<u128>::new());
}

#[test]
fn save_chunks_replaces_the_whole_set() {
    let mut store = InMemoryContextRepository::new();
    let first = vec![chunk(1, 11, "ab", 0), chunk(1, 12, "bc", 1), chunk(1, 13, "cd", 2)];
    let saved = store.save_chunks(first).unwrap();
    assert_eq!(saved.len(), 3);
    assert_eq!(store.find_chunks_by_context_id(1).unwrap().len(), 3);
    store.save_chunks(vec![chunk(1, 21, "xy", 0)]).unwrap();
    let now = store.find_chunks_by_context_id(1).unwrap();
    assert_eq!(now.len(), 1);
    assert_eq!(now[0].chunk_id, 21);
    assert_eq!(now[0].content, "xy");
}

#[test]
fn saving_no_chunks_changes_nothing() {
    let mut store = InMemoryContextRepository::new();
    store.save_chunks(vec![chunk(1, 11, "ab", 0)]).unwrap();
    assert!(store.save_chunks(Vec::new()).unwrap().is_empty());
    assert_eq!(store.find_chunks_by_context_id(1).unwrap().len(), 1);
}

#[test]
fn chunk_sets_are_found_by_context_and_deleted_without_complaint() {
    let mut store = InMemoryContextRepository::new();
    assert!(matches!(store.find_chunks_by_context_id(1), Err(McpError::ContextNotFound(1))));
    store.save_chunks(vec![chunk(1, 11, "ab", 0)]).unwrap();
    store.save_chunks(vec![chunk(2, 21, "cd", 0)]).unwrap();
    assert!(store.delete_chunks_by_context_id(1).is_ok());
    assert!(matches!(store.find_chunks_by_context_id(1), Err(McpError::ContextNotFound(1))));
    assert!(store.delete_chunks_by_context_id(1).is_ok());
    assert!(store.delete_chunks_by_context_id(7).is_ok());
    assert_eq!(store.find_chunks_by_context_id(2).unwrap()[0].chunk_id, 21);
}

#[test]
fn contexts_and_chunk_sets_are_separate_tables() {
    let mut store = InMemoryContextRepository::new();
    store.save_context(tagged(1, "one", &[])).unwrap();
    store.save_chunks(vec![chunk(1, 11, "one", 0)]).unwrap();
    store.delete(1).unwrap();
    assert_eq!(store.find_chunks_by_context_id(1).unwrap().len(), 1);
}
