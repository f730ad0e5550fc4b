use mcp::domain::{ChunkingService, Context, ContextMetadata, McpError, Timestamp};

fn context_of(id: u128, content: &str) -> Context {
    Context {
        id,
        content: content.to_string(),
        metadata: ContextMetadata::default(),
        created_at: Timestamp { seconds: 1_700_000_000, nanos: 0 },
        expires_at: None,
    }
}

#[test]
fn empty_content_has_no_chunks() {
    let service = ChunkingService::new(10, 3).unwrap();
    let chunks = service.chunk_context(&context_of(1, ""));
    assert!(chunks.is_empty());
}

#[test]
fn short_content_is_one_chunk() {
    let service = ChunkingService::new(10, 3).unwrap();
    let chunks = service.chunk_context(&context_of(2, "short"));
    assert_eq!(chunks.len(), 1);
    assert_eq!(chunks[0].content, "short");
    assert_eq!(chunks[0].position, 0);
    assert_eq!(chunks[0].context_id, 2);
    assert!(chunks[0].embedding.is_none());
}

#[test]
fn content_of_exactly_one_window_is_one_chunk() {
    let service = ChunkingService::new(5, 2).unwrap();
    let chunks = service.chunk_context(&context_of(3, "abcde"));
    assert_eq!(chunks.len(), 1);
    assert_eq!(chunks[0].content, "abcde");
}

#[test]
fn windows_overlap_and_advance_by_the_step() {
    let service = ChunkingService::new(10, 3).unwrap();
    let chunks = service.chunk_context(&context_of(4, "abcdefghijklmnopqrstuvwxy"));
    let positions: Vec<usize> = chunks.iter().map(|c| c.position).collect();
    let contents: Vec<&str> = chunks.iter().map(|c| c.content.as_str()).collect();
    assert_eq!(positions, vec![0, 7, 14, 21]);
    assert_eq!(contents, vec!["abcdefghij", "hijklmnopq", "opqrstuvwx", "vwxy"]);
}

#[test]
fn last_window_may_end_exactly_at_the_end() {
    let service = ChunkingService::new(4, 0).unwrap();
    let chunks = service.chunk_context(&context_of(5, "abcdefgh"));
    let contents: Vec<&str> = chunks.iter().map(|c| c.content.as_str()).collect();
    assert_eq!(contents, vec!["abcd", "efgh"]);
}

#[test]
fn chunks_cover_the_content_without_gaps() {
    let content = "The quick brown fox jumps over the lazy dog, twice over.";
    for (size, overlap) in [(1usize, 0usize), (7, 0), (7, 3), (7, 6), (56, 10), (100, 99)] {
        let service = ChunkingService::new(size, overlap).unwrap();
        let chunks = service.chunk_context(&context_of(6, content));
        assert!(!chunks.is_empty());
        assert_eq!(chunks[0].position, 0);
        for k in 1..chunks.len() {
            assert!(chunks[k - 1].position < chunks[k].position);
            assert!(chunks[k].position <= chunks[k - 1].position + chunks[k - 1].content.len());
        }
        let last = chunks.last().unwrap();
        assert_eq!(last.position + last.content.len(), content.len());
        for chunk in &chunks {
            let end = chunk.position + chunk.content.len();
            assert_eq!(&content[chunk.position..end], chunk.content);
            assert!(chunk.content.len() <= size);
        }
    }
}

#[test]
fn chunk_identifiers_are_random_identifiers() {
    let service = ChunkingService::new(3, 1).unwrap();
    let chunks = service.chunk_context(&context_of(7, "abcdefghij"));
    assert_eq!(chunks.len(), 5);
    for chunk in &chunks {
        assert_eq!((chunk.chunk_id >> 76) & 0xf, 4);
        assert_eq!((chunk.chunk_id >> 62) & 0x3, 2);
    }
    assert_ne!(chunks[0].chunk_id, chunks[1].chunk_id);
}

#[test]
fn overlap_must_be_smaller_than_the_window() {
    assert!(matches!(ChunkingService::new(10, 10), Err(McpError::ValidationError(_))));
    assert!(matches!(ChunkingService::new(10, 11), Err(McpError::ValidationError(_))));
    assert!(matches!(ChunkingService::new(0, 0), Err(McpError::ValidationError(_))));
    assert!(ChunkingService::new(1, 0).is_ok());
    assert!(ChunkingService::new(10, 9).is_ok());
}

#[test]
fn windows_must_not_split_a_character() {
    let service = ChunkingService::new(1, 0).unwrap();
    assert!(service.can_split("abc"));
    assert!(service.can_split(""));
    assert!(!service.can_split("\u{e9}"));
    let wider = ChunkingService::new(2, 0).unwrap();
    assert!(wider.can_split("\u{e9}\u{e9}"));
    assert!(!wider.can_split("a\u{e9}"));
    let chunks = wider.chunk_context(&context_of(8, "\u{e9}\u{e8}"));
    assert_eq!(chunks.len(), 2);
    assert_eq!(chunks[0].content, "\u{e9}");
    assert_eq!(chunks[1].content, "\u{e8}");
    assert_eq!(chunks[1].position, 2);
}

#[test]
fn the_greatest_window_does_not_overflow() {
    let service = ChunkingService::new(usize::MAX, usize::MAX - 1).unwrap();
    let chunks = service.chunk_context(&context_of(9, "abc"));
    assert_eq!(chunks.len(), 1);
    assert_eq!(chunks[0].content, "abc");
    let service = ChunkingService::new(usize::MAX, 0).unwrap();
    assert!(service.can_split("\u{1f600} and more"));
    assert_eq!(service.chunk_context(&context_of(10, "\u{1f600}")).len(), 1);
}

#[test]
fn a_step_of_one_yields_a_window_for_each_byte_until_the_end_is_reached() {
    let service = ChunkingService::new(3, 2).unwrap();
    let chunks = service.chunk_context(&context_of(11, "abcdef"));
    let contents: Vec<&str> = chunks.iter().map(|c| c.content.as_str()).collect();
    assert_eq!(contents, vec!["abc", "bcd", "cde", "def"]);
    let positions: Vec<usize> = chunks.iter().map(|c| c.position).collect();
    assert_eq!(positions, vec![0, 1, 2, 3]);
}
