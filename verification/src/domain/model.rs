use vstd::prelude::*;
use std::collections::HashMap;

verus! {

/// A point in time: the whole seconds since 1970-01-01 00:00:00 UTC, and the
/// nanoseconds that have passed of the second after them.
#[derive(Clone, Copy, Debug, PartialEq, Eq, Structural)]
pub struct Timestamp {
    pub seconds: i64,
    pub nanos: u32,
}

/// What is known about a context besides its text.
#[derive(Debug)]
pub struct ContextMetadata {
    /// Where the text comes from.
    pub source: Option<String>,
    /// What kind of text it is.
    pub content_type: Option<String>,
    /// A hash of the text, for finding duplicates.
    pub content_hash: Option<String>,
    /// Tags; their order does not matter when contexts are filtered.
    pub tags: Vec<String>,
    /// Anything else, by name.
    pub custom: HashMap<String, String>,
}

/// A stored text with its metadata.
#[derive(Debug)]
pub struct Context {
    /// The identifier, as a 128-bit value; it never changes.
    pub id: u128,
    /// The text.
    pub content: String,
    pub metadata: ContextMetadata,
    /// When the context was made.
    pub created_at: Timestamp,
    /// When it expires; nothing in the library acts on it.
    pub expires_at: Option<Timestamp>,
}

/// A window of a context's text.
#[derive(Debug)]
pub struct ContextChunk {
    /// The context that the window was cut from.
    pub context_id: u128,
    /// The chunk's own identifier.
    pub chunk_id: u128,
    /// The text in the window.
    pub content: String,
    /// The chunk's embedding, once it has been computed: one count for each
    /// dimension. The vector stands for its direction only.
    pub embedding: Option<Vec<u64>>,
    /// The byte offset in the context's text at which the window starts.
    pub position: usize,
}

/// A pointer to a context, for retrieval without a search.
#[derive(Debug)]
pub struct ContextReference {
    pub context_id: u128,
    /// Where given, only the chunks with these identifiers are wanted.
    pub chunk_ids: Option<Vec<u128>>,
    /// The weight of the reference, as the bits of an IEEE 754 binary32
    /// number; where absent, the weight is one.
    pub weight: Option<u32>,
}

/// How well a context matches.
#[derive(Clone, Copy, Debug, PartialEq, Eq, Structural)]
pub enum Score {
    /// The part of the query's terms that the context holds: `matched` out of
    /// `total`, and zero where `total` is zero.
    Ratio { matched: usize, total: usize },
    /// A weight that the caller gave, as the bits of an IEEE 754 binary32
    /// number.
    Weight { bits: u32 },
}

/// The bits of the IEEE 754 binary32 number one.
pub const UNIT_WEIGHT: u32 = 0x3f80_0000;

/// One context that a retrieval found.
#[derive(Debug)]
pub struct ContextMatch {
    pub context: Context,
    /// The chunks of the context that belong to the match.
    pub chunks: Option<Vec<ContextChunk>>,
    pub score: Score,
}

/// What a retrieval found.
#[derive(Debug)]
pub struct ContextSearchResult {
    pub matches: Vec<ContextMatch>,
    /// The number of matches.
    pub total_matches: usize,
}

/// The mathematical content of a `ContextMetadata`.
pub struct MetadataView {
    pub source: Option<Seq<char>>,
    pub content_type: Option<Seq<char>>,
    pub content_hash: Option<Seq<char>>,
    pub tags: Seq<Seq<char>>,
    pub custom: Map<String, String>,
}

/// The mathematical content of a `Context`.
pub struct ContextView {
    pub id: u128,
    pub content: Seq<char>,
    pub metadata: MetadataView,
    pub created_at: Timestamp,
    pub expires_at: Option<Timestamp>,
}

/// The mathematical content of a `ContextChunk`.
pub struct ChunkView {
    pub context_id: u128,
    pub chunk_id: u128,
    pub content: Seq<char>,
    pub embedding: Option<Seq<u64>>,
    pub position: usize,
}

/// The mathematical content of a `ContextReference`.
pub struct ReferenceView {
    pub context_id: u128,
    pub chunk_ids: Option<Seq<u128>>,
    pub weight: Option<u32>,
}

/// The mathematical content of a `ContextMatch`.
pub struct MatchView {
    pub context: ContextView,
    pub chunks: Option<Seq<ChunkView>>,
    pub score: Score,
}

/// The characters of an optional string.
pub open spec fn text_of(s: Option<String>) -> Option<Seq<char>> {
    match s {
        Some(s) => Some(s@),
        None => None,
    }
}

/// The texts of a list of strings.
pub open spec fn texts_of(list: Seq<String>) -> Seq<Seq<char>> {
    list.map_values(|s: String| s@)
}

/// The contents of a list of contexts.
pub open spec fn contexts_of(list: Seq<Context>) -> Seq<ContextView> {
    list.map_values(|c: Context| c@)
}

/// The contents of a list of chunks.
pub open spec fn chunks_of(list: Seq<ContextChunk>) -> Seq<ChunkView> {
    list.map_values(|c: ContextChunk| c@)
}

/// The contents of a list of references.
pub open spec fn references_of(list: Seq<ContextReference>) -> Seq<ReferenceView> {
    list.map_values(|r: ContextReference| r@)
}

/// The contents of a list of matches.
pub open spec fn matches_of(list: Seq<ContextMatch>) -> Seq<MatchView> {
    list.map_values(|m: ContextMatch| m@)
}

impl View for ContextMetadata {
    type V = MetadataView;

    open spec fn view(&self) -> MetadataView {
        MetadataView {
            source: text_of(self.source),
            content_type: text_of(self.content_type),
            content_hash: text_of(self.content_hash),
            tags: texts_of(self.tags@),
            custom: self.custom@,
        }
    }
}

impl View for Context {
    type V = ContextView;

    open spec fn view(&self) -> ContextView {
        ContextView {
            id: self.id,
            content: self.content@,
            metadata: self.metadata@,
            created_at: self.created_at,
            expires_at: self.expires_at,
        }
    }
}

impl View for ContextChunk {
    type V = ChunkView;

    open spec fn view(&self) -> ChunkView {
        ChunkView {
            context_id: self.context_id,
            chunk_id: self.chunk_id,
            content: self.content@,
            embedding: match self.embedding {
                Some(v) => Some(v@),
                None => None,
            },
            position: self.position,
        }
    }
}

impl View for ContextReference {
    type V = ReferenceView;

    open spec fn view(&self) -> ReferenceView {
        ReferenceView {
            context_id: self.context_id,
            chunk_ids: match self.chunk_ids {
                Some(ids) => Some(ids@),
                None => None,
            },
            weight: self.weight,
        }
    }
}

impl View for ContextMatch {
    type V = MatchView;

    open spec fn view(&self) -> MatchView {
        MatchView {
            context: self.context@,
            chunks: match self.chunks {
                Some(list) => Some(chunks_of(list@)),
                None => None,
            },
            score: self.score,
        }
    }
}

impl Default for ContextMetadata {
    fn default() -> (r: Self)
        ensures
            r.source is None,
            r.content_type is None,
            r.content_hash is None,
            r.tags@.len() == 0,
            r.custom@ == Map::<String, String>::empty(),
    {
        ContextMetadata {
            source: None,
            content_type: None,
            content_hash: None,
            tags: Vec::new(),
            custom: HashMap::new(),
        }
    }
}

/// A copy of an optional string.
pub fn copy_text(s: &Option<String>) -> (r: Option<String>)
    ensures
        text_of(r) == text_of(*s),
{
    match s {
        Some(t) => Some(t.clone()),
        None => None,
    }
}

/// A copy of a list of strings.
pub fn copy_texts(list: &Vec<String>) -> (r: Vec<String>)
    ensures
        texts_of(r@) == texts_of(list@),
{
    let mut r: Vec<String> = Vec::new();
    let mut i: usize = 0;
    while i < list.len()
        invariant
            i <= list.len(),
            texts_of(r@) == texts_of(list@.take(i as int)),
        decreases list.len() - i,
    {
        let ghost before = r@;
        r.push(list[i].clone());
        assert(list@.take(i + 1) =~= list@.take(i as int).push(list@[i as int]));
        assert(texts_of(r@) =~= texts_of(before).push(list@[i as int]@));
        assert(texts_of(r@) =~= texts_of(list@.take(i + 1)));
        i += 1;
    }
    assert(list@.take(i as int) =~= list@);
    r
}

impl Clone for ContextMetadata {
    fn clone(&self) -> (r: Self)
        ensures
            r@ == self@,
    {
        ContextMetadata {
            source: copy_text(&self.source),
            content_type: copy_text(&self.content_type),
            content_hash: copy_text(&self.content_hash),
            tags: copy_texts(&self.tags),
            custom: self.custom.clone(),
        }
    }
}

impl Clone for Context {
    fn clone(&self) -> (r: Self)
        ensures
            r@ == self@,
    {
        Context {
            id: self.id,
            content: self.content.clone(),
            metadata: self.metadata.clone(),
            created_at: self.created_at,
            expires_at: self.expires_at,
        }
    }
}

/// A copy of a vector of counts.
pub fn copy_counts(v: &Vec<u64>) -> (r: Vec<u64>)
    ensures
        r@ == v@,
{
    let mut r: Vec<u64> = Vec::new();
    let mut i: usize = 0;
    while i < v.len()
        invariant
            i <= v.len(),
            r@ == v@.take(i as int),
        decreases v.len() - i,
    {
        r.push(v[i]);
        assert(r@ =~= v@.take(i + 1));
        i += 1;
    }
    assert(v@.take(i as int) =~= v@);
    r
}

impl Clone for ContextChunk {
    fn clone(&self) -> (r: Self)
        ensures
            r@ == self@,
    {
        ContextChunk {
            context_id: self.context_id,
            chunk_id: self.chunk_id,
            content: self.content.clone(),
            embedding: match &self.embedding {
                Some(v) => Some(copy_counts(v)),
                None => None,
            },
            position: self.position,
        }
    }
}

/// A copy of a list of chunks.
pub fn copy_chunks(list: &Vec<ContextChunk>) -> (r: Vec<ContextChunk>)
    ensures
        chunks_of(r@) == chunks_of(list@),
{
    let mut r: Vec<ContextChunk> = Vec::new();
    let mut i: usize = 0;
    while i < list.len()
        invariant
            i <= list.len(),
            chunks_of(r@) == chunks_of(list@.take(i as int)),
        decreases list.len() - i,
    {
        let ghost before = r@;
        r.push(list[i].clone());
        assert(list@.take(i + 1) =~= list@.take(i as int).push(list@[i as int]));
        assert(chunks_of(r@) =~= chunks_of(before).push(list@[i as int]@));
        assert(chunks_of(r@) =~= chunks_of(list@.take(i + 1)));
        i += 1;
    }
    assert(list@.take(i as int) =~= list@);
    r
}

} // verus!
