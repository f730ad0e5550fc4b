use vstd::prelude::*;
use vstd::string::StringSliceAdditionalSpecFns;
use vstd::utf8::encode_utf8;
use crate::domain::error::{McpError, McpResult};
use crate::domain::model::{chunks_of, copy_counts, texts_of, ChunkView, ContextChunk};
use crate::domain::ranking::{is_ranking, lemma_ranking_sorted, positions, rank, ranking, Ranked};
use crate::domain::similarity::{cosine_similarity, similarity, total, total_upto, Similarity};
use crate::domain::text::{
    alphanumerics, chars_of, keep_alphanumerics, lowercase, split_words, string_of, texts,
    to_lowercase, words,
};
use crate::ports::embedding_port::{embedded, hits_of, EmbeddingPort};

verus! {

broadcast use {vstd::string::group_string_axioms, vstd::slice::group_slice_axioms};

/// The token of a word: its letters and digits, in lower case.
pub open spec fn token(word: Seq<char>) -> Seq<char> {
    alphanumerics(lowercase(word))
}

/// The sum of the bytes.
pub open spec fn byte_sum(bytes: Seq<u8>) -> nat
    decreases bytes.len(),
{
    if bytes.len() == 0 {
        0
    } else {
        byte_sum(bytes.drop_last()) + (bytes.last() as nat)
    }
}

/// The dimension of a token among `dimension` of them: the sum of the bytes
/// of its UTF-8 form, cut to 64 bits, modulo `dimension`.
pub open spec fn token_slot(token: Seq<char>, dimension: nat) -> nat {
    (byte_sum(encode_utf8(token)) % 0x1_0000_0000_0000_0000) % dimension
}

/// The token of `word` is not empty and has the dimension `slot`.
pub open spec fn falls_into(word: Seq<char>, dimension: nat, slot: nat) -> bool {
    token(word).len() > 0 && token_slot(token(word), dimension) == slot
}

/// How many of `words` have a token that is not empty and has the dimension
/// `slot`.
pub open spec fn hits(words: Seq<Seq<char>>, dimension: nat, slot: nat) -> nat {
    words.filter(|w: Seq<char>| falls_into(w, dimension, slot)).len()
}

/// The vector of a text: for each dimension, how many words of the text have
/// a token of that dimension.
pub open spec fn term_vector(text: Seq<char>, dimension: nat) -> Seq<u64> {
    Seq::new(dimension, |slot: int| hits(words(text), dimension, slot as nat) as u64)
}

/// A kept chunk: the chunk as it was embedded, with its vector.
pub struct IndexEntry {
    pub context_id: u128,
    pub chunk_id: u128,
    pub content: String,
    pub vector: Vec<u64>,
    pub position: usize,
}

impl View for IndexEntry {
    type V = ChunkView;

    open spec fn view(&self) -> ChunkView {
        ChunkView {
            context_id: self.context_id,
            chunk_id: self.chunk_id,
            content: self.content@,
            embedding: Some(self.vector@),
            position: self.position,
        }
    }
}

/// What a list of kept chunks holds.
pub open spec fn entries_of(index: Seq<IndexEntry>) -> Seq<ChunkView> {
    index.map_values(|e: IndexEntry| e@)
}

/// No two chunks are kept under one identifier.
pub open spec fn distinct_keys(index: Seq<ChunkView>) -> bool {
    forall|i: int, j: int|
        0 <= i < j < index.len() ==> (#[trigger] index[i]).chunk_id != (
        #[trigger] index[j]).chunk_id
}

/// Where a chunk is kept under `chunk_id`, the first such place.
pub open spec fn kept_at(index: Seq<ChunkView>, chunk_id: u128) -> Option<int>
    decreases index.len(),
{
    if index.len() == 0 {
        None
    } else {
        match kept_at(index.drop_last(), chunk_id) {
            Some(at) => Some(at),
            None => if index.last().chunk_id == chunk_id {
                Some(index.len() - 1)
            } else {
                None
            },
        }
    }
}

/// The index with `chunk` kept under its identifier: in the place of the
/// chunk kept under it before, or at the end.
pub open spec fn keep(index: Seq<ChunkView>, chunk: ChunkView) -> Seq<ChunkView> {
    match kept_at(index, chunk.chunk_id) {
        Some(at) => index.update(at, chunk),
        None => index.push(chunk),
    }
}

/// The index after the first `n` of `chunks` have been kept, one after the
/// other, each with the vector of its text.
pub open spec fn keep_all(index: Seq<ChunkView>, chunks: Seq<ChunkView>, dimension: nat, n: nat)
    -> Seq<ChunkView>
    decreases n,
{
    if n == 0 {
        index
    } else {
        keep(
            keep_all(index, chunks, dimension, (n - 1) as nat),
            embedded(chunks[n - 1], term_vector(chunks[n - 1].content, dimension)),
        )
    }
}

/// The similarity of `query` to the vector of each kept chunk.
pub open spec fn similarities(index: Seq<ChunkView>, query: Seq<u64>) -> Seq<Similarity> {
    Seq::new(index.len(), |i: int| similarity(query, index[i].embedding->0))
}

/// The `limit` kept chunks whose vectors are most similar to `query`, each
/// with its similarity, the most similar first, equally similar ones in the
/// order of the index.
pub open spec fn most_similar(index: Seq<ChunkView>, query: Seq<u64>, limit: nat) -> Seq<
    (ChunkView, Similarity),
> {
    let scores = similarities(index, query);
    Seq::new(
        if limit <= index.len() {
            limit
        } else {
            index.len()
        },
        |k: int| (index[ranking(scores)[k]], scores[ranking(scores)[k]]),
    )
}

/// An embedder that counts words: the vector of a text holds, for each
/// dimension, the number of the text's words whose token falls into it. It
/// keeps the chunks it has embedded in a list, each with its vector and under
/// its identifier.
pub struct SimpleEmbeddingService {
    chunk_embeddings: Vec<IndexEntry>,
    embedding_dimension: usize,
}

impl SimpleEmbeddingService {
    /// The kept chunks, each as it was embedded and with its vector, in the
    /// order in which their identifiers were first seen.
    pub closed spec fn index(&self) -> Seq<ChunkView> {
        entries_of(self.chunk_embeddings@)
    }

    /// An embedder with vectors of `embedding_dimension` entries, which keeps
    /// no chunk yet. The dimension must not be zero.
    pub fn new(embedding_dimension: usize) -> (r: Result<Self, McpError>)
        ensures
            r is Ok <==> embedding_dimension > 0,
            r matches Ok(service) ==> {
                &&& service.valid()
                &&& service.dimension() == embedding_dimension
                &&& service.index() == Seq::<ChunkView>::empty()
            },
            r matches Err(e) ==> e is ValidationError,
    {
        if embedding_dimension == 0 {
            return Err(
                McpError::ValidationError("embedding dimension must not be zero".to_owned()),
            );
        }
        let service = SimpleEmbeddingService { chunk_embeddings: Vec::new(), embedding_dimension };
        assert(service.index() =~= Seq::<ChunkView>::empty());
        Ok(service)
    }

    /// The dimension of a token that is not empty.
    fn slot_of(token: &str, dimension: usize) -> (slot: usize)
        requires
            dimension > 0,
        ensures
            slot == token_slot(token@, dimension as nat),
            slot < dimension,
    {
        let bytes = token.as_bytes();
        let mut sum: u64 = 0;
        let mut i: usize = 0;
        assert(bytes@.take(0) =~= Seq::<u8>::empty());
        while i < bytes.len()
            invariant
                i <= bytes@.len(),
                sum == byte_sum(bytes@.take(i as int)) % 0x1_0000_0000_0000_0000,
            decreases bytes@.len() - i,
        {
            proof {
                assert(bytes@.take(i + 1).drop_last() =~= bytes@.take(i as int));
                let before = byte_sum(bytes@.take(i as int));
                let b = bytes@[i as int] as int;
                assert((before + b) % 0x1_0000_0000_0000_0000 == ((before
                    % 0x1_0000_0000_0000_0000) + b) % 0x1_0000_0000_0000_0000) by {
                    vstd::arithmetic::div_mod::lemma_add_mod_noop(
                        before as int,
                        b,
                        0x1_0000_0000_0000_0000,
                    );
                    vstd::arithmetic::div_mod::lemma_small_mod(b as nat, 0x1_0000_0000_0000_0000);
                }
            }
            sum = sum.wrapping_add(bytes[i] as u64);
            i += 1;
        }
        assert(bytes@.take(i as int) =~= bytes@);
        (sum % (dimension as u64)) as usize
    }

    /// The vector of `text`: for each dimension, the number of the text's
    /// words whose token falls into it. It depends on the text and the
    /// dimension alone, not on what the embedder keeps.
    pub fn compute_embedding(&self, text: &str) -> (vector: Vec<u64>)
        requires
            self.valid(),
        ensures
            vector@ == term_vector(text@, self.dimension()),
            vector@ == self.embedding_of(text@),
            vector@.len() == self.dimension(),
            total(vector@) <= u64::MAX,
    {
        let dimension = self.embedding_dimension;
        let letters = chars_of(text);
        let parts = split_words(&letters);
        let mut vector: Vec<u64> = Vec::new();
        let mut d: usize = 0;
        while d < dimension
            invariant
                d <= dimension,
                vector@.len() == d,
                forall|s: int| 0 <= s < d ==> vector@[s] == 0,
                total_upto(vector@, d as nat) == 0,
            decreases dimension - d,
        {
            let ghost before = vector@;
            vector.push(0);
            proof {
                lemma_total_upto_same(before, vector@, d as nat);
            }
            d += 1;
        }
        let mut j: usize = 0;
        proof {
            assert forall|s: nat| s < dimension implies hits(
                words(text@).take(0),
                dimension as nat,
                s,
            ) == 0 by {
                reveal(Seq::filter);
                assert(words(text@).take(0) =~= Seq::<Seq<char>>::empty());
            }
        }
        while j < parts.len()
            invariant
                j <= parts@.len(),
                dimension == self.embedding_dimension,
                dimension == self.dimension(),
                dimension > 0,
                texts(parts@) == words(text@),
                vector@.len() == dimension,
                forall|s: int|
                    0 <= s < dimension ==> #[trigger] vector@[s] == hits(
                        words(text@).take(j as int),
                        dimension as nat,
                        s as nat,
                    ),
                total(vector@) <= j,
            decreases parts@.len() - j,
        {
            let ghost word = words(text@)[j as int];
            assert(texts(parts@)[j as int] == parts@[j as int]@);
            let spelled = string_of(&parts[j]);
            let lowered = to_lowercase(spelled.as_str());
            let lower_letters = chars_of(lowered.as_str());
            let kept = keep_alphanumerics(&lower_letters);
            assert(kept@ == token(word));
            proof {
                assert(words(text@).take(j + 1).drop_last() =~= words(text@).take(j as int));
                reveal(Seq::filter);
            }
            if kept.len() > 0 {
                let name = string_of(&kept);
                let slot = Self::slot_of(name.as_str(), dimension);
                let ghost before = vector@;
                proof {
                    lemma_entry_at_most_total(before, slot as int);
                }
                let count = vector[slot] + 1;
                vector.set(slot, count);
                proof {
                    lemma_total_after_increment(before, slot as int);
                    assert(vector@ =~= before.update(slot as int, (before[slot as int] + 1) as u64));
                }
            }
            j += 1;
        }
        assert(words(text@).take(j as int) =~= words(text@));
        assert(vector@ =~= term_vector(text@, self.dimension()));
        vector
    }

    /// Where a chunk is kept under `chunk_id`.
    fn find_entry(&self, chunk_id: u128) -> (at: Option<usize>)
        ensures
            match at {
                Some(i) => kept_at(self.index(), chunk_id) == Some(i as int) && i
                    < self.chunk_embeddings@.len(),
                None => kept_at(self.index(), chunk_id) is None,
            },
    {
        let mut i: usize = 0;
        assert(self.index().take(0) =~= Seq::<ChunkView>::empty());
        while i < self.chunk_embeddings.len()
            invariant
                i <= self.chunk_embeddings@.len(),
                kept_at(self.index().take(i as int), chunk_id) is None,
            decreases self.chunk_embeddings@.len() - i,
        {
            assert(self.index().take(i + 1).drop_last() =~= self.index().take(i as int));
            assert(self.index()[i as int].chunk_id == self.chunk_embeddings@[i as int].chunk_id);
            if self.chunk_embeddings[i].chunk_id == chunk_id {
                proof {
                    lemma_kept_at_extends(self.index(), chunk_id, i + 1);
                }
                return Some(i);
            }
            i += 1;
        }
        assert(self.index().take(i as int) =~= self.index());
        None
    }
}

impl EmbeddingPort for SimpleEmbeddingService {
    closed spec fn valid(&self) -> bool {
        &&& self.embedding_dimension > 0
        &&& distinct_keys(entries_of(self.chunk_embeddings@))
        &&& forall|i: int|
            0 <= i < self.chunk_embeddings@.len() ==> total(
                (#[trigger] self.chunk_embeddings@[i]).vector@,
            ) <= u64::MAX
    }

    open spec fn dependable(&self) -> bool {
        true
    }

    closed spec fn dimension(&self) -> nat {
        self.embedding_dimension as nat
    }

    open spec fn embedding_of(&self, text: Seq<char>) -> Seq<u64> {
        term_vector(text, self.dimension())
    }

    open spec fn similar(&self, query: Seq<char>, limit: nat) -> Seq<(ChunkView, Similarity)> {
        most_similar(self.index(), term_vector(query, self.dimension()), limit)
    }

    /// This embedder knows no tags: it finds what it finds without them.
    open spec fn similar_with_tags(&self, query: Seq<char>, tags: Seq<Seq<char>>, limit: nat)
        -> Seq<(ChunkView, Similarity)> {
        self.similar(query, limit)
    }

    /// Never fails. The chunks are kept one after the other, each with its
    /// vector: under a new identifier at the end of the index, under a known
    /// one in the place of the chunk kept before.
    fn embed_chunks(&mut self, chunks: Vec<ContextChunk>) -> (r: McpResult<Vec<ContextChunk>>)
        ensures
            r is Ok,
            final(self).index() == keep_all(
                old(self).index(),
                chunks_of(chunks@),
                old(self).dimension(),
                chunks@.len(),
            ),
            distinct_keys(final(self).index()),
    {
        let mut done: Vec<ContextChunk> = Vec::new();
        let mut i: usize = 0;
        while i < chunks.len()
            invariant
                i <= chunks@.len(),
                self.valid(),
                self.embedding_dimension == old(self).embedding_dimension,
                done@.len() == i,
                forall|k: int|
                    0 <= k < i ==> (#[trigger] done@[k])@ == embedded(
                        chunks@[k]@,
                        term_vector(chunks@[k].content@, self.dimension()),
                    ),
                self.index() == keep_all(
                    old(self).index(),
                    chunks_of(chunks@),
                    self.dimension(),
                    i as nat,
                ),
            decreases chunks@.len() - i,
        {
            let chunk = &chunks[i];
            let vector = self.compute_embedding(chunk.content.as_str());
            let entry = IndexEntry {
                context_id: chunk.context_id,
                chunk_id: chunk.chunk_id,
                content: chunk.content.clone(),
                vector: copy_counts(&vector),
                position: chunk.position,
            };
            let ghost before = self.index();
            let ghost kept = embedded(chunk@, vector@);
            assert(entry@ == kept);
            assert(chunks_of(chunks@)[i as int] == chunk@);
            proof {
                lemma_kept_at(before, chunk.chunk_id);
            }
            match self.find_entry(chunk.chunk_id) {
                Some(at) => {
                    self.chunk_embeddings.set(at, entry);
                    assert(self.index() =~= before.update(at as int, kept));
                    assert forall|i: int, j: int| 0 <= i < j < self.index().len() implies (
                    #[trigger] self.index()[i]).chunk_id != (
                    #[trigger] self.index()[j]).chunk_id by {
                        assert(self.index()[i].chunk_id == before[i].chunk_id);
                        assert(self.index()[j].chunk_id == before[j].chunk_id);
                    }
                },
                None => {
                    self.chunk_embeddings.push(entry);
                    assert(self.index() =~= before.push(kept));
                    assert forall|i: int, j: int| 0 <= i < j < self.index().len() implies (
                    #[trigger] self.index()[i]).chunk_id != (
                    #[trigger] self.index()[j]).chunk_id by {
                        assert(self.index()[i] == before[i]);
                        if j < before.len() {
                            assert(self.index()[j] == before[j]);
                        }
                    }
                },
            }
            done.push(
                ContextChunk {
                    context_id: chunk.context_id,
                    chunk_id: chunk.chunk_id,
                    content: chunk.content.clone(),
                    embedding: Some(vector),
                    position: chunk.position,
                },
            );
            i += 1;
        }
        Ok(done)
    }

    /// Never fails. The vector of every kept chunk is compared with the
    /// vector of the query, and the `limit` most similar chunks are handed
    /// out as they were embedded, the most similar first, equally similar
    /// ones in the order of the index.
    fn find_similar(&self, query: &str, limit: usize) -> (r: McpResult<
        Vec<(ContextChunk, Similarity)>,
    >)
        ensures
            r matches Ok(found) && hits_of(found@) == most_similar(
                self.index(),
                term_vector(query@, self.dimension()),
                limit as nat,
            ),
    {
        let wanted = self.compute_embedding(query);
        let mut scores: Vec<Similarity> = Vec::new();
        let mut i: usize = 0;
        while i < self.chunk_embeddings.len()
            invariant
                i <= self.chunk_embeddings@.len(),
                self.valid(),
                total(wanted@) <= u64::MAX,
                scores@.len() == i,
                forall|k: int|
                    0 <= k < i ==> #[trigger] scores@[k] == similarity(
                        wanted@,
                        self.index()[k].embedding->0,
                    ),
            decreases self.chunk_embeddings@.len() - i,
        {
            assert(self.index()[i as int] == self.chunk_embeddings@[i as int]@);
            scores.push(cosine_similarity(&wanted, &self.chunk_embeddings[i].vector));
            i += 1;
        }
        assert(scores@ =~= similarities(self.index(), wanted@));
        let order = rank(&scores);
        let keep_count = if limit <= order.len() {
            limit
        } else {
            order.len()
        };
        let mut found: Vec<(ContextChunk, Similarity)> = Vec::new();
        let mut k: usize = 0;
        while k < keep_count
            invariant
                k <= keep_count <= order@.len(),
                order@.len() == self.index().len(),
                self.index().len() == self.chunk_embeddings@.len(),
                scores@ == similarities(self.index(), wanted@),
                positions(order@) == ranking(scores@),
                is_ranking(scores@, positions(order@)),
                found@.len() == k,
                forall|p: int|
                    0 <= p < k ==> {
                        let at = ranking(scores@)[p];
                        let hit = #[trigger] found@[p];
                        &&& 0 <= at < self.index().len()
                        &&& hit.0@ == self.index()[at]
                        &&& hit.1 == scores@[at]
                    },
            decreases keep_count - k,
        {
            let at = order[k];
            assert(positions(order@)[k as int] == at);
            let entry = &self.chunk_embeddings[at];
            assert(self.index()[at as int] == entry@);
            let chunk = ContextChunk {
                context_id: entry.context_id,
                chunk_id: entry.chunk_id,
                content: entry.content.clone(),
                embedding: Some(copy_counts(&entry.vector)),
                position: entry.position,
            };
            found.push((chunk, scores[at]));
            k += 1;
        }
        proof {
            assert forall|i: int, j: int| 0 <= i <= j < found@.len() implies !(
            #[trigger] found@[j]).1.above(&(#[trigger] found@[i]).1) by {
                lemma_ranking_sorted(scores@, positions(order@), i, j);
            }
            assert(hits_of(found@) =~= most_similar(self.index(), wanted@, limit as nat));
        }
        Ok(found)
    }

    /// As `find_similar`: this embedder knows no tags, and looks at every
    /// kept chunk.
    fn find_similar_with_tags(&self, query: &str, _tags: &[String], limit: usize) -> (r: McpResult<
        Vec<(ContextChunk, Similarity)>,
    >)
        ensures
            r matches Ok(found) && hits_of(found@) == most_similar(
                self.index(),
                term_vector(query@, self.dimension()),
                limit as nat,
            ),
    {
        self.find_similar(query, limit)
    }
}

/// The vector of a text depends on the text and the dimension alone: two
/// embedders of one dimension, whatever they keep, give the same text the
/// same vector.
pub proof fn lemma_same_text_same_vector(
    one: &SimpleEmbeddingService,
    other: &SimpleEmbeddingService,
    text: Seq<char>,
    same_text: Seq<char>,
)
    requires
        one.dimension() == other.dimension(),
        text == same_text,
    ensures
        one.embedding_of(text) == other.embedding_of(same_text),
        one.embedding_of(text).len() == one.dimension(),
{
}

/// A valid embedder keeps no two chunks under one identifier, and keeps each
/// chunk with a vector.
pub proof fn lemma_index_has_distinct_keys(service: &SimpleEmbeddingService)
    requires
        service.valid(),
    ensures
        distinct_keys(service.index()),
        forall|i: int|
            0 <= i < service.index().len() ==> (#[trigger] service.index()[i]).embedding is Some,
{
}

/// What a search finds is kept: each chunk that `most_similar` names stands
/// in the index, with the similarity of its vector to the query, and none
/// ranks above one before it.
pub proof fn lemma_most_similar(index: Seq<ChunkView>, query: Seq<u64>, limit: nat)
    ensures
        most_similar(index, query, limit).len() <= limit,
        most_similar(index, query, limit).len() <= index.len(),
        forall|k: int|
            0 <= k < most_similar(index, query, limit).len() ==> {
                let hit = #[trigger] most_similar(index, query, limit)[k];
                &&& index.contains(hit.0)
                &&& hit.1 == similarity(query, hit.0.embedding->0)
            },
        forall|i: int, j: int|
            0 <= i <= j < most_similar(index, query, limit).len() ==> !(
            #[trigger] most_similar(index, query, limit)[j]).1.above(
                &(#[trigger] most_similar(index, query, limit)[i]).1,
            ),
{
    let scores = similarities(index, query);
    let order = ranking(scores);
    let found = most_similar(index, query, limit);
    crate::domain::ranking::lemma_ranking_of_first(scores, scores.len());
    assert forall|k: int| 0 <= k < found.len() implies {
        let hit = #[trigger] found[k];
        &&& index.contains(hit.0)
        &&& hit.1 == similarity(query, hit.0.embedding->0)
    } by {
        let at = order[k];
        assert(0 <= at < index.len());
        assert(index[at] == found[k].0);
    }
    assert forall|i: int, j: int| 0 <= i <= j < found.len() implies !(#[trigger] found[j]).1.above(
        &(#[trigger] found[i]).1,
    ) by {
        lemma_ranking_sorted(scores, order, i, j);
    }
}

/// What `kept_at` finds: the first place at which a chunk is kept under the
/// identifier, or no place where none is.
pub proof fn lemma_kept_at(index: Seq<ChunkView>, chunk_id: u128)
    ensures
        match kept_at(index, chunk_id) {
            Some(at) => 0 <= at < index.len() && index[at].chunk_id == chunk_id && forall|i: int|
                0 <= i < at ==> (#[trigger] index[i]).chunk_id != chunk_id,
            None => forall|i: int|
                0 <= i < index.len() ==> (#[trigger] index[i]).chunk_id != chunk_id,
        },
    decreases index.len(),
{
    if index.len() > 0 {
        let shorter = index.drop_last();
        lemma_kept_at(shorter, chunk_id);
        match kept_at(shorter, chunk_id) {
            Some(at) => {
                assert forall|i: int| 0 <= i < at implies (#[trigger] index[i]).chunk_id
                    != chunk_id by {
                    assert(shorter[i] == index[i]);
                }
            },
            None => {
                assert forall|i: int| 0 <= i < index.len() - 1 implies (
                #[trigger] index[i]).chunk_id != chunk_id by {
                    assert(shorter[i] == index[i]);
                }
            },
        }
    }
}

/// Two places that both are the first under an identifier are one place.
pub proof fn lemma_kept_at_is(index: Seq<ChunkView>, chunk_id: u128, at: int)
    requires
        0 <= at < index.len(),
        index[at].chunk_id == chunk_id,
        forall|i: int| 0 <= i < at ==> (#[trigger] index[i]).chunk_id != chunk_id,
    ensures
        kept_at(index, chunk_id) == Some(at),
{
    lemma_kept_at(index, chunk_id);
}

/// Keeping a chunk is idempotent: to keep the same chunk once more changes
/// nothing.
pub proof fn lemma_keep_idempotent(index: Seq<ChunkView>, chunk: ChunkView)
    ensures
        keep(keep(index, chunk), chunk) == keep(index, chunk),
        kept_at(keep(index, chunk), chunk.chunk_id) is Some,
        keep(index, chunk)[kept_at(keep(index, chunk), chunk.chunk_id)->0] == chunk,
{
    lemma_kept_at(index, chunk.chunk_id);
    let once = keep(index, chunk);
    let at = match kept_at(index, chunk.chunk_id) {
        Some(at) => at,
        None => index.len() as int,
    };
    assert(once[at] == chunk);
    assert forall|i: int| 0 <= i < at implies (#[trigger] once[i]).chunk_id != chunk.chunk_id by {
        assert(once[i] == index[i]);
    }
    lemma_kept_at_is(once, chunk.chunk_id, at);
    assert(once.update(at, chunk) =~= once);
}

/// The last of the first `n` chunks that carries the identifier, with the
/// vector of its text, if one of them carries it.
pub open spec fn last_kept(chunks: Seq<ChunkView>, dimension: nat, n: nat, chunk_id: u128)
    -> Option<ChunkView>
    decreases n,
{
    if n == 0 {
        None
    } else if chunks[n - 1].chunk_id == chunk_id {
        Some(embedded(chunks[n - 1], term_vector(chunks[n - 1].content, dimension)))
    } else {
        last_kept(chunks, dimension, (n - 1) as nat, chunk_id)
    }
}

/// What the index holds after chunks have been kept: the identifiers it held
/// stay where they were; under each identifier the last chunk that carries
/// it is kept, with the vector of its text, or the chunk that was kept
/// before where none carries it; and no two chunks are kept under one
/// identifier.
pub proof fn lemma_keep_all(index: Seq<ChunkView>, chunks: Seq<ChunkView>, dimension: nat, n: nat)
    requires
        distinct_keys(index),
        n <= chunks.len(),
    ensures
        distinct_keys(keep_all(index, chunks, dimension, n)),
        keep_all(index, chunks, dimension, n).len() >= index.len(),
        forall|i: int|
            0 <= i < index.len() ==> (#[trigger] keep_all(
                index,
                chunks,
                dimension,
                n,
            )[i]).chunk_id == index[i].chunk_id,
        forall|i: int|
            0 <= i < keep_all(index, chunks, dimension, n).len() ==> {
                let entry = #[trigger] keep_all(index, chunks, dimension, n)[i];
                match last_kept(chunks, dimension, n, entry.chunk_id) {
                    Some(chunk) => entry == chunk,
                    None => i < index.len() && entry == index[i],
                }
            },
        forall|k: int|
            0 <= k < n ==> kept_at(
                keep_all(index, chunks, dimension, n),
                (#[trigger] chunks[k]).chunk_id,
            ) is Some,
    decreases n,
{
    if n > 0 {
        let m = (n - 1) as nat;
        let before = keep_all(index, chunks, dimension, m);
        let id = chunks[n - 1].chunk_id;
        let chunk = embedded(chunks[n - 1], term_vector(chunks[n - 1].content, dimension));
        let after = keep(before, chunk);
        lemma_keep_all(index, chunks, dimension, m);
        lemma_kept_at(before, id);
        assert(after == keep_all(index, chunks, dimension, n));
        let place = match kept_at(before, id) {
            Some(at) => at,
            None => before.len() as int,
        };
        assert(after[place] == chunk);
        assert forall|i: int| 0 <= i < after.len() && i != place implies #[trigger] after[i]
            == before[i] by {}
        assert forall|i: int, j: int| 0 <= i < j < after.len() implies (
        #[trigger] after[i]).chunk_id != (#[trigger] after[j]).chunk_id by {
            if i != place && j != place {
                assert(before[i].chunk_id != before[j].chunk_id);
            } else if kept_at(before, id) is Some {
                assert(after[i].chunk_id == before[i].chunk_id);
                assert(after[j].chunk_id == before[j].chunk_id);
            } else {
                assert(after[i] == before[i]);
            }
        }
        assert forall|i: int| 0 <= i < index.len() implies (#[trigger] after[i]).chunk_id
            == index[i].chunk_id by {
            assert(before[i].chunk_id == index[i].chunk_id);
            if i != place {
                assert(after[i] == before[i]);
            }
        }
        assert forall|i: int| 0 <= i < after.len() implies {
            let entry = #[trigger] after[i];
            match last_kept(chunks, dimension, n, entry.chunk_id) {
                Some(found) => entry == found,
                None => i < index.len() && entry == index[i],
            }
        } by {
            if i != place {
                assert(after[i] == before[i]);
                if after[i].chunk_id == id {
                    if kept_at(before, id) is Some {
                        if i < place {
                            assert(before[i].chunk_id != before[place].chunk_id);
                        } else {
                            assert(before[place].chunk_id != before[i].chunk_id);
                        }
                    }
                }
            }
        }
        assert forall|k: int| 0 <= k < n implies kept_at(after, (#[trigger] chunks[k]).chunk_id)
            is Some by {
            let wanted = chunks[k].chunk_id;
            lemma_kept_at(after, wanted);
            if wanted == id {
                assert(after[place].chunk_id == wanted);
            } else {
                assert(kept_at(before, wanted) is Some);
                lemma_kept_at(before, wanted);
                let at = kept_at(before, wanted)->0;
                assert(after[at].chunk_id == wanted);
            }
        }
    } else {
        assert forall|i: int| 0 <= i < index.len() implies {
            let entry = #[trigger] index[i];
            last_kept(chunks, dimension, 0, entry.chunk_id) is None
        } by {}
    }
}

/// Where a chunk is kept under the identifier of each of the first `n`
/// chunks, keeping them adds no place to the index.
pub proof fn lemma_keep_all_adds_nothing(
    index: Seq<ChunkView>,
    chunks: Seq<ChunkView>,
    dimension: nat,
    n: nat,
)
    requires
        distinct_keys(index),
        n <= chunks.len(),
        forall|k: int| 0 <= k < n ==> kept_at(index, (#[trigger] chunks[k]).chunk_id) is Some,
    ensures
        keep_all(index, chunks, dimension, n).len() == index.len(),
    decreases n,
{
    if n > 0 {
        let m = (n - 1) as nat;
        let before = keep_all(index, chunks, dimension, m);
        let id = chunks[n - 1].chunk_id;
        lemma_keep_all_adds_nothing(index, chunks, dimension, m);
        lemma_keep_all(index, chunks, dimension, m);
        lemma_kept_at(index, id);
        lemma_kept_at(before, id);
        let at = kept_at(index, id)->0;
        assert(before[at].chunk_id == id);
    }
}

/// Embedding is idempotent: once chunks have been kept, to keep the same
/// chunks once more changes nothing.
pub proof fn lemma_embedding_is_idempotent(
    index: Seq<ChunkView>,
    chunks: Seq<ChunkView>,
    dimension: nat,
)
    requires
        distinct_keys(index),
    ensures
        keep_all(keep_all(index, chunks, dimension, chunks.len()), chunks, dimension, chunks.len())
            == keep_all(index, chunks, dimension, chunks.len()),
{
    let n = chunks.len();
    let once = keep_all(index, chunks, dimension, n);
    let twice = keep_all(once, chunks, dimension, n);
    lemma_keep_all(index, chunks, dimension, n);
    lemma_keep_all(once, chunks, dimension, n);
    lemma_keep_all_adds_nothing(once, chunks, dimension, n);
    assert forall|i: int| 0 <= i < once.len() implies twice[i] == once[i] by {
        assert(twice[i].chunk_id == once[i].chunk_id);
    }
    assert(twice =~= once);
}

/// The sum over the first entries does not depend on what follows them.
pub proof fn lemma_total_upto_same(a: Seq<u64>, b: Seq<u64>, n: nat)
    requires
        n <= a.len(),
        n <= b.len(),
        forall|i: int| 0 <= i < n ==> a[i] == b[i],
    ensures
        total_upto(a, n) == total_upto(b, n),
    decreases n,
{
    if n > 0 {
        lemma_total_upto_same(a, b, (n - 1) as nat);
    }
}

/// Adding one to an entry adds one to the sum over a range that holds it,
/// and nothing to the sum over a range that does not.
pub proof fn lemma_total_upto_after_increment(v: Seq<u64>, at: int, n: nat)
    requires
        0 <= at < v.len(),
        n <= v.len(),
        v[at] < u64::MAX,
    ensures
        total_upto(v.update(at, (v[at] + 1) as u64), n) == total_upto(v, n) + if at < n {
            1nat
        } else {
            0nat
        },
    decreases n,
{
    if n > 0 {
        lemma_total_upto_after_increment(v, at, (n - 1) as nat);
    }
}

/// Adding one to an entry adds one to the sum of the entries.
pub proof fn lemma_total_after_increment(v: Seq<u64>, at: int)
    requires
        0 <= at < v.len(),
        v[at] < u64::MAX,
    ensures
        total(v.update(at, (v[at] + 1) as u64)) == total(v) + 1,
{
    lemma_total_upto_after_increment(v, at, v.len());
}

/// No entry is greater than the sum over a range that holds it.
pub proof fn lemma_entry_at_most_total_upto(v: Seq<u64>, at: int, n: nat)
    requires
        0 <= at < n <= v.len(),
    ensures
        v[at] <= total_upto(v, n),
    decreases n,
{
    if at < n - 1 {
        lemma_entry_at_most_total_upto(v, at, (n - 1) as nat);
    }
}

/// No entry is greater than the sum of the entries.
pub proof fn lemma_entry_at_most_total(v: Seq<u64>, at: int)
    requires
        0 <= at < v.len(),
    ensures
        v[at] <= total(v),
{
    lemma_entry_at_most_total_upto(v, at, v.len());
}

/// Where a chunk is kept under an identifier in the first `n` places of an
/// index, it is kept in the same place in the whole index.
pub proof fn lemma_kept_at_extends(index: Seq<ChunkView>, chunk_id: u128, n: int)
    requires
        0 <= n <= index.len(),
        kept_at(index.take(n), chunk_id) is Some,
    ensures
        kept_at(index, chunk_id) == kept_at(index.take(n), chunk_id),
    decreases index.len() - n,
{
    if n < index.len() {
        assert(index.take(n + 1).drop_last() =~= index.take(n));
        lemma_kept_at_extends(index, chunk_id, n + 1);
    } else {
        assert(index.take(n) =~= index);
    }
}

} // verus!
