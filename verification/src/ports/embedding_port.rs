use vstd::prelude::*;
use crate::domain::error::McpResult;
use crate::domain::model::{texts_of, ChunkView, ContextChunk};
use crate::domain::ranking::Ranked;
use crate::domain::similarity::Similarity;

verus! {

/// `chunk` with `vector` as its embedding.
pub open spec fn embedded(chunk: ChunkView, vector: Seq<u64>) -> ChunkView {
    ChunkView {
        context_id: chunk.context_id,
        chunk_id: chunk.chunk_id,
        content: chunk.content,
        embedding: Some(vector),
        position: chunk.position,
    }
}

/// What a list of found chunks holds: each chunk's content, with its
/// similarity.
pub open spec fn hits_of(found: Seq<(ContextChunk, Similarity)>) -> Seq<(ChunkView, Similarity)> {
    found.map_values(|hit: (ContextChunk, Similarity)| (hit.0@, hit.1))
}

/// The similarities stand best first: none ranks above one before it.
pub open spec fn best_first(found: Seq<(ContextChunk, Similarity)>) -> bool {
    forall|i: int, j: int|
        0 <= i <= j < found.len() ==> !(#[trigger] found[j]).1.above(&(#[trigger] found[i]).1)
}

/// An embedder: it gives each text a vector of a fixed dimension, always the
/// same vector for the same text, and finds the chunks whose vectors point
/// most nearly in the direction of a query's.
///
/// What it finds serves to choose candidates; the scores of a search come from
/// elsewhere.
///
/// An embedder is `dependable` where it has no failures of its own. Of one
/// that is not, every call may fail with any error, and nothing is promised
/// but that it stays valid. An embedder that is written without proofs gives
/// the three operations only: it is then valid, and not taken to be
/// dependable.
pub trait EmbeddingPort {
    /// The embedder is in order. An embedder that says nothing of itself is
    /// always in order.
    open spec fn valid(&self) -> bool {
        true
    }

    /// The embedder has no failures of its own. An embedder that says
    /// nothing of itself is not taken to be dependable.
    open spec fn dependable(&self) -> bool {
        false
    }

    /// The number of entries of each vector.
    open spec fn dimension(&self) -> nat {
        0
    }

    /// The vector of a text.
    open spec fn embedding_of(&self, text: Seq<char>) -> Seq<u64> {
        Seq::empty()
    }

    /// What a search for `query` finds: up to `limit` of the chunks whose
    /// vectors are kept, each as it was embedded and with the similarity of
    /// its vector to the query's, the most similar first.
    open spec fn similar(&self, query: Seq<char>, limit: nat) -> Seq<(ChunkView, Similarity)> {
        Seq::empty()
    }

    /// What a search for `query` finds among the chunks of contexts that
    /// carry `tags`.
    open spec fn similar_with_tags(&self, query: Seq<char>, tags: Seq<Seq<char>>, limit: nat)
        -> Seq<(ChunkView, Similarity)> {
        Seq::empty()
    }

    /// Gives each chunk the vector of its text and keeps the chunk, with its
    /// vector, under the chunk's identifier, in place of one kept under it
    /// before.
    fn embed_chunks(&mut self, chunks: Vec<ContextChunk>) -> (r: McpResult<Vec<ContextChunk>>)
        requires
            old(self).valid(),
        ensures
            final(self).valid(),
            final(self).dependable() == old(self).dependable(),
            final(self).dimension() == old(self).dimension(),
            forall|text: Seq<char>|
                #[trigger] final(self).embedding_of(text) == old(self).embedding_of(text),
            old(self).dependable() ==> {
                &&& r matches Ok(done)
                &&& done@.len() == chunks@.len()
                &&& forall|i: int|
                    0 <= i < done@.len() ==> (#[trigger] done@[i])@ == embedded(
                        chunks@[i]@,
                        old(self).embedding_of(chunks@[i].content@),
                    ) && old(self).embedding_of(chunks@[i].content@).len() == old(
                        self,
                    ).dimension()
            },
    ;

    /// Up to `limit` of the kept chunks whose vectors are most similar to the
    /// vector of `query`, each as it was embedded and with its similarity,
    /// the most similar first.
    fn find_similar(&self, query: &str, limit: usize) -> (r: McpResult<
        Vec<(ContextChunk, Similarity)>,
    >)
        requires
            self.valid(),
        ensures
            self.dependable() ==> {
                &&& r matches Ok(found)
                &&& hits_of(found@) == self.similar(query@, limit as nat)
                &&& found@.len() <= limit
                &&& best_first(found@)
            },
    ;

    /// As `find_similar`, among the chunks of contexts that carry `tags`.
    fn find_similar_with_tags(&self, query: &str, tags: &[String], limit: usize) -> (r: McpResult<
        Vec<(ContextChunk, Similarity)>,
    >)
        requires
            self.valid(),
        ensures
            self.dependable() ==> {
                &&& r matches Ok(found)
                &&& hits_of(found@) == self.similar_with_tags(
                    query@,
                    texts_of(tags@),
                    limit as nat,
                )
                &&& found@.len() <= limit
                &&& best_first(found@)
            },
    ;
}

} // verus!
