use vstd::prelude::*;
use crate::domain::error::{McpError, McpResult};
use crate::domain::model::{
    chunks_of, contexts_of, texts_of, ChunkView, Context, ContextMetadata, ContextView,
};
use crate::domain::service::{byte_len, covers, lemma_covers_same_windows, ChunkingService};
use crate::domain::system::{fresh_id, is_random_id, now};
use crate::ports::context_repository_port::{holds, page, slot, tagged, ContextRepositoryPort};
use crate::ports::embedding_port::{embedded, EmbeddingPort};

verus! {

/// Each of `chunks` carries the vector that `embedding` gives its text.
pub open spec fn embedded_by<E: EmbeddingPort>(embedding: &E, chunks: Seq<ChunkView>) -> bool {
    forall|k: int|
        0 <= k < chunks.len() ==> (#[trigger] chunks[k]).embedding == Some(
            embedding.embedding_of(chunks[k].content),
        )
}

/// Stores contexts, and keeps for each stored context the chunks of its text
/// with their vectors.
///
/// An operation works on a store and an embedder that the caller hands in.
/// It makes its calls one after the other, and where one of them fails, what
/// the earlier ones did stays done.
pub struct ContextManagementService {
    chunking_service: ChunkingService,
}

impl ContextManagementService {
    /// The service that cuts the texts into chunks.
    pub closed spec fn chunking(&self) -> &ChunkingService {
        &self.chunking_service
    }

    /// `after` are the chunk sets `before`, with the chunk set of `context`
    /// put in the place of the one stored for it: the windows of its text,
    /// each with the vector that `embedding` gives it. A context without
    /// text has no windows, and then no chunk set is stored for it.
    pub open spec fn rechunked<E: EmbeddingPort>(
        &self,
        embedding: &E,
        context: ContextView,
        before: Map<u128, Seq<ChunkView>>,
        after: Map<u128, Seq<ChunkView>>,
    ) -> bool {
        if byte_len(context.content) == 0 {
            after == before
        } else {
            &&& after.contains_key(context.id)
            &&& after == before.insert(context.id, after[context.id])
            &&& self.chunking().windows_of(context, after[context.id])
            &&& covers(after[context.id], byte_len(context.content))
            &&& embedded_by(embedding, after[context.id])
        }
    }

    /// The chunk sets of the store go with its contexts: each chunk set is
    /// stored for a stored context, and holds the windows of that context's
    /// text, which cover the text.
    pub open spec fn coherent<R: ContextRepositoryPort>(&self, repository: &R) -> bool {
        let contexts = repository.contexts();
        let sets = repository.chunk_sets();
        &&& forall|id: u128| #[trigger] sets.contains_key(id) ==> holds(contexts, id)
        &&& forall|i: int|
            0 <= i < contexts.len() && sets.contains_key((#[trigger] contexts[i]).id) ==> {
                &&& self.chunking().windows_of(contexts[i], sets[contexts[i].id])
                &&& covers(sets[contexts[i].id], byte_len(contexts[i].content))
            }
    }

    /// A service that cuts texts into windows of up to `max_chunk_size`
    /// bytes, of which a full one shares `chunk_overlap` bytes with the next.
    /// The overlap must be smaller than the window.
    pub fn new(max_chunk_size: usize, chunk_overlap: usize) -> (r: Result<Self, McpError>)
        ensures
            r is Ok <==> chunk_overlap < max_chunk_size,
            r matches Ok(s) ==> s.chunking().max_chunk_size() == max_chunk_size
                && s.chunking().overlap() == chunk_overlap,
            r matches Err(e) ==> e is ValidationError,
    {
        match ChunkingService::new(max_chunk_size, chunk_overlap) {
            Ok(chunking_service) => Ok(ContextManagementService { chunking_service }),
            Err(e) => Err(e),
        }
    }

    /// Whether the texts of `content` can be cut: every window starts and
    /// ends between two characters.
    pub fn accepts(&self, content: &str) -> (b: bool)
        ensures
            b == self.chunking().splits(content@),
    {
        self.chunking_service.can_split(content)
    }

    /// Cuts the text of `context` into chunks, has them embedded and stores
    /// them as the chunk set of the context.
    pub fn process_context<R: ContextRepositoryPort, E: EmbeddingPort>(
        &self,
        repository: &mut R,
        embedding: &mut E,
        context: Context,
    ) -> (r: McpResult<Context>)
        requires
            old(repository).valid(),
            old(embedding).valid(),
            self.chunking().splits(context.content@),
        ensures
            final(repository).valid(),
            final(embedding).valid(),
            final(repository).dependable() == old(repository).dependable(),
            final(embedding).dependable() == old(embedding).dependable(),
            final(embedding).dimension() == old(embedding).dimension(),
            forall|text: Seq<char>|
                #[trigger] final(embedding).embedding_of(text) == old(embedding).embedding_of(text),
            r matches Ok(done) ==> done@ == context@,
            old(repository).dependable() && old(embedding).dependable() ==> {
                &&& r is Ok
                &&& final(repository).contexts() == old(repository).contexts()
                &&& self.rechunked(
                    final(embedding),
                    context@,
                    old(repository).chunk_sets(),
                    final(repository).chunk_sets(),
                )
            },
    {
        let chunks = self.chunking_service.chunk_context(&context);
        let ghost plain = chunks_of(chunks@);
        let chunks_with_embeddings = match embedding.embed_chunks(chunks) {
            Ok(done) => done,
            Err(e) => {
                return Err(e);
            },
        };
        let ghost with_vectors = chunks_of(chunks_with_embeddings@);
        match repository.save_chunks(chunks_with_embeddings) {
            Ok(_) => {},
            Err(e) => {
                return Err(e);
            },
        }
        proof {
            if old(repository).dependable() && old(embedding).dependable() {
                assert(with_vectors.len() == plain.len());
                assert forall|k: int| 0 <= k < with_vectors.len() implies #[trigger] with_vectors[k]
                    == embedded(plain[k], old(embedding).embedding_of(plain[k].content)) by {
                    assert(with_vectors[k] == chunks_with_embeddings@[k]@);
                    assert(plain[k] == chunks@[k]@);
                }
                if byte_len(context.content@) > 0 {
                    assert(with_vectors[0].context_id == context.id);
                    let after = final(repository).chunk_sets();
                    assert(after[context.id] == with_vectors);
                    lemma_covers_same_windows(plain, with_vectors, byte_len(context.content@));
                }
            }
        }
        Ok(context)
    }

    /// Makes a context of `content` and `metadata`, with a new random
    /// identifier and the time of the call, stores it, and stores the chunks
    /// of its text. Fails with `ContextAlreadyExists`, and changes nothing,
    /// where a context is stored under the new identifier.
    pub fn store_context<R: ContextRepositoryPort, E: EmbeddingPort>(
        &self,
        repository: &mut R,
        embedding: &mut E,
        content: String,
        metadata: ContextMetadata,
    ) -> (r: McpResult<Context>)
        requires
            old(repository).valid(),
            old(embedding).valid(),
            self.chunking().splits(content@),
        ensures
            final(repository).valid(),
            final(embedding).valid(),
            final(repository).dependable() == old(repository).dependable(),
            final(embedding).dependable() == old(embedding).dependable(),
            final(embedding).dimension() == old(embedding).dimension(),
            forall|text: Seq<char>|
                #[trigger] final(embedding).embedding_of(text) == old(embedding).embedding_of(text),
            r matches Ok(stored) ==> {
                &&& stored.content@ == content@
                &&& stored.metadata@ == metadata@
                &&& stored.expires_at is None
                &&& is_random_id(stored.id)
            },
            old(repository).dependable() && old(embedding).dependable() ==> match r {
                Ok(stored) => {
                    &&& !holds(old(repository).contexts(), stored.id)
                    &&& holds(final(repository).contexts(), stored.id)
                    &&& final(repository).contexts() == old(repository).contexts().push(stored@)
                    &&& self.rechunked(
                        final(embedding),
                        stored@,
                        old(repository).chunk_sets(),
                        final(repository).chunk_sets(),
                    )
                },
                Err(e) => {
                    &&& e matches McpError::ContextAlreadyExists(id) && holds(
                        old(repository).contexts(),
                        id,
                    ) && is_random_id(id)
                    &&& final(repository).contexts() == old(repository).contexts()
                    &&& final(repository).chunk_sets() == old(repository).chunk_sets()
                },
            },
            old(repository).dependable() && old(embedding).dependable() && self.coherent(
                old(repository),
            ) ==> self.coherent(final(repository)),
    {
        let context = Context {
            id: fresh_id(),
            content,
            metadata,
            created_at: now(),
            expires_at: None,
        };
        let saved_context = match repository.save_context(context) {
            Ok(saved) => saved,
            Err(e) => {
                return Err(e);
            },
        };
        let ghost stored = saved_context@;
        let r = self.process_context(repository, embedding, saved_context);
        proof {
            if old(repository).dependable() && old(embedding).dependable() && self.coherent(
                old(repository),
            ) {
                let before = old(repository).contexts();
                let after = final(repository).contexts();
                let sets_before = old(repository).chunk_sets();
                let sets = final(repository).chunk_sets();
                assert(after == before.push(stored));
                assert(!sets_before.contains_key(stored.id));
                assert forall|id: u128| #[trigger] sets.contains_key(id) implies holds(
                    after,
                    id,
                ) by {
                    if id != stored.id {
                        assert(sets_before.contains_key(id));
                        let at = slot(before, id);
                        assert(after[at].id == id);
                    }
                }
                assert forall|i: int|
                    0 <= i < after.len() && sets.contains_key(
                        (#[trigger] after[i]).id,
                    ) implies self.chunking().windows_of(after[i], sets[after[i].id]) && covers(
                    sets[after[i].id],
                    byte_len(after[i].content),
                ) by {
                    if i < before.len() {
                        assert(after[i] == before[i]);
                        assert(before[i].id != stored.id);
                        assert(sets_before.contains_key(before[i].id));
                    }
                }
            }
        }
        r
    }

    /// The context stored under `context_id`.
    pub fn get_context<R: ContextRepositoryPort>(&self, repository: &R, context_id: u128) -> (r:
        McpResult<Context>)
        requires
            repository.valid(),
        ensures
            repository.dependable() ==> match r {
                Ok(found) => {
                    &&& holds(repository.contexts(), context_id)
                    &&& found@ == repository.contexts()[slot(repository.contexts(), context_id)]
                    &&& found.id == context_id
                },
                Err(e) => {
                    &&& !holds(repository.contexts(), context_id)
                    &&& e == McpError::ContextNotFound(context_id)
                },
            },
    {
        repository.find_by_id(context_id)
    }

    /// Gives the context stored under `context_id` a new text and new
    /// metadata, and stores the chunks of the new text in the place of its
    /// chunk set. Fails with `ContextNotFound`, and changes nothing, where no
    /// context is stored under the identifier.
    pub fn update_context<R: ContextRepositoryPort, E: EmbeddingPort>(
        &self,
        repository: &mut R,
        embedding: &mut E,
        context_id: u128,
        content: String,
        metadata: ContextMetadata,
    ) -> (r: McpResult<Context>)
        requires
            old(repository).valid(),
            old(embedding).valid(),
            self.chunking().splits(content@),
        ensures
            final(repository).valid(),
            final(embedding).valid(),
            final(repository).dependable() == old(repository).dependable(),
            final(embedding).dependable() == old(embedding).dependable(),
            final(embedding).dimension() == old(embedding).dimension(),
            forall|text: Seq<char>|
                #[trigger] final(embedding).embedding_of(text) == old(embedding).embedding_of(text),
            r matches Ok(updated) ==> updated.content@ == content@ && updated.metadata@
                == metadata@,
            old(repository).dependable() && old(embedding).dependable() ==> match r {
                Ok(updated) => {
                    let at = slot(old(repository).contexts(), context_id);
                    let before = old(repository).contexts()[at];
                    &&& holds(old(repository).contexts(), context_id)
                    &&& holds(final(repository).contexts(), context_id)
                    &&& updated@ == ContextView {
                        id: context_id,
                        content: content@,
                        metadata: metadata@,
                        created_at: before.created_at,
                        expires_at: before.expires_at,
                    }
                    &&& final(repository).contexts() == old(repository).contexts().update(
                        at,
                        updated@,
                    )
                    &&& self.rechunked(
                        final(embedding),
                        updated@,
                        old(repository).chunk_sets().remove(context_id),
                        final(repository).chunk_sets(),
                    )
                },
                Err(e) => {
                    &&& !holds(old(repository).contexts(), context_id)
                    &&& e == McpError::ContextNotFound(context_id)
                    &&& final(repository).contexts() == old(repository).contexts()
                    &&& final(repository).chunk_sets() == old(repository).chunk_sets()
                },
            },
            old(repository).dependable() && old(embedding).dependable() && self.coherent(
                old(repository),
            ) ==> self.coherent(final(repository)),
    {
        let mut context = match repository.find_by_id(context_id) {
            Ok(found) => found,
            Err(e) => {
                return Err(e);
            },
        };
        context.content = content;
        context.metadata = metadata;
        match repository.delete_chunks_by_context_id(context_id) {
            Ok(_) => {},
            Err(e) => {
                return Err(e);
            },
        }
        let updated_context = match repository.update(context) {
            Ok(updated) => updated,
            Err(e) => {
                return Err(e);
            },
        };
        let ghost updated = updated_context@;
        let r = self.process_context(repository, embedding, updated_context);
        proof {
            if old(repository).dependable() && old(embedding).dependable() && self.coherent(
                old(repository),
            ) {
                let before = old(repository).contexts();
                let after = final(repository).contexts();
                let sets_before = old(repository).chunk_sets();
                let sets = final(repository).chunk_sets();
                let place = slot(before, context_id);
                assert(0 <= place < before.len() && before[place].id == context_id);
                assert(after == before.update(place, updated));
                assert forall|id: u128| #[trigger] sets.contains_key(id) implies holds(
                    after,
                    id,
                ) by {
                    if id != context_id {
                        assert(sets_before.remove(context_id).contains_key(id));
                        let at = slot(before, id);
                        assert(after[at].id == id);
                    } else {
                        assert(after[place].id == id);
                    }
                }
                assert forall|i: int|
                    0 <= i < after.len() && sets.contains_key(
                        (#[trigger] after[i]).id,
                    ) implies self.chunking().windows_of(after[i], sets[after[i].id]) && covers(
                    sets[after[i].id],
                    byte_len(after[i].content),
                ) by {
                    if i != place {
                        assert(after[i] == before[i]);
                        if i < place {
                            assert(after[i].id != after[place].id);
                        } else {
                            assert(after[place].id != after[i].id);
                        }
                        assert(sets_before.remove(context_id).contains_key(before[i].id));
                    }
                }
            }
        }
        r
    }

    /// Removes the chunk set stored for `context_id`, then the context stored
    /// under it. Fails with `ContextNotFound` where no context is stored
    /// under the identifier; a chunk set stored for it is removed all the
    /// same.
    pub fn delete_context<R: ContextRepositoryPort>(
        &self,
        repository: &mut R,
        context_id: u128,
    ) -> (r: McpResult<()>)
        requires
            old(repository).valid(),
        ensures
            final(repository).valid(),
            final(repository).dependable() == old(repository).dependable(),
            old(repository).dependable() ==> {
                &&& final(repository).chunk_sets() == old(repository).chunk_sets().remove(
                    context_id,
                )
                &&& !holds(final(repository).contexts(), context_id)
                &&& !final(repository).chunk_sets().contains_key(context_id)
                &&& match r {
                    Ok(_) => {
                        &&& holds(old(repository).contexts(), context_id)
                        &&& final(repository).contexts() == old(repository).contexts().remove(
                            slot(old(repository).contexts(), context_id),
                        )
                    },
                    Err(e) => {
                        &&& !holds(old(repository).contexts(), context_id)
                        &&& e == McpError::ContextNotFound(context_id)
                        &&& final(repository).contexts() == old(repository).contexts()
                    },
                }
            },
            old(repository).dependable() && self.coherent(old(repository)) ==> self.coherent(
                final(repository),
            ),
    {
        match repository.delete_chunks_by_context_id(context_id) {
            Ok(_) => {},
            Err(e) => {
                return Err(e);
            },
        }
        let r = repository.delete(context_id);
        proof {
            if old(repository).dependable() && self.coherent(old(repository)) {
                let before = old(repository).contexts();
                let after = final(repository).contexts();
                let sets_before = old(repository).chunk_sets();
                let sets = final(repository).chunk_sets();
                assert(sets == sets_before.remove(context_id));
                if holds(before, context_id) {
                    let place = slot(before, context_id);
                    assert(0 <= place < before.len() && before[place].id == context_id);
                    assert(after == before.remove(place));
                    assert forall|id: u128| #[trigger] sets.contains_key(id) implies holds(
                        after,
                        id,
                    ) by {
                        assert(sets_before.contains_key(id));
                        let at = slot(before, id);
                        assert(0 <= at < before.len() && before[at].id == id);
                        if at < place {
                            assert(after[at].id == id);
                        } else {
                            assert(after[at - 1].id == id);
                        }
                    }
                    assert forall|i: int|
                        0 <= i < after.len() && sets.contains_key(
                            (#[trigger] after[i]).id,
                        ) implies self.chunking().windows_of(after[i], sets[after[i].id])
                        && covers(sets[after[i].id], byte_len(after[i].content)) by {
                        let j = if i < place {
                            i
                        } else {
                            i + 1
                        };
                        assert(after[i] == before[j]);
                        assert(sets_before.contains_key(before[j].id));
                    }
                } else {
                    assert(after == before);
                }
            }
        }
        r
    }

    /// A page of the stored contexts, in the order of the store: of those
    /// that carry each of `tags`, where tags are given, and else of all.
    pub fn list_contexts<R: ContextRepositoryPort>(
        &self,
        repository: &R,
        tags: Option<Vec<String>>,
        limit: usize,
        offset: usize,
    ) -> (r: McpResult<Vec<Context>>)
        requires
            repository.valid(),
        ensures
            repository.dependable() ==> (r matches Ok(found) && contexts_of(found@) == page(
                match tags {
                    Some(wanted) if wanted@.len() > 0 => tagged(
                        repository.contexts(),
                        texts_of(wanted@),
                    ),
                    _ => repository.contexts(),
                },
                limit as nat,
                offset as nat,
            )),
    {
        match tags {
            Some(wanted) => {
                if wanted.len() > 0 {
                    repository.find_by_tags(wanted.as_slice(), limit, offset)
                } else {
                    repository.list_all(limit, offset)
                }
            },
            None => repository.list_all(limit, offset),
        }
    }
}

} // verus!
