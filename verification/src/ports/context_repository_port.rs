use vstd::prelude::*;
use crate::domain::error::{McpError, McpResult};
use crate::domain::model::{
    chunks_of, contexts_of, texts_of, ChunkView, Context, ContextChunk, ContextView,
};

verus! {

/// A context with identifier `id` is among `contexts`.
pub open spec fn holds(contexts: Seq<ContextView>, id: u128) -> bool {
    exists|i: int| 0 <= i < contexts.len() && (#[trigger] contexts[i]).id == id
}

/// Where the context with identifier `id` stands among `contexts`.
pub open spec fn slot(contexts: Seq<ContextView>, id: u128) -> int {
    choose|i: int| 0 <= i < contexts.len() && (#[trigger] contexts[i]).id == id
}

/// No two of `contexts` share an identifier.
pub open spec fn distinct_ids(contexts: Seq<ContextView>) -> bool {
    forall|i: int, j: int|
        0 <= i < j < contexts.len() ==> (#[trigger] contexts[i]).id != (#[trigger] contexts[j]).id
}

/// The context carries each of the tags in `wanted`.
pub open spec fn has_tags(context: ContextView, wanted: Seq<Seq<char>>) -> bool {
    forall|t: int| 0 <= t < wanted.len() ==> context.metadata.tags.contains(#[trigger] wanted[t])
}

/// Those of `contexts` that carry each of the tags in `wanted`, in order.
pub open spec fn tagged(contexts: Seq<ContextView>, wanted: Seq<Seq<char>>) -> Seq<ContextView> {
    contexts.filter(|c: ContextView| has_tags(c, wanted))
}

/// A page of `list`: what follows its first `offset` entries, up to `limit`
/// entries of it.
pub open spec fn page<A>(list: Seq<A>, limit: nat, offset: nat) -> Seq<A> {
    if offset >= list.len() {
        Seq::empty()
    } else if limit >= list.len() - offset {
        list.skip(offset as int)
    } else {
        list.subrange(offset as int, (offset + limit) as int)
    }
}

/// A page grows at its end, while it is not full, with what the list grows by.
pub proof fn lemma_page_push<A>(list: Seq<A>, x: A, limit: nat, offset: nat)
    ensures
        page(list.push(x), limit, offset) == if list.len() < offset || page(
            list,
            limit,
            offset,
        ).len() >= limit {
            page(list, limit, offset)
        } else {
            page(list, limit, offset).push(x)
        },
        page(list, limit, offset).len() <= limit,
{
    let longer = list.push(x);
    if list.len() < offset {
        assert(page(longer, limit, offset) =~= page(list, limit, offset));
    } else if page(list, limit, offset).len() >= limit {
        assert(page(longer, limit, offset) =~= page(list, limit, offset));
    } else {
        assert(page(longer, limit, offset) =~= page(list, limit, offset).push(x));
    }
}

/// Once a context and its chunk set are removed, neither is found under the
/// context's identifier.
pub proof fn lemma_removed_is_gone(
    contexts: Seq<ContextView>,
    chunk_sets: Map<u128, Seq<ChunkView>>,
    id: u128,
)
    requires
        distinct_ids(contexts),
        holds(contexts, id),
    ensures
        !holds(contexts.remove(slot(contexts, id)), id),
        !chunk_sets.remove(id).contains_key(id),
{
    let at = slot(contexts, id);
    let rest = contexts.remove(at);
    assert forall|i: int| 0 <= i < rest.len() implies (#[trigger] rest[i]).id != id by {
        if i < at {
            assert(rest[i] == contexts[i]);
            assert(contexts[i].id != contexts[at].id);
        } else {
            assert(rest[i] == contexts[i + 1]);
            assert(contexts[at].id != contexts[i + 1].id);
        }
    }
}

/// A context is among the tagged ones exactly where it is stored and carries
/// each of the wanted tags.
pub proof fn lemma_tagged_are_those_with_all_tags(
    contexts: Seq<ContextView>,
    wanted: Seq<Seq<char>>,
    context: ContextView,
)
    ensures
        tagged(contexts, wanted).contains(context) <==> contexts.contains(context) && has_tags(
            context,
            wanted,
        ),
{
    let keep = |c: ContextView| has_tags(c, wanted);
    if tagged(contexts, wanted).contains(context) {
        contexts.lemma_filter_contains_rev(keep, context);
    }
    if contexts.contains(context) && has_tags(context, wanted) {
        let i = choose|i: int| 0 <= i < contexts.len() && contexts[i] == context;
        contexts.lemma_filter_contains(keep, i);
    }
}

/// A store of contexts and of their chunk sets.
///
/// The store keeps its contexts in a fixed order, that in which they were
/// saved, and lists them in it; it keeps at most one context under an
/// identifier, and one chunk set under a context identifier. The two tables
/// are separate: deleting a context leaves its chunk set, and a chunk set can
/// be stored for a context that is not.
///
/// A store is `dependable` where it has no failures of its own, as one that
/// lives in memory. Of a store that is not (one behind a network, say),
/// every call may fail with any error, and little is promised: that the
/// store stays valid, and that a context which it hands back as stored is the
/// one it was given. A store that is written without proofs gives the nine
/// operations only: it is then valid, and not taken to be dependable.
pub trait ContextRepositoryPort {
    /// The stored contexts, in the order in which they are listed.
    open spec fn contexts(&self) -> Seq<ContextView> {
        Seq::empty()
    }

    /// The stored chunk sets, by context identifier.
    open spec fn chunk_sets(&self) -> Map<u128, Seq<ChunkView>> {
        Map::empty()
    }

    /// The store is in order; in particular no two contexts share an
    /// identifier. A store that says nothing of itself is always in order.
    open spec fn valid(&self) -> bool {
        true
    }

    /// The store has no failures of its own. A store that says nothing of
    /// itself is not taken to be dependable.
    open spec fn dependable(&self) -> bool {
        false
    }

    /// Stores a new context at the end of the list and hands it back. Fails
    /// with `ContextAlreadyExists` where a context is stored under its
    /// identifier, and then changes nothing.
    fn save_context(&mut self, context: Context) -> (r: McpResult<Context>)
        requires
            old(self).valid(),
        ensures
            final(self).valid(),
            final(self).dependable() == old(self).dependable(),
            r matches Ok(saved) ==> saved@ == context@,
            old(self).dependable() ==> {
                &&& distinct_ids(final(self).contexts())
                &&& final(self).chunk_sets() == old(self).chunk_sets()
                &&& holds(final(self).contexts(), context.id)
                &&& match r {
                    Ok(saved) => {
                        &&& !holds(old(self).contexts(), context.id)
                        &&& final(self).contexts() == old(self).contexts().push(context@)
                    },
                    Err(e) => {
                        &&& holds(old(self).contexts(), context.id)
                        &&& e == McpError::ContextAlreadyExists(context.id)
                        &&& final(self).contexts() == old(self).contexts()
                    },
                }
            },
    ;

    /// The context stored under `context_id`. Fails with `ContextNotFound`
    /// where there is none.
    fn find_by_id(&self, context_id: u128) -> (r: McpResult<Context>)
        requires
            self.valid(),
        ensures
            self.dependable() ==> match r {
                Ok(found) => {
                    &&& holds(self.contexts(), context_id)
                    &&& found@ == self.contexts()[slot(self.contexts(), context_id)]
                    &&& found.id == context_id
                },
                Err(e) => {
                    &&& !holds(self.contexts(), context_id)
                    &&& e == McpError::ContextNotFound(context_id)
                },
            },
    ;

    /// Puts `context` in the place of the context stored under its
    /// identifier and hands it back. Fails with `ContextNotFound` where there
    /// is none, and then changes nothing.
    fn update(&mut self, context: Context) -> (r: McpResult<Context>)
        requires
            old(self).valid(),
        ensures
            final(self).valid(),
            final(self).dependable() == old(self).dependable(),
            r matches Ok(saved) ==> saved@ == context@,
            old(self).dependable() ==> {
                &&& distinct_ids(final(self).contexts())
                &&& final(self).chunk_sets() == old(self).chunk_sets()
                &&& match r {
                    Ok(saved) => {
                        &&& holds(old(self).contexts(), context.id)
                        &&& holds(final(self).contexts(), context.id)
                        &&& final(self).contexts() == old(self).contexts().update(
                            slot(old(self).contexts(), context.id),
                            context@,
                        )
                    },
                    Err(e) => {
                        &&& !holds(old(self).contexts(), context.id)
                        &&& e == McpError::ContextNotFound(context.id)
                        &&& final(self).contexts() == old(self).contexts()
                    },
                }
            },
    ;

    /// Removes the context stored under `context_id`; the others keep their
    /// order. Fails with `ContextNotFound` where there is none, and then
    /// changes nothing. The chunk sets stay as they are.
    fn delete(&mut self, context_id: u128) -> (r: McpResult<()>)
        requires
            old(self).valid(),
        ensures
            final(self).valid(),
            final(self).dependable() == old(self).dependable(),
            old(self).dependable() ==> {
                &&& distinct_ids(final(self).contexts())
                &&& final(self).chunk_sets() == old(self).chunk_sets()
                &&& !holds(final(self).contexts(), context_id)
                &&& match r {
                    Ok(_) => {
                        &&& holds(old(self).contexts(), context_id)
                        &&& final(self).contexts() == old(self).contexts().remove(
                            slot(old(self).contexts(), context_id),
                        )
                    },
                    Err(e) => {
                        &&& !holds(old(self).contexts(), context_id)
                        &&& e == McpError::ContextNotFound(context_id)
                        &&& final(self).contexts() == old(self).contexts()
                    },
                }
            },
    ;

    /// A page of the contexts that carry each of `tags`, in the order of the
    /// store.
    fn find_by_tags(&self, tags: &[String], limit: usize, offset: usize) -> (r: McpResult<
        Vec<Context>,
    >)
        requires
            self.valid(),
        ensures
            self.dependable() ==> (r matches Ok(found) && contexts_of(found@) == page(
                tagged(self.contexts(), texts_of(tags@)),
                limit as nat,
                offset as nat,
            )),
    ;

    /// A page of all contexts, in the order of the store.
    fn list_all(&self, limit: usize, offset: usize) -> (r: McpResult<Vec<Context>>)
        requires
            self.valid(),
        ensures
            self.dependable() ==> (r matches Ok(found) && contexts_of(found@) == page(
                self.contexts(),
                limit as nat,
                offset as nat,
            )),
    ;

    /// Stores `chunks` as the whole chunk set of the context that the first of
    /// them names, in place of any set stored for it, and hands them back.
    /// Without chunks nothing is changed.
    fn save_chunks(&mut self, chunks: Vec<ContextChunk>) -> (r: McpResult<Vec<ContextChunk>>)
        requires
            old(self).valid(),
        ensures
            final(self).valid(),
            final(self).dependable() == old(self).dependable(),
            old(self).dependable() ==> {
                &&& final(self).contexts() == old(self).contexts()
                &&& r matches Ok(saved) && chunks_of(saved@) == chunks_of(chunks@)
                &&& final(self).chunk_sets() == if chunks@.len() == 0 {
                    old(self).chunk_sets()
                } else {
                    old(self).chunk_sets().insert(chunks@[0].context_id, chunks_of(chunks@))
                }
            },
    ;

    /// The chunk set stored for `context_id`. Fails with `ContextNotFound`
    /// where none is stored.
    fn find_chunks_by_context_id(&self, context_id: u128) -> (r: McpResult<Vec<ContextChunk>>)
        requires
            self.valid(),
        ensures
            self.dependable() ==> match r {
                Ok(found) => {
                    &&& self.chunk_sets().contains_key(context_id)
                    &&& chunks_of(found@) == self.chunk_sets()[context_id]
                },
                Err(e) => {
                    &&& !self.chunk_sets().contains_key(context_id)
                    &&& e == McpError::ContextNotFound(context_id)
                },
            },
    ;

    /// Removes the chunk set stored for `context_id`, if there is one.
    fn delete_chunks_by_context_id(&mut self, context_id: u128) -> (r: McpResult<()>)
        requires
            old(self).valid(),
        ensures
            final(self).valid(),
            final(self).dependable() == old(self).dependable(),
            old(self).dependable() ==> {
                &&& r is Ok
                &&& final(self).contexts() == old(self).contexts()
                &&& final(self).chunk_sets() == old(self).chunk_sets().remove(context_id)
            },
    ;
}

} // verus!
