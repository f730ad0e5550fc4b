use vstd::prelude::*;
use std::collections::HashMap;
use crate::domain::error::{McpError, McpResult};
use crate::domain::model::{
    chunks_of, contexts_of, copy_chunks, texts_of, ChunkView, Context, ContextChunk, ContextView,
};
use crate::ports::context_repository_port::{
    distinct_ids, has_tags, holds, lemma_page_push, page, slot, ContextRepositoryPort,
};

verus! {

broadcast use vstd::std_specs::hash::group_hash_axioms;

/// A store that keeps its contexts and chunk sets in memory.
pub struct InMemoryContextRepository {
    contexts: Vec<Context>,
    chunks: HashMap<u128, Vec<ContextChunk>>,
}

/// Whether `context` carries each of `tags`.
fn carries_tags(context: &Context, tags: &[String]) -> (b: bool)
    ensures
        b == has_tags(context@, texts_of(tags@)),
{
    let mut t: usize = 0;
    while t < tags.len()
        invariant
            t <= tags@.len(),
            forall|u: int|
                0 <= u < t ==> context@.metadata.tags.contains(#[trigger] texts_of(tags@)[u]),
        decreases tags@.len() - t,
    {
        let mut found = false;
        let mut j: usize = 0;
        while j < context.metadata.tags.len()
            invariant
                t < tags@.len(),
                j <= context.metadata.tags@.len(),
                found <==> exists|i: int| 0 <= i < j && context@.metadata.tags[i] == tags@[t as int]@,
            decreases context.metadata.tags@.len() - j,
        {
            if context.metadata.tags[j] == tags[t] {
                found = true;
                assert(context@.metadata.tags[j as int] == tags@[t as int]@);
            }
            j += 1;
        }
        if !found {
            assert(!context@.metadata.tags.contains(texts_of(tags@)[t as int]));
            return false;
        }
        t += 1;
    }
    true
}

impl InMemoryContextRepository {
    /// An empty store.
    pub fn new() -> (r: Self)
        ensures
            r.valid(),
            r.contexts() == Seq::<ContextView>::empty(),
            r.chunk_sets() == Map::<u128, Seq<ChunkView>>::empty(),
    {
        let r = InMemoryContextRepository { contexts: Vec::new(), chunks: HashMap::new() };
        assert(r.contexts() =~= Seq::<ContextView>::empty());
        assert(r.chunk_sets() =~= Map::<u128, Seq<ChunkView>>::empty());
        r
    }

    /// Where the context with identifier `id` stands, if it is stored.
    fn position(&self, id: u128) -> (at: Option<usize>)
        requires
            self.valid(),
        ensures
            match at {
                Some(i) => holds(self.contexts(), id) && i == slot(self.contexts(), id) && i
                    < self.contexts@.len() && self.contexts@[i as int].id == id,
                None => !holds(self.contexts(), id),
            },
    {
        let mut i: usize = 0;
        while i < self.contexts.len()
            invariant
                self.valid(),
                i <= self.contexts@.len(),
                forall|j: int| 0 <= j < i ==> (#[trigger] self.contexts()[j]).id != id,
            decreases self.contexts@.len() - i,
        {
            if self.contexts[i].id == id {
                proof {
                    let listed = self.contexts();
                    assert(listed[i as int].id == id);
                    let at = slot(listed, id);
                    assert(0 <= at < listed.len() && listed[at].id == id);
                    if at != i {
                        assert(listed[at].id != listed[i as int].id);
                    }
                }
                return Some(i);
            }
            i += 1;
        }
        None
    }
}

impl ContextRepositoryPort for InMemoryContextRepository {
    closed spec fn contexts(&self) -> Seq<ContextView> {
        contexts_of(self.contexts@)
    }

    closed spec fn chunk_sets(&self) -> Map<u128, Seq<ChunkView>> {
        self.chunks@.map_values(|set: Vec<ContextChunk>| chunks_of(set@))
    }

    closed spec fn valid(&self) -> bool {
        distinct_ids(contexts_of(self.contexts@))
    }

    open spec fn dependable(&self) -> bool {
        true
    }

    fn save_context(&mut self, context: Context) -> (r: McpResult<Context>) {
        match self.position(context.id) {
            Some(_) => Err(McpError::ContextAlreadyExists(context.id)),
            None => {
                let saved = context.clone();
                self.contexts.push(context);
                assert(self.contexts() =~= old(self).contexts().push(context@));
                assert(self.contexts().last().id == context.id);
                Ok(saved)
            },
        }
    }

    fn find_by_id(&self, context_id: u128) -> (r: McpResult<Context>) {
        match self.position(context_id) {
            Some(i) => Ok(self.contexts[i].clone()),
            None => Err(McpError::ContextNotFound(context_id)),
        }
    }

    fn update(&mut self, context: Context) -> (r: McpResult<Context>) {
        match self.position(context.id) {
            Some(i) => {
                let saved = context.clone();
                self.contexts.set(i, context);
                assert(self.contexts() =~= old(self).contexts().update(i as int, context@));
                assert(self.contexts()[i as int].id == context.id);
                Ok(saved)
            },
            None => Err(McpError::ContextNotFound(context.id)),
        }
    }

    fn delete(&mut self, context_id: u128) -> (r: McpResult<()>) {
        match self.position(context_id) {
            Some(i) => {
                self.contexts.remove(i);
                assert(self.contexts() =~= old(self).contexts().remove(i as int));
                Ok(())
            },
            None => Err(McpError::ContextNotFound(context_id)),
        }
    }

    fn find_by_tags(&self, tags: &[String], limit: usize, offset: usize) -> (r: McpResult<
        Vec<Context>,
    >) {
        let ghost wanted = texts_of(tags@);
        let ghost keep = |c: ContextView| has_tags(c, wanted);
        let mut found: Vec<Context> = Vec::new();
        let mut seen: usize = 0;
        let mut i: usize = 0;
        assert(self.contexts().take(0).filter(keep) =~= Seq::<ContextView>::empty()) by {
            reveal(Seq::filter);
        }
        while i < self.contexts.len()
            invariant
                i <= self.contexts@.len(),
                wanted == texts_of(tags@),
                keep == (|c: ContextView| has_tags(c, wanted)),
                seen == self.contexts().take(i as int).filter(keep).len(),
                seen <= i,
                contexts_of(found@) == page(
                    self.contexts().take(i as int).filter(keep),
                    limit as nat,
                    offset as nat,
                ),
            decreases self.contexts@.len() - i,
        {
            let ghost before = self.contexts().take(i as int).filter(keep);
            proof {
                assert(self.contexts().take(i + 1).drop_last() =~= self.contexts().take(i as int));
                reveal(Seq::filter);
                lemma_page_push(before, self.contexts()[i as int], limit as nat, offset as nat);
            }
            if carries_tags(&self.contexts[i], tags) {
                if seen >= offset && found.len() < limit {
                    let ghost listed = contexts_of(found@);
                    found.push(self.contexts[i].clone());
                    assert(contexts_of(found@) =~= listed.push(self.contexts()[i as int]));
                }
                seen += 1;
            }
            i += 1;
        }
        assert(self.contexts().take(i as int) =~= self.contexts());
        Ok(found)
    }

    fn list_all(&self, limit: usize, offset: usize) -> (r: McpResult<Vec<Context>>) {
        let mut found: Vec<Context> = Vec::new();
        let mut i: usize = 0;
        while i < self.contexts.len()
            invariant
                i <= self.contexts@.len(),
                contexts_of(found@) == page(
                    self.contexts().take(i as int),
                    limit as nat,
                    offset as nat,
                ),
            decreases self.contexts@.len() - i,
        {
            proof {
                assert(self.contexts().take(i + 1) =~= self.contexts().take(i as int).push(
                    self.contexts()[i as int],
                ));
                lemma_page_push(
                    self.contexts().take(i as int),
                    self.contexts()[i as int],
                    limit as nat,
                    offset as nat,
                );
            }
            if i >= offset && found.len() < limit {
                let ghost listed = contexts_of(found@);
                found.push(self.contexts[i].clone());
                assert(contexts_of(found@) =~= listed.push(self.contexts()[i as int]));
            }
            i += 1;
        }
        assert(self.contexts().take(i as int) =~= self.contexts());
        Ok(found)
    }

    fn save_chunks(&mut self, chunks: Vec<ContextChunk>) -> (r: McpResult<Vec<ContextChunk>>) {
        if chunks.len() == 0 {
            return Ok(chunks);
        }
        let context_id = chunks[0].context_id;
        let stored = copy_chunks(&chunks);
        self.chunks.insert(context_id, stored);
        assert(self.chunk_sets() =~= old(self).chunk_sets().insert(context_id, chunks_of(chunks@)));
        Ok(chunks)
    }

    fn find_chunks_by_context_id(&self, context_id: u128) -> (r: McpResult<Vec<ContextChunk>>) {
        match self.chunks.get(&context_id) {
            Some(set) => Ok(copy_chunks(set)),
            None => Err(McpError::ContextNotFound(context_id)),
        }
    }

    fn delete_chunks_by_context_id(&mut self, context_id: u128) -> (r: McpResult<()>) {
        self.chunks.remove(&context_id);
        assert(self.chunk_sets() =~= old(self).chunk_sets().remove(context_id));
        Ok(())
    }
}

} // verus!
