use vstd::prelude::*;
use crate::domain::error::{McpError, McpResult};
use crate::domain::model::{
    chunks_of, contexts_of, matches_of, references_of, texts_of, ChunkView, Context, ContextChunk,
    ContextMatch, ContextReference, ContextSearchResult, ContextView, MatchView, ReferenceView,
    Score, UNIT_WEIGHT,
};
use crate::domain::service::{ranked, scored_of, RetrievalService};
use crate::domain::similarity::Similarity;
use crate::ports::context_repository_port::{holds, page, slot, tagged, ContextRepositoryPort};
use crate::ports::embedding_port::{hits_of, EmbeddingPort};

verus! {

/// The identifiers of the contexts that the found chunks name, one for each
/// chunk.
pub open spec fn owners(found: Seq<(ContextChunk, Similarity)>) -> Seq<u128> {
    found.map_values(|hit: (ContextChunk, Similarity)| hit.0.context_id)
}

/// The identifiers of the contexts that found chunks name, one for each
/// chunk.
pub open spec fn named(hits: Seq<(ChunkView, Similarity)>) -> Seq<u128> {
    hits.map_values(|hit: (ChunkView, Similarity)| hit.0.context_id)
}

/// `ids` without repetitions: each identifier where it first stands.
pub open spec fn without_repeats(ids: Seq<u128>) -> Seq<u128>
    decreases ids.len(),
{
    if ids.len() == 0 {
        ids
    } else {
        let before = without_repeats(ids.drop_last());
        if before.contains(ids.last()) {
            before
        } else {
            before.push(ids.last())
        }
    }
}

/// The contexts stored under `ids`, in the order of `ids`; an identifier
/// under which none is stored is passed over.
pub open spec fn resolved(contexts: Seq<ContextView>, ids: Seq<u128>) -> Seq<ContextView>
    decreases ids.len(),
{
    if ids.len() == 0 {
        Seq::empty()
    } else {
        let before = resolved(contexts, ids.drop_last());
        if holds(contexts, ids.last()) {
            before.push(contexts[slot(contexts, ids.last())])
        } else {
            before
        }
    }
}

/// The chunks of the chunk sets stored for `contexts`, one set after the
/// other, in the order of the contexts; a context for which no chunk set is
/// stored adds none.
pub open spec fn gathered(
    contexts: Seq<ContextView>,
    chunk_sets: Map<u128, Seq<ChunkView>>,
) -> Seq<ChunkView>
    decreases contexts.len(),
{
    if contexts.len() == 0 {
        Seq::empty()
    } else {
        let before = gathered(contexts.drop_last(), chunk_sets);
        if chunk_sets.contains_key(contexts.last().id) {
            before + chunk_sets[contexts.last().id]
        } else {
            before
        }
    }
}

/// The match of a scored context: the context, its stored chunk set, and the
/// score.
pub open spec fn match_of(
    entry: (ContextView, Score),
    chunk_sets: Map<u128, Seq<ChunkView>>,
) -> MatchView {
    MatchView { context: entry.0, chunks: Some(chunk_sets[entry.0.id]), score: entry.1 }
}

/// The matches of scored contexts, in order. Where no chunk set is stored
/// for one of the contexts, the first such context is reported as not found.
pub open spec fn assembled(
    scored: Seq<(ContextView, Score)>,
    chunk_sets: Map<u128, Seq<ChunkView>>,
) -> Result<Seq<MatchView>, McpError>
    decreases scored.len(),
{
    if scored.len() == 0 {
        Ok(Seq::empty())
    } else {
        match assembled(scored.drop_last(), chunk_sets) {
            Err(e) => Err(e),
            Ok(before) => if chunk_sets.contains_key(scored.last().0.id) {
                Ok(before.push(match_of(scored.last(), chunk_sets)))
            } else {
                Err(McpError::ContextNotFound(scored.last().0.id))
            },
        }
    }
}

/// `r` is what a retrieval answers that found `expected`: the matches, and
/// their number as the total; or the error.
pub open spec fn answers(
    r: McpResult<ContextSearchResult>,
    expected: Result<Seq<MatchView>, McpError>,
) -> bool {
    match expected {
        Ok(list) => r matches Ok(result) && matches_of(result.matches@) == list
            && result.total_matches == list.len(),
        Err(e) => r matches Err(got) && got == e,
    }
}

/// Those of `chunks` that a reference asks for: all of them, or those whose
/// identifiers it lists.
pub open spec fn wanted_chunks(chunks: Seq<ChunkView>, chunk_ids: Option<Seq<u128>>) -> Seq<
    ChunkView,
> {
    match chunk_ids {
        Some(ids) => chunks.filter(|c: ChunkView| ids.contains(c.chunk_id)),
        None => chunks,
    }
}

/// The match that a reference stands for: the context it names, those of the
/// context's chunks that it asks for, and its weight as the score, or the
/// weight one. There is none where the context or its chunk set is not
/// stored.
pub open spec fn referred(
    contexts: Seq<ContextView>,
    chunk_sets: Map<u128, Seq<ChunkView>>,
    reference: ReferenceView,
) -> Option<MatchView> {
    if holds(contexts, reference.context_id) && chunk_sets.contains_key(reference.context_id) {
        Some(
            MatchView {
                context: contexts[slot(contexts, reference.context_id)],
                chunks: Some(
                    wanted_chunks(chunk_sets[reference.context_id], reference.chunk_ids),
                ),
                score: Score::Weight {
                    bits: match reference.weight {
                        Some(bits) => bits,
                        None => UNIT_WEIGHT,
                    },
                },
            },
        )
    } else {
        None
    }
}

/// The matches that `references` stand for, in order.
pub open spec fn retrieved(
    contexts: Seq<ContextView>,
    chunk_sets: Map<u128, Seq<ChunkView>>,
    references: Seq<ReferenceView>,
) -> Seq<MatchView> {
    references.filter_map(|reference: ReferenceView| referred(contexts, chunk_sets, reference))
}

/// How many contexts a search by tags looks at.
pub const TAGGED_LIMIT: usize = 1000;

/// Whether `id` is among `ids`.
fn is_among(ids: &Vec<u128>, id: u128) -> (b: bool)
    ensures
        b == ids@.contains(id),
{
    let mut i: usize = 0;
    while i < ids.len()
        invariant
            i <= ids@.len(),
            forall|j: int| 0 <= j < i ==> ids@[j] != id,
        decreases ids@.len() - i,
    {
        if ids[i] == id {
            return true;
        }
        i += 1;
    }
    false
}

/// Finds contexts: by a query, by a query among tagged contexts, or by
/// references.
///
/// An operation works on a store and an embedder that the caller hands in.
pub struct ContextSearchService {
    retrieval_service: RetrievalService,
}

impl ContextSearchService {
    /// The service that ranks the contexts.
    pub closed spec fn retrieval(&self) -> &RetrievalService {
        &self.retrieval_service
    }

    /// What a search for `query` answers when the embedder has named the
    /// contexts `candidates`: the contexts stored under these identifiers,
    /// each once, ranked against the query and cut to the best, each with its
    /// stored chunk set.
    pub open spec fn found_among(
        &self,
        contexts: Seq<ContextView>,
        chunk_sets: Map<u128, Seq<ChunkView>>,
        query: Seq<char>,
        candidates: Seq<u128>,
    ) -> Result<Seq<MatchView>, McpError> {
        assembled(
            ranked(
                query,
                resolved(contexts, without_repeats(candidates)),
                self.retrieval().max_results(),
            ),
            chunk_sets,
        )
    }

    /// What a search for `query` among the contexts that carry `tags`
    /// answers: the first thousand of them, ranked against the query and cut
    /// to the best, each with its stored chunk set.
    pub open spec fn found_tagged(
        &self,
        contexts: Seq<ContextView>,
        chunk_sets: Map<u128, Seq<ChunkView>>,
        query: Seq<char>,
        tags: Seq<Seq<char>>,
    ) -> Result<Seq<MatchView>, McpError> {
        assembled(
            ranked(
                query,
                page(tagged(contexts, tags), TAGGED_LIMIT as nat, 0),
                self.retrieval().max_results(),
            ),
            chunk_sets,
        )
    }

    /// A search service whose answers hold up to `max_results` matches.
    pub fn new(max_results: usize) -> (r: Self)
        ensures
            r.retrieval().max_results() == max_results,
    {
        ContextSearchService { retrieval_service: RetrievalService::new(max_results) }
    }

    /// Turns scored contexts into matches: each context with its stored chunk
    /// set and its score. Fails with `ContextNotFound` where no chunk set is
    /// stored for one of the contexts, naming the first such context.
    pub fn to_search_result<R: ContextRepositoryPort>(
        &self,
        repository: &R,
        scored_contexts: Vec<(Context, Score)>,
    ) -> (r: McpResult<ContextSearchResult>)
        requires
            repository.valid(),
        ensures
            r matches Ok(result) ==> {
                &&& result.total_matches == result.matches@.len()
                &&& result.matches@.len() == scored_contexts@.len()
                &&& forall|i: int|
                    0 <= i < result.matches@.len() ==> {
                        let found = #[trigger] result.matches@[i];
                        &&& found.context@ == scored_contexts@[i].0@
                        &&& found.score == scored_contexts@[i].1
                        &&& found.chunks is Some
                    }
            },
            repository.dependable() ==> answers(
                r,
                assembled(scored_of(scored_contexts@), repository.chunk_sets()),
            ),
    {
        let mut matches: Vec<ContextMatch> = Vec::new();
        let mut i: usize = 0;
        let ghost scored = scored_of(scored_contexts@);
        assert(scored.take(0) =~= Seq::<(ContextView, Score)>::empty());
        assert(matches_of(matches@) =~= Seq::<MatchView>::empty());
        while i < scored_contexts.len()
            invariant
                i <= scored_contexts@.len(),
                repository.valid(),
                scored == scored_of(scored_contexts@),
                matches@.len() == i,
                forall|k: int|
                    0 <= k < i ==> {
                        let found = #[trigger] matches@[k];
                        &&& found.context@ == scored_contexts@[k].0@
                        &&& found.score == scored_contexts@[k].1
                        &&& found.chunks is Some
                    },
                repository.dependable() ==> assembled(scored.take(i as int), repository.chunk_sets())
                    == Ok::<Seq<MatchView>, McpError>(matches_of(matches@)),
            decreases scored_contexts@.len() - i,
        {
            assert(scored.take(i + 1).drop_last() =~= scored.take(i as int));
            let context = scored_contexts[i].0.clone();
            let score = scored_contexts[i].1;
            let chunks = match repository.find_chunks_by_context_id(context.id) {
                Ok(chunks) => chunks,
                Err(e) => {
                    proof {
                        if repository.dependable() {
                            lemma_assembled_fails(scored, repository.chunk_sets(), i + 1);
                        }
                    }
                    return Err(e);
                },
            };
            let ghost before = matches_of(matches@);
            matches.push(ContextMatch { context, chunks: Some(chunks), score });
            assert(repository.dependable() ==> matches_of(matches@) =~= before.push(
                match_of(scored[i as int], repository.chunk_sets()),
            ));
            i += 1;
        }
        assert(scored.take(i as int) =~= scored);
        let total_matches = matches.len();
        Ok(ContextSearchResult { matches, total_matches })
    }

    /// The identifiers of the contexts that the found chunks name, each once,
    /// where it first stands.
    fn distinct_owners(found: &Vec<(ContextChunk, Similarity)>) -> (ids: Vec<u128>)
        ensures
            ids@ == without_repeats(owners(found@)),
    {
        let mut ids: Vec<u128> = Vec::new();
        let mut i: usize = 0;
        assert(owners(found@).take(0) =~= Seq::<u128>::empty());
        while i < found.len()
            invariant
                i <= found@.len(),
                ids@ == without_repeats(owners(found@).take(i as int)),
            decreases found@.len() - i,
        {
            assert(owners(found@).take(i + 1).drop_last() =~= owners(found@).take(i as int));
            let id = found[i].0.context_id;
            if !is_among(&ids, id) {
                ids.push(id);
            }
            i += 1;
        }
        assert(owners(found@).take(i as int) =~= owners(found@));
        ids
    }

    /// The chunks of the chunk sets stored for `contexts`, one set after the
    /// other; a context without a stored chunk set adds none.
    fn gather_chunks<R: ContextRepositoryPort>(repository: &R, contexts: &Vec<Context>) -> (all:
        Vec<ContextChunk>)
        requires
            repository.valid(),
        ensures
            repository.dependable() ==> chunks_of(all@) == gathered(
                contexts_of(contexts@),
                repository.chunk_sets(),
            ),
    {
        let mut all: Vec<ContextChunk> = Vec::new();
        let mut i: usize = 0;
        let ghost listed = contexts_of(contexts@);
        assert(listed.take(0) =~= Seq::<ContextView>::empty());
        assert(chunks_of(all@) =~= Seq::<ChunkView>::empty());
        while i < contexts.len()
            invariant
                i <= contexts@.len(),
                repository.valid(),
                listed == contexts_of(contexts@),
                repository.dependable() ==> chunks_of(all@) == gathered(
                    listed.take(i as int),
                    repository.chunk_sets(),
                ),
            decreases contexts@.len() - i,
        {
            assert(listed.take(i + 1).drop_last() =~= listed.take(i as int));
            assert(listed.take(i + 1).last().id == contexts@[i as int].id);
            match repository.find_chunks_by_context_id(contexts[i].id) {
                Ok(mut chunks) => {
                    let ghost before = chunks_of(all@);
                    let ghost added = chunks_of(chunks@);
                    all.append(&mut chunks);
                    assert(chunks_of(all@) =~= before + added);
                },
                Err(_) => {},
            }
            i += 1;
        }
        assert(listed.take(i as int) =~= listed);
        all
    }

    /// Answers a search for `query` of which the embedder has found the
    /// chunks `similar`: the contexts that these chunks name are looked up,
    /// ranked against the query and returned with their stored chunk sets. A
    /// named context that is not stored is passed over.
    pub fn search_among<R: ContextRepositoryPort>(
        &self,
        repository: &R,
        query: &str,
        similar: &Vec<(ContextChunk, Similarity)>,
    ) -> (r: McpResult<ContextSearchResult>)
        requires
            repository.valid(),
        ensures
            r matches Ok(result) ==> result.total_matches == result.matches@.len()
                && result.matches@.len() <= self.retrieval().max_results(),
            repository.dependable() ==> answers(
                r,
                self.found_among(
                    repository.contexts(),
                    repository.chunk_sets(),
                    query@,
                    owners(similar@),
                ),
            ),
    {
        let context_ids = Self::distinct_owners(similar);
        let mut contexts: Vec<Context> = Vec::new();
        let mut i: usize = 0;
        assert(context_ids@.take(0) =~= Seq::<u128>::empty());
        while i < context_ids.len()
            invariant
                i <= context_ids@.len(),
                repository.valid(),
                repository.dependable() ==> contexts_of(contexts@) == resolved(
                    repository.contexts(),
                    context_ids@.take(i as int),
                ),
            decreases context_ids@.len() - i,
        {
            assert(context_ids@.take(i + 1).drop_last() =~= context_ids@.take(i as int));
            let ghost before = contexts_of(contexts@);
            match repository.find_by_id(context_ids[i]) {
                Ok(context) => {
                    contexts.push(context);
                    assert(contexts_of(contexts@) =~= before.push(contexts@.last()@));
                },
                Err(_) => {},
            }
            i += 1;
        }
        assert(context_ids@.take(i as int) =~= context_ids@);
        let all_chunks = Self::gather_chunks(repository, &contexts);
        let scored_contexts = self.retrieval_service.rank_contexts(
            query,
            contexts.as_slice(),
            all_chunks.as_slice(),
        );
        self.to_search_result(repository, scored_contexts)
    }

    /// Searches for `query`: the embedder finds up to `limit` chunks whose
    /// vectors are most similar to the query's; the contexts that these
    /// chunks name are looked up, ranked against the query and returned with
    /// their stored chunk sets. Where the embedder fails, its error is the
    /// answer.
    pub fn search<R: ContextRepositoryPort, E: EmbeddingPort>(
        &self,
        repository: &R,
        embedding: &E,
        query: String,
        limit: usize,
    ) -> (r: McpResult<ContextSearchResult>)
        requires
            repository.valid(),
            embedding.valid(),
        ensures
            r matches Ok(result) ==> result.total_matches == result.matches@.len()
                && result.matches@.len() <= self.retrieval().max_results(),
            repository.dependable() && r is Ok ==> exists|candidates: Seq<u128>| #[trigger]
                answers(
                    r,
                    self.found_among(
                        repository.contexts(),
                        repository.chunk_sets(),
                        query@,
                        candidates,
                    ),
                ),
            repository.dependable() && embedding.dependable() ==> answers(
                r,
                self.found_among(
                    repository.contexts(),
                    repository.chunk_sets(),
                    query@,
                    named(embedding.similar(query@, limit as nat)),
                ),
            ),
    {
        let similar_chunks = match embedding.find_similar(query.as_str(), limit) {
            Ok(found) => found,
            Err(e) => {
                return Err(e);
            },
        };
        let r = self.search_among(repository, query.as_str(), &similar_chunks);
        proof {
            if repository.dependable() {
                let candidates = owners(similar_chunks@);
                assert(answers(
                    r,
                    self.found_among(
                        repository.contexts(),
                        repository.chunk_sets(),
                        query@,
                        candidates,
                    ),
                ));
                assert(candidates =~= named(hits_of(similar_chunks@)));
            }
        }
        r
    }

    /// Searches for `query` among the contexts that carry each of `tags`:
    /// the first thousand of them are ranked against the query and returned
    /// with their stored chunk sets. The embedder is asked for similar chunks
    /// too; what it finds plays no part, but its failure fails the search.
    pub fn search_with_tags<R: ContextRepositoryPort, E: EmbeddingPort>(
        &self,
        repository: &R,
        embedding: &E,
        query: String,
        tags: Vec<String>,
        limit: usize,
    ) -> (r: McpResult<ContextSearchResult>)
        requires
            repository.valid(),
            embedding.valid(),
        ensures
            r matches Ok(result) ==> result.total_matches == result.matches@.len()
                && result.matches@.len() <= self.retrieval().max_results(),
            repository.dependable() && page(
                tagged(repository.contexts(), texts_of(tags@)),
                TAGGED_LIMIT as nat,
                0,
            ).len() == 0 ==> answers(r, Ok(Seq::empty())),
            repository.dependable() && embedding.dependable() ==> answers(
                r,
                self.found_tagged(
                    repository.contexts(),
                    repository.chunk_sets(),
                    query@,
                    texts_of(tags@),
                ),
            ),
    {
        let tagged_contexts = match repository.find_by_tags(tags.as_slice(), TAGGED_LIMIT, 0) {
            Ok(found) => found,
            Err(e) => {
                return Err(e);
            },
        };
        if tagged_contexts.len() == 0 {
            let result = ContextSearchResult { matches: Vec::new(), total_matches: 0 };
            proof {
                if repository.dependable() {
                    let none = page(
                        tagged(repository.contexts(), texts_of(tags@)),
                        TAGGED_LIMIT as nat,
                        0,
                    );
                    assert(none.len() == 0);
                    assert(ranked(query@, none, self.retrieval().max_results()) =~= Seq::<
                        (ContextView, Score),
                    >::empty());
                    assert(matches_of(result.matches@) =~= Seq::<MatchView>::empty());
                }
            }
            return Ok(result);
        }
        match embedding.find_similar_with_tags(query.as_str(), tags.as_slice(), limit) {
            Ok(_) => {},
            Err(e) => {
                return Err(e);
            },
        }
        let all_chunks = Self::gather_chunks(repository, &tagged_contexts);
        let scored_contexts = self.retrieval_service.rank_contexts(
            query.as_str(),
            tagged_contexts.as_slice(),
            all_chunks.as_slice(),
        );
        self.to_search_result(repository, scored_contexts)
    }

    /// Those of `chunks` that a reference asks for.
    fn select_chunks(chunks: Vec<ContextChunk>, chunk_ids: &Option<Vec<u128>>) -> (kept: Vec<
        ContextChunk,
    >)
        ensures
            chunks_of(kept@) == wanted_chunks(
                chunks_of(chunks@),
                match chunk_ids {
                    Some(ids) => Some(ids@),
                    None => None,
                },
            ),
    {
        match chunk_ids {
            None => chunks,
            Some(ids) => {
                let ghost keep = |c: ChunkView| ids@.contains(c.chunk_id);
                let mut kept: Vec<ContextChunk> = Vec::new();
                let mut i: usize = 0;
                assert(chunks_of(chunks@).take(0).filter(keep) =~= Seq::<ChunkView>::empty()) by {
                    reveal(Seq::filter);
                }
                while i < chunks.len()
                    invariant
                        i <= chunks@.len(),
                        keep == (|c: ChunkView| ids@.contains(c.chunk_id)),
                        chunks_of(kept@) == chunks_of(chunks@).take(i as int).filter(keep),
                    decreases chunks@.len() - i,
                {
                    proof {
                        assert(chunks_of(chunks@).take(i + 1).drop_last() =~= chunks_of(
                            chunks@,
                        ).take(i as int));
                        reveal(Seq::filter);
                    }
                    if is_among(ids, chunks[i].chunk_id) {
                        let ghost before = chunks_of(kept@);
                        kept.push(chunks[i].clone());
                        assert(chunks_of(kept@) =~= before.push(chunks@[i as int]@));
                    }
                    i += 1;
                }
                assert(chunks_of(chunks@).take(i as int) =~= chunks_of(chunks@));
                kept
            },
        }
    }

    /// Looks up what `references` name: for each reference the context it
    /// names, with those of its stored chunks that the reference asks for and
    /// with the reference's weight as the score, or the weight one. A
    /// reference whose context or chunk set is not stored is passed over; the
    /// call does not fail.
    pub fn retrieve_by_references<R: ContextRepositoryPort>(
        &self,
        repository: &R,
        references: Vec<ContextReference>,
    ) -> (r: McpResult<ContextSearchResult>)
        requires
            repository.valid(),
        ensures
            r matches Ok(result) && result.total_matches == result.matches@.len()
                && result.matches@.len() <= references@.len(),
            repository.dependable() ==> answers(
                r,
                Ok(
                    retrieved(
                        repository.contexts(),
                        repository.chunk_sets(),
                        references_of(references@),
                    ),
                ),
            ),
    {
        let mut matches: Vec<ContextMatch> = Vec::new();
        let mut i: usize = 0;
        let ghost asked = references_of(references@);
        let ghost pick = |reference: ReferenceView|
            referred(repository.contexts(), repository.chunk_sets(), reference);
        assert(asked.take(0) =~= Seq::<ReferenceView>::empty());
        while i < references.len()
            invariant
                i <= references@.len(),
                repository.valid(),
                asked == references_of(references@),
                pick == (|reference: ReferenceView|
                    referred(repository.contexts(), repository.chunk_sets(), reference)),
                repository.dependable() ==> matches_of(matches@) == asked.take(i as int).filter_map(
                    pick,
                ),
                matches@.len() <= i,
            decreases references@.len() - i,
        {
            assert(asked.take(i + 1).drop_last() =~= asked.take(i as int));
            assert(asked[i as int] == references@[i as int]@);
            let reference = &references[i];
            i += 1;
            let context = match repository.find_by_id(reference.context_id) {
                Ok(context) => context,
                Err(_) => {
                    continue ;
                },
            };
            let all_chunks = match repository.find_chunks_by_context_id(context.id) {
                Ok(chunks) => chunks,
                Err(_) => {
                    continue ;
                },
            };
            let chunks = Self::select_chunks(all_chunks, &reference.chunk_ids);
            let score = Score::Weight {
                bits: match reference.weight {
                    Some(bits) => bits,
                    None => UNIT_WEIGHT,
                },
            };
            let ghost before = matches_of(matches@);
            matches.push(ContextMatch { context, chunks: Some(chunks), score });
            assert(repository.dependable() ==> matches_of(matches@) =~= before + seq![
                pick(asked[i - 1])->0,
            ]);
        }
        assert(asked.take(i as int) =~= asked);
        let total_matches = matches.len();
        Ok(ContextSearchResult { matches, total_matches })
    }
}

/// Where no chunk set is stored for the last of the first `n` scored
/// contexts, while the matches of those before it can be assembled, the first
/// `n` and all of them fail with that context as not found.
pub proof fn lemma_assembled_fails(
    scored: Seq<(ContextView, Score)>,
    chunk_sets: Map<u128, Seq<ChunkView>>,
    n: int,
)
    requires
        0 < n <= scored.len(),
        assembled(scored.take(n - 1), chunk_sets) is Ok,
        !chunk_sets.contains_key(scored[n - 1].0.id),
    ensures
        assembled(scored, chunk_sets) == Err::<Seq<MatchView>, McpError>(
            McpError::ContextNotFound(scored[n - 1].0.id),
        ),
{
    assert(scored.take(n).drop_last() =~= scored.take(n - 1));
    lemma_assembled_failure_stays(scored, chunk_sets, n);
}

/// Where the first `n` scored contexts cannot be assembled, all of them fail
/// in the same way.
pub proof fn lemma_assembled_failure_stays(
    scored: Seq<(ContextView, Score)>,
    chunk_sets: Map<u128, Seq<ChunkView>>,
    n: int,
)
    requires
        0 <= n <= scored.len(),
        assembled(scored.take(n), chunk_sets) is Err,
    ensures
        assembled(scored, chunk_sets) == assembled(scored.take(n), chunk_sets),
    decreases scored.len() - n,
{
    if n < scored.len() {
        assert(scored.take(n + 1).drop_last() =~= scored.take(n));
        lemma_assembled_failure_stays(scored, chunk_sets, n + 1);
    } else {
        assert(scored.take(n) =~= scored);
    }
}

} // verus!
