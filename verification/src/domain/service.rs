use vstd::prelude::*;
use vstd::string::StringSliceAdditionalSpecFns;
use vstd::utf8::{encode_utf8, is_char_boundary};
use crate::domain::error::McpError;
use crate::domain::model::{
    chunks_of, contexts_of, ChunkView, Context, ContextChunk, ContextView, Score,
};
use crate::domain::ranking::{is_ranking, lemma_ranking_sorted, positions, rank, ranking};
use crate::domain::system::{fresh_id, is_random_id};
use crate::domain::text::{
    byte_length, byte_slice, chars_of, contains, lowercase, occurs_in, split_words, string_of, texts,
    to_lowercase, words,
};

verus! {

broadcast use {vstd::string::group_string_axioms, vstd::utf8::encode_utf8_valid_utf8};

/// How many windows a text of `len` bytes is cut into, where a window holds
/// up to `size` bytes and each window starts `step` bytes after the one before
/// it, with `step` at least 1 and at most `size`: none for an empty text; one
/// for a text that fits into a window; else one more than for the text
/// without its first `step` bytes.
pub open spec fn window_count(len: nat, size: nat, step: nat) -> nat
    decreases len,
{
    if len == 0 {
        0
    } else if len <= size || step == 0 || len < step {
        1
    } else {
        1 + window_count((len - step) as nat, size, step)
    }
}

/// The byte at which window `k` starts.
pub open spec fn window_start(k: nat, step: nat) -> nat {
    k * step
}

/// The byte before which window `k` ends: `size` bytes after its start, or
/// the end of the text where that comes first.
pub open spec fn window_end(k: nat, len: nat, size: nat, step: nat) -> nat {
    if k * step + size < len {
        k * step + size
    } else {
        len
    }
}

/// The windows of a text cover it. A text has no window exactly where it is
/// empty; every window starts inside the text; every window but the last is
/// full and ends before the text does, so that the next, which starts `step`
/// bytes after it, starts behind its start and not behind its end; and the
/// last window reaches the end of the text.
pub proof fn lemma_windows_cover(len: nat, size: nat, step: nat)
    requires
        1 <= step <= size,
    ensures
        window_count(len, size, step) == 0 <==> len == 0,
        forall|k: nat|
            k < window_count(len, size, step) ==> #[trigger] window_start(k, step) < len,
        forall|k: nat|
            k + 1 < window_count(len, size, step) ==> #[trigger] window_start(k, step) + size
                < len,
        len > 0 ==> window_start((window_count(len, size, step) - 1) as nat, step) + size >= len,
    decreases len,
{
    let count = window_count(len, size, step);
    assert(window_start(0, step) == 0) by (nonlinear_arith)
        requires
            window_start(0, step) == 0 * step,
    ;
    if len > size {
        let shorter = (len - step) as nat;
        let fewer = window_count(shorter, size, step);
        lemma_windows_cover(shorter, size, step);
        assert(count == 1 + fewer);
        assert forall|k: nat| k < count implies #[trigger] window_start(k, step) < len by {
            if k > 0 {
                let j = (k - 1) as nat;
                assert(window_start(j, step) < shorter);
                assert(window_start(k, step) == window_start(j, step) + step) by (nonlinear_arith)
                    requires
                        k == j + 1,
                        window_start(k, step) == k * step,
                        window_start(j, step) == j * step,
                ;
            }
        }
        assert forall|k: nat| k + 1 < count implies #[trigger] window_start(k, step) + size
            < len by {
            if k > 0 {
                let j = (k - 1) as nat;
                assert(window_start(j, step) + size < shorter);
                assert(window_start(k, step) == window_start(j, step) + step) by (nonlinear_arith)
                    requires
                        k == j + 1,
                        window_start(k, step) == k * step,
                        window_start(j, step) == j * step,
                ;
            }
        }
        let last = (count - 1) as nat;
        let j = (fewer - 1) as nat;
        assert(window_start(last, step) == window_start(j, step) + step) by (nonlinear_arith)
            requires
                last == j + 1,
                window_start(last, step) == last * step,
                window_start(j, step) == j * step,
        ;
    }
}

/// The number of bytes that a text takes.
pub open spec fn byte_len(text: Seq<char>) -> nat {
    encode_utf8(text).len()
}

/// The chunks stand in the order of their positions and their windows cover
/// a text of `len` bytes: the first starts at byte 0, each of the others
/// starts behind the start and not behind the end of the one before it, and
/// the last ends where the text ends. An empty text has no chunks.
pub open spec fn covers(chunks: Seq<ChunkView>, len: nat) -> bool {
    &&& chunks.len() == 0 <==> len == 0
    &&& chunks.len() > 0 ==> chunks[0].position == 0
    &&& forall|k: int|
        0 <= k < chunks.len() - 1 ==> (#[trigger] chunks[k]).position < chunks[k + 1].position
            <= chunks[k].position + byte_len(chunks[k].content)
    &&& chunks.len() > 0 ==> chunks.last().position + byte_len(chunks.last().content) == len
}

/// Whether chunks cover a text depends on their positions and texts alone.
pub proof fn lemma_covers_same_windows(a: Seq<ChunkView>, b: Seq<ChunkView>, len: nat)
    requires
        a.len() == b.len(),
        forall|k: int|
            0 <= k < a.len() ==> (#[trigger] a[k]).position == b[k].position && a[k].content
                == b[k].content,
        covers(a, len),
    ensures
        covers(b, len),
{
    assert forall|k: int| 0 <= k < b.len() - 1 implies (#[trigger] b[k]).position < b[k
        + 1].position <= b[k].position + byte_len(b[k].content) by {
        assert(a[k].position == b[k].position);
        assert(a[k + 1].position == b[k + 1].position);
    }
    if b.len() > 0 {
        assert(a[0].position == b[0].position);
        assert(a.last().position == b.last().position);
    }
}

/// Cuts the text of a context into overlapping windows.
pub struct ChunkingService {
    max_chunk_size: usize,
    overlap: usize,
}

impl ChunkingService {
    #[verifier::type_invariant]
    spec fn advances(self) -> bool {
        self.overlap < self.max_chunk_size
    }

    /// The number of bytes that a window holds at most.
    pub closed spec fn max_chunk_size(&self) -> nat {
        self.max_chunk_size as nat
    }

    /// The number of bytes that a full window shares with the next one.
    pub closed spec fn overlap(&self) -> nat {
        self.overlap as nat
    }

    /// The number of bytes from the start of a window to the start of the next.
    pub open spec fn step(&self) -> nat {
        (self.max_chunk_size() - self.overlap()) as nat
    }

    /// Every window of `text` starts and ends between two characters.
    pub open spec fn splits(&self, text: Seq<char>) -> bool {
        let bytes = encode_utf8(text);
        forall|k: nat|
            k < window_count(bytes.len(), self.max_chunk_size(), self.step()) ==> is_char_boundary(
                bytes,
                #[trigger] window_start(k, self.step()) as int,
            ) && is_char_boundary(
                bytes,
                window_end(k, bytes.len(), self.max_chunk_size(), self.step()) as int,
            )
    }

    /// `chunks` are the windows of the text of `context`, in order: chunk `k`
    /// holds the bytes of window `k`, starts at that window's first byte,
    /// names the context and carries a random identifier.
    pub open spec fn windows_of(&self, context: ContextView, chunks: Seq<ChunkView>) -> bool {
        let bytes = encode_utf8(context.content);
        &&& chunks.len() == window_count(bytes.len(), self.max_chunk_size(), self.step())
        &&& forall|k: int|
            0 <= k < chunks.len() ==> {
                let c = #[trigger] chunks[k];
                &&& c.context_id == context.id
                &&& is_random_id(c.chunk_id)
                &&& c.position == window_start(k as nat, self.step())
                &&& encode_utf8(c.content) == bytes.subrange(
                    window_start(k as nat, self.step()) as int,
                    window_end(k as nat, bytes.len(), self.max_chunk_size(), self.step()) as int,
                )
            }
    }

    /// A chunking service with windows of up to `max_chunk_size` bytes, of
    /// which a full one shares `overlap` bytes with the next. The overlap must
    /// be smaller than the window.
    pub fn new(max_chunk_size: usize, overlap: usize) -> (r: Result<Self, McpError>)
        ensures
            r is Ok <==> overlap < max_chunk_size,
            r matches Ok(s) ==> s.max_chunk_size() == max_chunk_size && s.overlap() == overlap,
            r matches Err(e) ==> e is ValidationError,
    {
        if overlap < max_chunk_size {
            Ok(ChunkingService { max_chunk_size, overlap })
        } else {
            Err(McpError::ValidationError("chunk overlap must be smaller than chunk size".to_owned()))
        }
    }

    /// Whether every window of `text` starts and ends between two characters.
    #[verifier::spinoff_prover]
    #[verifier::rlimit(40)]
    pub fn can_split(&self, text: &str) -> (b: bool)
        ensures
            b == self.splits(text@),
            self.overlap() < self.max_chunk_size(),
    {
        proof {
            use_type_invariant(self);
        }
        let len = byte_length(text);
        let step = self.max_chunk_size - self.overlap;
        let ghost bytes = text.spec_bytes();
        let ghost total = window_count(bytes.len(), self.max_chunk_size(), self.step());
        let mut position: usize = 0;
        let ghost mut k: nat = 0;
        assert(0 * step == 0) by (nonlinear_arith);
        while position < len
            invariant
                len == bytes.len(),
                bytes == text.spec_bytes(),
                self.overlap() < self.max_chunk_size(),
                step == self.step(),
                step >= 1,
                step <= self.max_chunk_size(),
                self.max_chunk_size() == self.max_chunk_size,
                total == window_count(bytes.len(), self.max_chunk_size(), self.step()),
                position == k * step,
                position <= len,
                position < len ==> k + window_count(
                    (len - position) as nat,
                    self.max_chunk_size(),
                    self.step(),
                ) == total,
                len == 0 ==> total == 0,
                len > 0 ==> position < len,
                forall|j: nat|
                    j < k ==> is_char_boundary(bytes, #[trigger] window_start(j, self.step()) as int)
                        && is_char_boundary(
                        bytes,
                        window_end(j, bytes.len(), self.max_chunk_size(), self.step()) as int,
                    ),
            decreases len - position,
        {
            let end = if self.max_chunk_size >= len - position {
                len
            } else {
                position + self.max_chunk_size
            };
            assert(end == window_end(k, bytes.len(), self.max_chunk_size(), self.step()));
            assert(position == window_start(k, self.step()));
            if !text.is_char_boundary(position) || !text.is_char_boundary(end) {
                assert(k < total);
                return false;
            }
            if end == len {
                assert(k + 1 == total);
                assert forall|j: nat| j < total implies is_char_boundary(
                    bytes,
                    #[trigger] window_start(j, self.step()) as int,
                ) && is_char_boundary(
                    bytes,
                    window_end(j, bytes.len(), self.max_chunk_size(), self.step()) as int,
                ) by {
                    if j == k {
                        assert(is_char_boundary(bytes, position as int));
                        assert(is_char_boundary(bytes, end as int));
                    }
                }
                assert(bytes == encode_utf8(text@));
                assert(self.splits(text@));
                return true;
            }
            proof {
                assert forall|j: nat| j < k + 1 implies is_char_boundary(
                    bytes,
                    #[trigger] window_start(j, self.step()) as int,
                ) && is_char_boundary(
                    bytes,
                    window_end(j, bytes.len(), self.max_chunk_size(), self.step()) as int,
                ) by {
                    if j == k {
                        assert(is_char_boundary(bytes, position as int));
                        assert(is_char_boundary(bytes, end as int));
                    }
                }
            }
            position = position + step;
            proof {
                assert((k + 1) * step == k * step + step) by (nonlinear_arith);
                k = k + 1;
            }
        }
        true
    }

    /// Cuts the text of `context` into chunks: chunk `k` holds the bytes of
    /// window `k`, starts at that window's first byte and carries a new random
    /// identifier and no embedding.
    #[verifier::spinoff_prover]
    #[verifier::rlimit(40)]
    pub fn chunk_context(&self, context: &Context) -> (chunks: Vec<ContextChunk>)
        requires
            self.splits(context.content@),
        ensures
            self.overlap() < self.max_chunk_size(),
            self.windows_of(context@, chunks_of(chunks@)),
            forall|k: int| 0 <= k < chunks@.len() ==> (#[trigger] chunks@[k]).embedding is None,
            covers(chunks_of(chunks@), byte_len(context.content@)),
    {
        proof {
            use_type_invariant(self);
        }
        let content = context.content.as_str();
        let len = byte_length(content);
        let step = self.max_chunk_size - self.overlap;
        let ghost bytes = content.spec_bytes();
        let ghost total = window_count(bytes.len(), self.max_chunk_size(), self.step());
        let mut chunks: Vec<ContextChunk> = Vec::new();
        let mut position: usize = 0;
        assert(0 * step == 0) by (nonlinear_arith);
        while position < len
            invariant_except_break
                position < len ==> chunks@.len() + window_count(
                    (len - position) as nat,
                    self.max_chunk_size(),
                    self.step(),
                ) == total,
                len > 0 ==> position < len,
                chunks@.len() > 0 ==> chunks@.last().position < position <= chunks@.last().position
                    + byte_len(chunks@.last().content@),
                position == chunks@.len() * step,
                chunks@.len() == 0 ==> position == 0,
            invariant
                len == bytes.len(),
                bytes == content.spec_bytes(),
                content@ == context.content@,
                self.overlap() < self.max_chunk_size(),
                self.splits(context.content@),
                step == self.step(),
                step >= 1,
                step <= self.max_chunk_size(),
                self.max_chunk_size() == self.max_chunk_size,
                total == window_count(bytes.len(), self.max_chunk_size(), self.step()),
                position <= len,
                chunks@.len() > 0 ==> chunks@[0].position == 0,
                forall|k: int|
                    0 <= k < chunks@.len() ==> {
                        let c = #[trigger] chunks@[k];
                        &&& c.context_id == context.id
                        &&& is_random_id(c.chunk_id)
                        &&& c.embedding is None
                        &&& c.position == window_start(k as nat, self.step())
                        &&& encode_utf8(c.content@) == bytes.subrange(
                            window_start(k as nat, self.step()) as int,
                            window_end(
                                k as nat,
                                bytes.len(),
                                self.max_chunk_size(),
                                self.step(),
                            ) as int,
                        )
                        &&& c.position + byte_len(c.content@) == window_end(
                            k as nat,
                            bytes.len(),
                            self.max_chunk_size(),
                            self.step(),
                        )
                    },
                forall|k: int|
                    0 <= k < chunks@.len() - 1 ==> (#[trigger] chunks@[k]).position < chunks@[k
                        + 1].position <= chunks@[k].position + byte_len(chunks@[k].content@),
            ensures
                chunks@.len() == total,
                len > 0 ==> chunks@.len() > 0 && chunks@.last().position + byte_len(
                    chunks@.last().content@,
                ) == len,
            decreases len - position,
        {
            let ghost k = chunks@.len();
            let end = if self.max_chunk_size >= len - position {
                len
            } else {
                position + self.max_chunk_size
            };
            assert(end == window_end(k, bytes.len(), self.max_chunk_size(), self.step()));
            assert(position == window_start(k, self.step()));
            assert(k < total);
            let piece = byte_slice(content, position, end);
            let chunk = ContextChunk {
                context_id: context.id,
                chunk_id: fresh_id(),
                content: piece.to_owned(),
                embedding: None,
                position,
            };
            assert(encode_utf8(chunk.content@) == bytes.subrange(position as int, end as int));
            assert(byte_len(chunk.content@) == end - position);
            chunks.push(chunk);
            assert((k + 1) * step == k * step + step) by (nonlinear_arith);
            if end == len {
                break;
            }
            position = position + step;
        }
        proof {
            let views = chunks_of(chunks@);
            assert forall|k: int| 0 <= k < views.len() implies {
                let c = #[trigger] views[k];
                &&& c.context_id == context.id
                &&& is_random_id(c.chunk_id)
                &&& c.position == window_start(k as nat, self.step())
                &&& encode_utf8(c.content) == bytes.subrange(
                    window_start(k as nat, self.step()) as int,
                    window_end(k as nat, bytes.len(), self.max_chunk_size(), self.step()) as int,
                )
            } by {
                assert(views[k] == chunks@[k]@);
            }
            assert forall|k: int| 0 <= k < views.len() - 1 implies (#[trigger] views[k]).position
                < views[k + 1].position <= views[k].position + byte_len(views[k].content) by {
                assert(views[k] == chunks@[k]@);
                assert(views[k + 1] == chunks@[k + 1]@);
            }
            if views.len() > 0 {
                assert(views[0] == chunks@[0]@);
                assert(views.last() == chunks@.last()@);
            }
        }
        chunks
    }
}

/// How many of the words of `query` occur in `content`, letter case aside.
pub open spec fn matched_terms(query: Seq<char>, content: Seq<char>) -> nat {
    words(query).filter(|w: Seq<char>| occurs_in(lowercase(w), lowercase(content))).len()
}

/// For each of `contexts`, how many of the words of `query` occur in its text.
pub open spec fn match_counts(query: Seq<char>, contexts: Seq<ContextView>) -> Seq<usize> {
    Seq::new(contexts.len(), |i: int| matched_terms(query, contexts[i].content) as usize)
}

/// The best `max_results` of `contexts` for `query`, best first, each with its
/// score: the number of the query's words that occur in its text, out of the
/// number of the query's words. Contexts with the same score stand in the
/// order in which they stand in `contexts`.
pub open spec fn ranked(query: Seq<char>, contexts: Seq<ContextView>, max_results: nat) -> Seq<
    (ContextView, Score),
> {
    let counts = match_counts(query, contexts);
    Seq::new(
        if max_results < contexts.len() {
            max_results
        } else {
            contexts.len()
        },
        |k: int|
            (
                contexts[ranking(counts)[k]],
                Score::Ratio {
                    matched: counts[ranking(counts)[k]],
                    total: words(query).len() as usize,
                },
            ),
    )
}

/// What a list of scored contexts holds.
pub open spec fn scored_of(list: Seq<(Context, Score)>) -> Seq<(ContextView, Score)> {
    list.map_values(|entry: (Context, Score)| (entry.0@, entry.1))
}

/// Ranks contexts by the part of a query's words that they hold.
pub struct RetrievalService {
    max_results: usize,
}

impl RetrievalService {
    /// The greatest number of contexts that a ranking returns.
    pub closed spec fn max_results(&self) -> nat {
        self.max_results as nat
    }

    /// A retrieval service whose rankings hold up to `max_results` contexts.
    pub fn new(max_results: usize) -> (r: Self)
        ensures
            r.max_results() == max_results,
    {
        RetrievalService { max_results }
    }

    /// The words of `query`, each in lower case.
    fn query_terms(query: &str) -> (terms: Vec<Vec<char>>)
        ensures
            terms@.len() == words(query@).len(),
            forall|j: int|
                0 <= j < terms@.len() ==> (#[trigger] terms@[j])@ == lowercase(words(query@)[j]),
    {
        let text = chars_of(query);
        let parts = split_words(&text);
        let mut terms: Vec<Vec<char>> = Vec::new();
        let mut j: usize = 0;
        while j < parts.len()
            invariant
                j <= parts.len(),
                texts(parts@) == words(query@),
                terms@.len() == j,
                forall|i: int|
                    0 <= i < j ==> (#[trigger] terms@[i])@ == lowercase(words(query@)[i]),
            decreases parts.len() - j,
        {
            let word = string_of(&parts[j]);
            assert(texts(parts@)[j as int] == parts@[j as int]@);
            let lowered = to_lowercase(word.as_str());
            terms.push(chars_of(lowered.as_str()));
            j += 1;
        }
        terms
    }

    /// How many of `terms` occur in `content`, letter case aside.
    fn count_matches(query: Ghost<Seq<char>>, terms: &Vec<Vec<char>>, content: &str) -> (matched:
        usize)
        requires
            terms@.len() == words(query@).len(),
            forall|j: int|
                0 <= j < terms@.len() ==> (#[trigger] terms@[j])@ == lowercase(words(query@)[j]),
        ensures
            matched == matched_terms(query@, content@),
    {
        let lowered_content = to_lowercase(content);
        let lowered = chars_of(lowered_content.as_str());
        let ghost found = |w: Seq<char>| occurs_in(lowercase(w), lowercase(content@));
        let mut matched: usize = 0;
        let mut j: usize = 0;
        assert(words(query@).take(0).filter(found).len() == 0) by {
            reveal(Seq::filter);
        }
        while j < terms.len()
            invariant
                j <= terms.len(),
                terms@.len() == words(query@).len(),
                forall|i: int|
                    0 <= i < terms@.len() ==> (#[trigger] terms@[i])@ == lowercase(
                        words(query@)[i],
                    ),
                lowered@ == lowercase(content@),
                found == (|w: Seq<char>| occurs_in(lowercase(w), lowercase(content@))),
                matched == words(query@).take(j as int).filter(found).len(),
                matched <= j,
            decreases terms.len() - j,
        {
            proof {
                assert(words(query@).take(j + 1).drop_last() =~= words(query@).take(j as int));
                reveal(Seq::filter);
            }
            if contains(&lowered, &terms[j]) {
                matched += 1;
            }
            j += 1;
        }
        assert(words(query@).take(j as int) =~= words(query@));
        matched
    }

    /// Ranks `available_contexts` against `query`. The score of a context is
    /// the number of the query's words that occur in its text, letter case
    /// aside, out of the number of the query's words. The result holds the
    /// contexts with the best scores, best first, contexts with the same score
    /// in the order in which they were given, and at most `max_results` of
    /// them. The chunks play no part.
    pub fn rank_contexts(
        &self,
        query: &str,
        available_contexts: &[Context],
        _context_chunks: &[ContextChunk],
    ) -> (found: Vec<(Context, Score)>)
        ensures
            scored_of(found@) == ranked(
                query@,
                contexts_of(available_contexts@),
                self.max_results(),
            ),
            found@.len() <= self.max_results(),
            found@.len() <= available_contexts@.len(),
            forall|j: int, k: int|
                0 <= j <= k < found@.len() ==> (#[trigger] found@[j]).1->matched >= (
                #[trigger] found@[k]).1->matched,
    {
        let terms = Self::query_terms(query);
        let mut counts: Vec<usize> = Vec::new();
        let mut i: usize = 0;
        while i < available_contexts.len()
            invariant
                i <= available_contexts@.len(),
                terms@.len() == words(query@).len(),
                forall|j: int|
                    0 <= j < terms@.len() ==> (#[trigger] terms@[j])@ == lowercase(
                        words(query@)[j],
                    ),
                counts@.len() == i,
                forall|j: int|
                    0 <= j < i ==> #[trigger] counts@[j] == matched_terms(
                        query@,
                        available_contexts@[j].content@,
                    ),
            decreases available_contexts@.len() - i,
        {
            let matched = Self::count_matches(
                Ghost(query@),
                &terms,
                available_contexts[i].content.as_str(),
            );
            counts.push(matched);
            i += 1;
        }
        assert(counts@ =~= match_counts(query@, contexts_of(available_contexts@)));
        let order = rank(&counts);
        let keep = if self.max_results < order.len() {
            self.max_results
        } else {
            order.len()
        };
        let mut found: Vec<(Context, Score)> = Vec::new();
        let mut k: usize = 0;
        while k < keep
            invariant
                k <= keep <= order@.len(),
                order@.len() == available_contexts@.len(),
                counts@ == match_counts(query@, contexts_of(available_contexts@)),
                positions(order@) == ranking(counts@),
                is_ranking(counts@, positions(order@)),
                terms@.len() == words(query@).len(),
                found@.len() == k,
                forall|p: int|
                    0 <= p < k ==> {
                        let i = ranking(counts@)[p];
                        &&& 0 <= i < available_contexts@.len()
                        &&& (#[trigger] found@[p]).0@ == available_contexts@[i]@
                        &&& found@[p].1 == Score::Ratio {
                            matched: counts@[i],
                            total: words(query@).len() as usize,
                        }
                    },
            decreases keep - k,
        {
            let at = order[k];
            assert(positions(order@)[k as int] == at);
            let entry = (
                available_contexts[at].clone(),
                Score::Ratio { matched: counts[at], total: terms.len() },
            );
            found.push(entry);
            k += 1;
        }
        proof {
            assert forall|j: int, k: int| 0 <= j <= k < found@.len() implies (
            #[trigger] found@[j]).1->matched >= (#[trigger] found@[k]).1->matched by {
                lemma_ranking_sorted(counts@, positions(order@), j, k);
            }
            assert(scored_of(found@) =~= ranked(
                query@,
                contexts_of(available_contexts@),
                self.max_results(),
            ));
        }
        found
    }
}

} // verus!
