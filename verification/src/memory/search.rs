//! A search of the recall index, step by step. The full-text match, the
//! similarity of embeddings and the arithmetic on scores are done elsewhere;
//! each step says what is needed next, and takes it.
use vstd::prelude::*;
use vstd::string::*;
use crate::memory::config::Score;
use crate::memory::hits;
use crate::memory::hits::{annotate, rerank, HitView, ScoredChunk};
use crate::memory::index;
use crate::memory::index::Fts5Index;
use crate::memory::keys;
use crate::memory::keys::chunk_key;
use crate::memory::recall;
use crate::memory::recall::{fts_query, fusion_pool, vector_ranks};
use crate::text;

verus! {

/// The largest score: every positive score is at most this.
pub const SCORE_INFINITY: Score = 0x7f80_0000;

/// What a search needs next.
#[derive(Debug)]
pub enum SearchStep {
    /// The best `limit` chunks that match the expression, best first.
    Match { query: String, limit: usize },
    /// How similar each hit's embedding is to that of the query.
    Compare { found: Vec<ScoredChunk> },
    /// The score of each hit from its place and from its rank by similarity,
    /// where it has one.
    Fuse { found: Vec<ScoredChunk>, ranks: Vec<Option<usize>> },
    /// The score of each hit lifted by how often it was pulled back, in
    /// proportion to the best score.
    Lift { found: Vec<ScoredChunk>, retrieves: Vec<Option<u64>>, best: Score },
    /// Nothing: these are the hits.
    Done { found: Vec<ScoredChunk> },
}

/// The number of hits to match for `k` of them: more where they are to be ranked
/// by similarity too.
pub open spec fn match_limit(k: usize, vector: bool) -> int {
    if !vector {
        k as int
    } else if k * 4 > usize::MAX {
        usize::MAX as int
    } else {
        k * 4
    }
}

/// Whether a search for `k` hits starts with the step `r`.
pub open spec fn begun(query: Seq<char>, k: usize, vector: bool, r: SearchStep) -> bool {
    match recall::match_query(query) {
        Some(q) => r matches SearchStep::Match { query, limit } && query@ == q && limit
            == match_limit(k, vector),
        None => r matches SearchStep::Done { found } && found@.len() == 0,
    }
}

/// Starts a search for `k` hits. `vector` says whether the query has an
/// embedding. A query without a word finds nothing.
pub fn begin(query: &str, k: usize, vector: bool) -> (r: SearchStep)
    ensures
        begun(query@, k, vector, r),
{
    match fts_query(query) {
        Some(q) => SearchStep::Match {
            query: q,
            limit: if vector {
                fusion_pool(k)
            } else {
                k
            },
        },
        None => SearchStep::Done { found: Vec::new() },
    }
}

/// How often the contents that overlap with a hit's chunk were pulled back.
pub open spec fn retrieves_of(state: Fts5Index, h: HitView) -> Option<nat> {
    index::hits(
        index::mapping_views(state.mappings@),
        state.retrieves@,
        keys::chunk_key_spec(h.chunk),
        state.mappings@.len() as int,
    )
}

/// Whether the retrieves of every chunk can be counted.
pub open spec fn retrieves_fit(state: Fts5Index) -> bool {
    forall|k: Seq<char>|
        match #[trigger] index::hits(
            index::mapping_views(state.mappings@),
            state.retrieves@,
            k,
            state.mappings@.len() as int,
        ) {
            Some(x) => x <= u64::MAX,
            None => true,
        }
}

/// Whether `r` counts the retrieves of each of the hits.
pub open spec fn counts_retrieves(state: Fts5Index, hs: Seq<HitView>, r: Seq<Option<u64>>) -> bool {
    &&& r.len() == hs.len()
    &&& forall|i: int|
        0 <= i < hs.len() ==> (match #[trigger] r[i] {
            Some(n) => retrieves_of(state, hs[i]) == Some(n as nat),
            None => retrieves_of(state, hs[i]) is None,
        })
}

fn retrieves_of_hits(found: &Vec<ScoredChunk>, state: &Fts5Index) -> (r: Vec<Option<u64>>)
    requires
        state.wf(),
        retrieves_fit(*state),
    ensures
        counts_retrieves(*state, hits::hit_views(found@), r@),
{
    let ghost hs = hits::hit_views(found@);
    let mut out: Vec<Option<u64>> = Vec::new();
    let mut i: usize = 0;
    while i < found.len()
        invariant
            i <= found@.len(),
            hs == hits::hit_views(found@),
            state.wf(),
            retrieves_fit(*state),
            counts_retrieves(*state, hs.take(i as int), out@),
        decreases found@.len() - i,
    {
        let ghost mv = index::mapping_views(state.mappings@);
        let key: String = chunk_key(&found[i].chunk);
        let ghost k = key@;
        let mut ks: Vec<String> = Vec::new();
        ks.push(key);
        let counted: Vec<(String, u64)> = state.chunk_retrieve_hits(&ks);
        proof {
            assert(hs[i as int] == found@[i as int]@);
            assert(text::views(ks@)[0] == k);
            reveal_with_fuel(index::all_hits, 2);
            let all = index::all_hits(mv, state.retrieves@, text::views(ks@), 1);
            assert(index::count_views(counted@) == all);
            let one = index::hits(mv, state.retrieves@, k, mv.len() as int);
            assert(mv.len() == state.mappings@.len());
            assert(one == retrieves_of(*state, hs[i as int]));
            assert(index::all_hits(mv, state.retrieves@, text::views(ks@), 0)
                =~= Seq::<(Seq<char>, nat)>::empty());
            match one {
                Some(x) => {
                    assert(all == Seq::<(Seq<char>, nat)>::empty().push((k, x)));
                    assert(all[0] == (k, x));
                    assert(counted@.len() == 1);
                    assert(index::count_views(counted@)[0] == (
                        counted@[0].0@,
                        counted@[0].1 as nat,
                    ));
                },
                None => {
                    assert(counted@.len() == 0);
                },
            }
        }
        let n: Option<u64> = if counted.len() > 0 {
            Some(counted[0].1)
        } else {
            None
        };
        let ghost before = out@;
        out.push(n);
        proof {
            let now = hs.take(i + 1);
            assert forall|j: int| 0 <= j < now.len() implies (match #[trigger] out@[j] {
                Some(n) => retrieves_of(*state, now[j]) == Some(n as nat),
                None => retrieves_of(*state, now[j]) is None,
            }) by {
                if j < i {
                    assert(out@[j] == before[j]);
                    assert(hs.take(i as int)[j] == now[j]);
                } else {
                    assert(now[j] == hs[i as int]);
                }
            }
        }
        i = i + 1;
    }
    proof {
        assert(hs.take(i as int) =~= hs);
    }
    out
}

/// The best of the first `n` scores, 0 where none is positive.
pub open spec fn best_score(hs: Seq<HitView>, n: int) -> Score
    decreases n,
{
    if n <= 0 {
        0
    } else {
        let prev = best_score(hs, n - 1);
        let s = hs[n - 1].score;
        if s <= SCORE_INFINITY && s > prev {
            s
        } else {
            prev
        }
    }
}

/// The step that follows once the hits have their order: their retrieves are
/// counted where one of them has a positive score.
pub open spec fn lifts(state: Fts5Index, hs: Seq<HitView>, r: SearchStep) -> bool {
    if best_score(hs, hs.len() as int) == 0 {
        r matches SearchStep::Done { found } && hits::hit_views(found@) == hs
    } else {
        r matches SearchStep::Lift { found, retrieves, best } && hits::hit_views(found@) == hs
            && counts_retrieves(state, hs, retrieves@) && best == best_score(hs, hs.len() as int)
    }
}

fn lift(found: Vec<ScoredChunk>, state: &Fts5Index) -> (r: SearchStep)
    requires
        state.wf(),
        retrieves_fit(*state),
    ensures
        lifts(*state, hits::hit_views(found@), r),
{
    let ghost hs = hits::hit_views(found@);
    let mut best: Score = 0;
    let mut i: usize = 0;
    while i < found.len()
        invariant
            i <= found@.len(),
            hs == hits::hit_views(found@),
            best == best_score(hs, i as int),
        decreases found@.len() - i,
    {
        assert(hs[i as int] == found@[i as int]@);
        let s: Score = found[i].score;
        if s <= SCORE_INFINITY && s > best {
            best = s;
        }
        i = i + 1;
    }
    if best == 0 {
        SearchStep::Done { found }
    } else {
        let retrieves: Vec<Option<u64>> = retrieves_of_hits(&found, state);
        SearchStep::Lift { found, retrieves, best }
    }
}

/// The hits with what recorded usage says of them.
pub open spec fn all_annotated(
    state: Fts5Index,
    hs: Seq<HitView>,
    decayed: Seq<Score>,
) -> Seq<HitView> {
    Seq::new(
        hs.len(),
        |i: int| hits::annotated(hs[i], state.stats@, state.stats.decay.enabled, decayed[i]),
    )
}

/// Whether the step `r` follows on the chunks that matched.
pub open spec fn matched(
    state: Fts5Index,
    found: Seq<HitView>,
    decayed: Seq<Score>,
    vector: bool,
    r: SearchStep,
) -> bool {
    let hs = all_annotated(state, found, decayed);
    if found.len() == 0 {
        r matches SearchStep::Done { found } && found@.len() == 0
    } else if vector {
        r matches SearchStep::Compare { found } && hits::hit_views(found@) == hs
    } else {
        lifts(state, hs, r)
    }
}

/// Takes the chunks that matched, best first. `decayed` holds the weight of each
/// as of now. With an embedding of the query they are compared to it next.
pub fn take_matches(
    found: &Vec<ScoredChunk>,
    state: &Fts5Index,
    decayed: &Vec<Score>,
    vector: bool,
) -> (r: SearchStep)
    requires
        state.wf(),
        retrieves_fit(*state),
        decayed@.len() == found@.len(),
    ensures
        matched(*state, hits::hit_views(found@), decayed@, vector, r),
{
    if found.len() == 0 {
        return SearchStep::Done { found: Vec::new() };
    }
    let known: Vec<ScoredChunk> = annotate(found, &state.stats, decayed);
    proof {
        let hs = all_annotated(*state, hits::hit_views(found@), decayed@);
        assert forall|i: int| 0 <= i < hs.len() implies hits::hit_views(known@)[i]
            == #[trigger] hs[i] by {
            assert(hits::hit_views(found@)[i] == found@[i]@);
        }
        assert(hits::hit_views(known@) =~= hs);
    }
    if vector {
        SearchStep::Compare { found: known }
    } else {
        lift(known, state)
    }
}

/// Whether the step `r` follows on the similarities of the hits: those with a
/// positive one are ranked by it.
pub open spec fn compared(found: Seq<HitView>, similarity: Seq<Score>, r: SearchStep) -> bool {
    r matches SearchStep::Fuse { found: same, ranks } && hits::hit_views(same@) == found
        && ranks@.len() == found.len() && forall|i: int|
        0 <= i < ranks@.len() ==> (match #[trigger] ranks@[i] {
            Some(k) => similarity[i] > 0 && k == recall::positive_before(
                similarity,
                i,
                similarity.len() as int,
            ),
            None => similarity[i] == 0,
        })
}

/// Takes the similarity of each hit to the query, 0 for a hit that has no
/// embedding or no positive similarity.
pub fn take_similarities(found: Vec<ScoredChunk>, similarity: &Vec<Score>) -> (r: SearchStep)
    requires
        similarity@.len() == found@.len(),
    ensures
        compared(hits::hit_views(found@), similarity@, r),
{
    let ranks: Vec<Option<usize>> = vector_ranks(similarity);
    SearchStep::Fuse { found, ranks }
}

/// Whether the step `r` follows on the fused scores of the hits, of which the best
/// `k` are kept, best first.
pub open spec fn fused(
    state: Fts5Index,
    found: Seq<HitView>,
    scores: Seq<Score>,
    k: usize,
    r: SearchStep,
) -> bool {
    exists|order: Seq<usize>, hs: Seq<HitView>| #[trigger]
        hits::reranked(found, scores, k as int, order, hs) && lifts(state, hs, r)
}

/// Takes the fused score of each hit and keeps the best `k`, best first.
pub fn take_fused(
    found: &Vec<ScoredChunk>,
    scores: &Vec<Score>,
    k: usize,
    state: &Fts5Index,
) -> (r: SearchStep)
    requires
        state.wf(),
        retrieves_fit(*state),
        scores@.len() == found@.len(),
    ensures
        fused(*state, hits::hit_views(found@), scores@, k, r),
{
    let kept: Vec<ScoredChunk> = rerank(found, scores, k);
    let ghost hs = hits::hit_views(kept@);
    let ghost order = choose|order: Seq<usize>| #[trigger]
        hits::reranked(hits::hit_views(found@), scores@, k as int, order, hs);
    let r = lift(kept, state);
    assert(hits::reranked(hits::hit_views(found@), scores@, k as int, order, hs));
    r
}

/// Whether `r` holds the hits in the order of new scores, best first, of equal ones
/// the earlier first.
pub open spec fn in_score_order(
    found: Seq<HitView>,
    scores: Seq<Score>,
    r: Seq<HitView>,
) -> bool {
    exists|order: Seq<usize>| #[trigger]
        hits::reranked(found, scores, found.len() as int, order, r)
}

/// Takes the lifted score of each hit and puts the hits in the order of these
/// scores, best first; of equal ones the earlier stays ahead.
pub fn take_lifted(found: &Vec<ScoredChunk>, scores: &Vec<Score>) -> (r: Vec<ScoredChunk>)
    requires
        scores@.len() == found@.len(),
    ensures
        in_score_order(hits::hit_views(found@), scores@, hits::hit_views(r@)),
{
    rerank(found, scores, found.len())
}

/// Hits whose scores never rise from one to the next stay as they are in the
/// order of these scores. So a search in which nothing is lifted gives the hits
/// of the match.
pub proof fn law_ordered_hits_stay(
    found: Seq<HitView>,
    scores: Seq<Score>,
    order: Seq<usize>,
    r: Seq<HitView>,
)
    requires
        hits::reranked(found, scores, found.len() as int, order, r),
        scores.len() == found.len() <= usize::MAX,
        forall|i: int, j: int| 0 <= i < j < scores.len() ==> scores[i] >= scores[j],
    ensures
        r.len() == found.len(),
        forall|i: int|
            0 <= i < found.len() ==> #[trigger] r[i] == (HitView { score: scores[i], ..found[i] }),
{
    assert forall|i: int| 0 <= i < found.len() implies #[trigger] r[i] == (HitView {
        score: scores[i],
        ..found[i]
    }) by {
        assert(order[i] < found.len());
        lemma_order_is_identity(scores, order, i);
    }
}

/// In a ranking of scores that never rise each place holds itself.
proof fn lemma_order_is_identity(scores: Seq<Score>, order: Seq<usize>, i: int)
    requires
        recall::ranked(scores, order),
        order.len() == scores.len() <= usize::MAX,
        forall|a: int| 0 <= a < order.len() ==> (#[trigger] order[a]) < scores.len(),
        forall|a: int, b: int| 0 <= a < b < scores.len() ==> scores[a] >= scores[b],
        0 <= i < order.len(),
    ensures
        order[i] == i,
{
    lemma_order_rises(scores, order, 0, i);
    lemma_order_rises(scores, order, i, order.len() - 1);
    assert(order[order.len() - 1] < scores.len());
}

/// In a ranking of scores that never rise the places rise by at least one from
/// each to the next.
proof fn lemma_order_rises(scores: Seq<Score>, order: Seq<usize>, i: int, j: int)
    requires
        recall::ranked(scores, order),
        forall|a: int| 0 <= a < order.len() ==> (#[trigger] order[a]) < scores.len(),
        forall|a: int, b: int| 0 <= a < b < scores.len() ==> scores[a] >= scores[b],
        0 <= i <= j < order.len(),
    ensures
        order[i] + (j - i) <= order[j],
    decreases j - i,
{
    if i < j {
        lemma_order_rises(scores, order, i, j - 1);
        let a = order[j - 1] as int;
        let b = order[j] as int;
        assert(recall::comes_before(scores, a, b));
        if b < a {
            assert(scores[b] >= scores[a]);
        }
    }
}

/// Of two hits the one with the higher lifted score comes first.
pub proof fn law_higher_lifted_score_comes_first(
    found: Seq<HitView>,
    scores: Seq<Score>,
    order: Seq<usize>,
    r: Seq<HitView>,
    i: int,
    j: int,
)
    requires
        hits::reranked(found, scores, found.len() as int, order, r),
        scores.len() == found.len(),
        0 <= i < j < r.len(),
    ensures
        r[i].score >= r[j].score,
{
    assert(recall::comes_before(scores, order[i] as int, order[j] as int));
}

/// Of the hits that were fused at most `k` are kept, and all of them where there
/// are no more.
pub proof fn law_at_most_k_hits_are_kept(
    found: Seq<HitView>,
    scores: Seq<Score>,
    k: usize,
    order: Seq<usize>,
    hs: Seq<HitView>,
)
    requires
        hits::reranked(found, scores, k as int, order, hs),
    ensures
        hs.len() <= k,
        found.len() <= k ==> hs.len() == found.len(),
{
}

} // verus!
