//! A whole search, from its query to its hits, and what it comes to where the query
//! has no embedding.
use vstd::prelude::*;
use vstd::string::*;
use crate::memory::config::Score;
use crate::memory::hits;
use crate::memory::hits::HitView;
use crate::memory::index::Fts5Index;
use crate::memory::recall;
use crate::memory::search;
use crate::memory::search::SearchStep;

verus! {

/// What a search is given at its steps: how the texts match, what the weights have
/// decayed to, and the arithmetic on scores.
pub struct Answers {
    /// The best chunks that match an expression, as many as are asked for.
    pub matches: spec_fn(Seq<char>, int) -> Seq<HitView>,
    /// The weight of each hit as of now.
    pub decayed: spec_fn(Seq<HitView>) -> Seq<Score>,
    /// How similar each hit is to the query, where the query has an embedding.
    pub similarity: Option<spec_fn(Seq<HitView>) -> Seq<Score>>,
    /// The score of each hit from its place and its rank by similarity.
    pub fused: spec_fn(Seq<Option<usize>>) -> Seq<Score>,
    /// The score of each hit lifted by its retrieves.
    pub lifted: spec_fn(Seq<HitView>, Seq<Option<u64>>, Score) -> Seq<Score>,
}

/// Whether a search that needs the step `last`, by which the hits have their order,
/// ends with the hits `r`.
pub open spec fn ends(last: SearchStep, a: Answers, r: Seq<HitView>) -> bool {
    match last {
        SearchStep::Lift { found, retrieves, best } => search::in_score_order(
            hits::hit_views(found@),
            (a.lifted)(hits::hit_views(found@), retrieves@, best),
            r,
        ),
        SearchStep::Done { found } => r == hits::hit_views(found@),
        _ => false,
    }
}

/// Whether hits that are compared to the query are fused next, and then need the
/// step `last`.
pub open spec fn compares(
    state: Fts5Index,
    k: usize,
    hs: Seq<HitView>,
    a: Answers,
    fuse: SearchStep,
    last: SearchStep,
) -> bool {
    &&& search::compared(hs, (a.similarity->0)(hs), fuse)
    &&& fuse matches SearchStep::Fuse { found, ranks } && search::fused(
        state,
        hits::hit_views(found@),
        (a.fused)(ranks@),
        k,
        last,
    )
}

/// Whether a search that needs the step `next`, now that its matches were taken,
/// ends with the hits `r`.
pub open spec fn goes_on(
    state: Fts5Index,
    k: usize,
    next: SearchStep,
    a: Answers,
    r: Seq<HitView>,
) -> bool {
    match next {
        SearchStep::Compare { found } => exists|fuse: SearchStep, last: SearchStep|
            #[trigger] compares(state, k, hits::hit_views(found@), a, fuse, last) && ends(last, a, r),
        _ => ends(next, a, r),
    }
}

/// Whether a search of an index, taken through all of its steps, ends with the hits
/// `r`. Its query has an embedding where similarities are given.
pub open spec fn searched(
    state: Fts5Index,
    query: Seq<char>,
    k: usize,
    a: Answers,
    r: Seq<HitView>,
) -> bool {
    let vector = a.similarity is Some;
    exists|first: SearchStep| #[trigger]
        search::begun(query, k, vector, first) && (match first {
            SearchStep::Match { query: q, limit } => exists|next: SearchStep|
                search::matched(
                    state,
                    (a.matches)(q@, limit as int),
                    (a.decayed)((a.matches)(q@, limit as int)),
                    vector,
                    next,
                ) && #[trigger] goes_on(state, k, next, a, r),
            _ => ends(first, a, r),
        })
}

/// Whether a search by words alone gives the hits `r`: none for a query without a
/// word, else the best `k` matches with what recorded usage says of them, in the
/// order of their scores lifted by their retrieves.
pub open spec fn plain_search(
    state: Fts5Index,
    query: Seq<char>,
    k: usize,
    a: Answers,
    r: Seq<HitView>,
) -> bool {
    match recall::match_query(query) {
        None => r.len() == 0,
        Some(q) => {
            let found = (a.matches)(q, k as int);
            let hs = search::all_annotated(state, found, (a.decayed)(found));
            let best = search::best_score(hs, hs.len() as int);
            if best == 0 {
                r == hs
            } else {
                exists|retrieves: Seq<Option<u64>>| #[trigger]
                    search::counts_retrieves(state, hs, retrieves) && search::in_score_order(
                        hs,
                        (a.lifted)(hs, retrieves, best),
                        r,
                    )
            }
        },
    }
}

/// Whether two indexes have recorded the same usage.
pub open spec fn same_usage(s: Fts5Index, t: Fts5Index) -> bool {
    &&& s.stats@ == t.stats@
    &&& s.stats.decay.enabled == t.stats.decay.enabled
    &&& s.mappings@ == t.mappings@
    &&& s.retrieves@ == t.retrieves@
}

/// Whether each hit gets one lifted score.
pub open spec fn lifts_each(a: Answers) -> bool {
    forall|hs: Seq<HitView>, retrieves: Seq<Option<u64>>, best: Score|
        (#[trigger] (a.lifted)(hs, retrieves, best)).len() == hs.len()
}

/// Where the query has no embedding, a search gives what a search by words alone
/// gives of an index with the same usage: the same hits with the same scores in the
/// same order, and none for a query without a word.
pub proof fn law_search_without_an_embedding_is_the_plain_one(
    state: Fts5Index,
    plain: Fts5Index,
    query: Seq<char>,
    k: usize,
    a: Answers,
    r: Seq<HitView>,
    s: Seq<HitView>,
)
    requires
        a.similarity is None,
        lifts_each(a),
        same_usage(state, plain),
        searched(state, query, k, a, r),
        plain_search(plain, query, k, a, s),
    ensures
        r == s,
        recall::match_query(query) is None ==> r.len() == 0,
{
    lemma_search_by_words(state, query, k, a, r);
    match recall::match_query(query) {
        None => {
            assert(r =~= s);
        },
        Some(q) => {
            let found = (a.matches)(q, k as int);
            let hs = search::all_annotated(state, found, (a.decayed)(found));
            assert(hs =~= search::all_annotated(plain, found, (a.decayed)(found)));
            let best = search::best_score(hs, hs.len() as int);
            if best != 0 {
                let n = choose|n: Seq<Option<u64>>| #[trigger]
                    search::counts_retrieves(state, hs, n) && search::in_score_order(
                        hs,
                        (a.lifted)(hs, n, best),
                        r,
                    );
                let m = choose|m: Seq<Option<u64>>| #[trigger]
                    search::counts_retrieves(plain, hs, m) && search::in_score_order(
                        hs,
                        (a.lifted)(hs, m, best),
                        s,
                    );
                assert forall|i: int| 0 <= i < hs.len() implies n[i] == m[i] by {
                    assert(search::retrieves_of(state, hs[i]) == search::retrieves_of(
                        plain,
                        hs[i],
                    ));
                }
                assert(n =~= m);
                lemma_one_score_order(hs, (a.lifted)(hs, n, best), r, s);
            }
        },
    }
}

/// Where nothing was recorded and the query has no embedding, a search gives the
/// matches as they are. It holds where no more matches come than are asked for, they
/// come best first, and a hit that was never pulled back keeps its score.
pub proof fn law_search_without_usage_is_the_match(
    state: Fts5Index,
    query: Seq<char>,
    k: usize,
    a: Answers,
    r: Seq<HitView>,
)
    requires
        a.similarity is None,
        lifts_each(a),
        searched(state, query, k, a, r),
        !state.stats.decay.enabled || state.stats@.dom() == Set::<Seq<char>>::empty(),
        state.mappings@.len() == 0,
        forall|q: Seq<char>, n: int| 0 <= n ==> (#[trigger] (a.matches)(q, n)).len() <= n,
        forall|q: Seq<char>, n: int, i: int, j: int|
            0 <= i < j < (a.matches)(q, n).len() ==> (#[trigger] (a.matches)(q, n)[i]).score >= (
            #[trigger] (a.matches)(q, n)[j]).score,
        forall|hs: Seq<HitView>, retrieves: Seq<Option<u64>>, best: Score, i: int|
            0 <= i < hs.len() && retrieves[i] is None ==> #[trigger] (a.lifted)(
                hs,
                retrieves,
                best,
            )[i] == hs[i].score,
    ensures
        r == (match recall::match_query(query) {
            Some(q) => (a.matches)(q, k as int),
            None => Seq::empty(),
        }),
{
    lemma_search_by_words(state, query, k, a, r);
    match recall::match_query(query) {
        None => {
            assert(r =~= Seq::empty());
        },
        Some(q) => {
            let found = (a.matches)(q, k as int);
            let hs = search::all_annotated(state, found, (a.decayed)(found));
            assert(hs =~= found);
            let best = search::best_score(hs, hs.len() as int);
            if best != 0 {
                let n = choose|n: Seq<Option<u64>>| #[trigger]
                    search::counts_retrieves(state, hs, n) && search::in_score_order(
                        hs,
                        (a.lifted)(hs, n, best),
                        r,
                    );
                let scores = (a.lifted)(hs, n, best);
                assert forall|i: int| 0 <= i < hs.len() implies scores[i] == #[trigger] hs[i].score by {
                    assert(search::retrieves_of(state, hs[i]) is None);
                    assert(n[i] is None);
                }
                let order = choose|order: Seq<usize>| #[trigger]
                    hits::reranked(hs, scores, hs.len() as int, order, r);
                search::law_ordered_hits_stay(hs, scores, order, r);
                assert(r =~= hs);
            }
        },
    }
}

/// A search without an embedding is a search by words alone.
proof fn lemma_search_by_words(
    state: Fts5Index,
    query: Seq<char>,
    k: usize,
    a: Answers,
    r: Seq<HitView>,
)
    requires
        a.similarity is None,
        searched(state, query, k, a, r),
    ensures
        plain_search(state, query, k, a, r),
{
    let first = choose|first: SearchStep| #[trigger]
        search::begun(query, k, false, first) && (match first {
            SearchStep::Match { query: q, limit } => exists|next: SearchStep|
                search::matched(
                    state,
                    (a.matches)(q@, limit as int),
                    (a.decayed)((a.matches)(q@, limit as int)),
                    false,
                    next,
                ) && #[trigger] goes_on(state, k, next, a, r),
            _ => ends(first, a, r),
        });
    match recall::match_query(query) {
        None => {},
        Some(q) => {
            let found = (a.matches)(q, k as int);
            let next = choose|next: SearchStep|
                search::matched(state, found, (a.decayed)(found), false, next) && #[trigger] goes_on(
                    state,
                    k,
                    next,
                    a,
                    r,
                );
            let hs = search::all_annotated(state, found, (a.decayed)(found));
            if found.len() == 0 {
                assert(r =~= hs);
            } else {
                assert(search::lifts(state, hs, next));
                match next {
                    SearchStep::Lift { found: same, retrieves, best } => {
                        assert(search::counts_retrieves(state, hs, retrieves@));
                    },
                    _ => {},
                }
            }
        },
    }
}

/// There is one order of the hits by given scores.
proof fn lemma_one_score_order(
    hs: Seq<HitView>,
    scores: Seq<Score>,
    r: Seq<HitView>,
    s: Seq<HitView>,
)
    requires
        scores.len() == hs.len(),
        search::in_score_order(hs, scores, r),
        search::in_score_order(hs, scores, s),
    ensures
        r == s,
{
    let n = hs.len() as int;
    let x = choose|x: Seq<usize>| #[trigger] hits::reranked(hs, scores, n, x, r);
    let y = choose|y: Seq<usize>| #[trigger] hits::reranked(hs, scores, n, y, s);
    assert forall|i: int| 0 <= i < n implies r[i] == s[i] by {
        assert(x[i] < n && y[i] < n);
        lemma_one_ranking(scores, x, y, i);
    }
    assert(r =~= s);
}

/// In two rankings of the same scores each place holds the same.
proof fn lemma_one_ranking(scores: Seq<Score>, x: Seq<usize>, y: Seq<usize>, i: int)
    requires
        0 <= i < x.len() == y.len() == scores.len(),
        recall::ranked(scores, x),
        recall::ranked(scores, y),
        forall|k: int| 0 <= k < x.len() ==> (#[trigger] x[k]) < scores.len(),
        forall|k: int| 0 <= k < y.len() ==> (#[trigger] y[k]) < scores.len(),
        forall|k: int| 0 <= k < scores.len() ==> x.contains(#[trigger] (k as usize)),
        forall|k: int| 0 <= k < scores.len() ==> y.contains(#[trigger] (k as usize)),
    ensures
        x[i] == y[i],
    decreases i,
{
    assert forall|k: int| 0 <= k < i implies x[k] == y[k] by {
        lemma_one_ranking(scores, x, y, k);
    }
    let u = x[i] as int;
    let v = y[i] as int;
    assert(x.contains(v as usize));
    assert(y.contains(u as usize));
    let p = choose|p: int| 0 <= p < x.len() && x[p] == y[i];
    let q = choose|q: int| 0 <= q < y.len() && y[q] == x[i];
    if p < i {
        assert(recall::comes_before(scores, y[p] as int, y[i] as int));
    }
    if q < i {
        assert(recall::comes_before(scores, x[q] as int, x[i] as int));
    }
    if p > i && q > i {
        assert(recall::comes_before(scores, x[i] as int, x[p] as int));
        assert(recall::comes_before(scores, y[i] as int, y[q] as int));
    }
}

} // verus!
