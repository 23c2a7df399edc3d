//! The hits of a search: what recorded usage says of them, and their order once
//! they have been scored again.
use vstd::prelude::*;
use vstd::string::*;
use crate::memory::chunk::{ChunkView, MemoryChunk};
use crate::memory::config::{Score, SCORE_ONE};
use crate::memory::keys;
use crate::memory::keys::chunk_key;
use crate::memory::recall;
use crate::memory::recall::rank_by_score;
use crate::memory::stats::{ChunkStats, StatMap};

verus! {

/// A chunk that a search found.
#[derive(Debug)]
pub struct ScoredChunk {
    pub chunk: MemoryChunk,
    /// How well it matches; higher is better.
    pub score: Score,
    /// Its usage weight as of now; 1 where none is recorded.
    pub weight: Score,
    /// When it was last accessed, where that is recorded.
    pub last_accessed_ms: Option<i64>,
}

/// A hit, as values.
pub struct HitView {
    pub chunk: ChunkView,
    pub score: Score,
    pub weight: Score,
    pub last_accessed_ms: Option<i64>,
}

impl View for ScoredChunk {
    type V = HitView;

    open spec fn view(&self) -> HitView {
        HitView {
            chunk: self.chunk@,
            score: self.score,
            weight: self.weight,
            last_accessed_ms: self.last_accessed_ms,
        }
    }
}

/// The hits, as values.
pub open spec fn hit_views(s: Seq<ScoredChunk>) -> Seq<HitView> {
    Seq::new(s.len(), |i: int| s[i]@)
}

/// A hit with what recorded usage says of it, which is nothing where decay is
/// off or the chunk has no record. `decayed` is the weight of the record as of
/// now; a pinned chunk weighs 1.
pub open spec fn annotated(h: HitView, m: StatMap, decay: bool, decayed: Score) -> HitView {
    let k = keys::chunk_key_spec(h.chunk);
    if decay && m.dom().contains(k) {
        HitView {
            weight: if m[k].pinned {
                SCORE_ONE
            } else {
                decayed
            },
            last_accessed_ms: Some(m[k].last_accessed_ms),
            ..h
        }
    } else {
        h
    }
}

/// The hits with what recorded usage says of them.
pub fn annotate(hits: &Vec<ScoredChunk>, index: &ChunkStats, decayed: &Vec<Score>) -> (r: Vec<
    ScoredChunk,
>)
    requires
        index.wf(),
        decayed@.len() == hits@.len(),
    ensures
        r@.len() == hits@.len(),
        forall|i: int|
            0 <= i < r@.len() ==> (#[trigger] r@[i])@ == annotated(
                hits@[i]@,
                index@,
                index.decay.enabled,
                decayed@[i],
            ),
{
    let mut out: Vec<ScoredChunk> = Vec::new();
    let mut i: usize = 0;
    while i < hits.len()
        invariant
            i <= hits@.len(),
            index.wf(),
            decayed@.len() == hits@.len(),
            out@.len() == i,
            forall|j: int|
                0 <= j < i ==> (#[trigger] out@[j])@ == annotated(
                    hits@[j]@,
                    index@,
                    index.decay.enabled,
                    decayed@[j],
                ),
        decreases hits@.len() - i,
    {
        let h: &ScoredChunk = &hits[i];
        let mut weight: Score = h.weight;
        let mut last: Option<i64> = h.last_accessed_ms;
        if index.decay.enabled {
            let key: String = chunk_key(&h.chunk);
            if let Some(row) = index.get(key.as_str()) {
                weight = if row.pinned {
                    SCORE_ONE
                } else {
                    decayed[i]
                };
                last = Some(row.last_accessed_ms);
            }
        }
        out.push(
            ScoredChunk { chunk: h.chunk.clone(), score: h.score, weight, last_accessed_ms: last },
        );
        i = i + 1;
    }
    out
}

/// Whether `r` is the first `k` of the hits in the order of new scores, highest
/// first and of equal ones the earlier hit first, with those scores. `order`
/// tells which hit each of them is.
pub open spec fn reranked(
    hits: Seq<HitView>,
    scores: Seq<Score>,
    k: int,
    order: Seq<usize>,
    r: Seq<HitView>,
) -> bool {
    &&& order.len() == hits.len()
    &&& forall|i: int| 0 <= i < hits.len() ==> order.contains(#[trigger] (i as usize))
    &&& recall::ranked(scores, order)
    &&& r.len() == if k < hits.len() {
        k
    } else {
        hits.len() as int
    }
    &&& forall|i: int|
        0 <= i < r.len() ==> (#[trigger] order[i]) < hits.len() && r[i] == (HitView {
            score: scores[order[i] as int],
            ..hits[order[i] as int]
        })
}

/// The first `k` hits in the order of new scores.
pub fn rerank(hits: &Vec<ScoredChunk>, scores: &Vec<Score>, k: usize) -> (r: Vec<ScoredChunk>)
    requires
        scores@.len() == hits@.len(),
    ensures
        exists|order: Seq<usize>| #[trigger]
            reranked(hit_views(hits@), scores@, k as int, order, hit_views(r@)),
{
    let order: Vec<usize> = rank_by_score(scores);
    let ghost hv = hit_views(hits@);
    let n: usize = if k < hits.len() {
        k
    } else {
        hits.len()
    };
    let mut out: Vec<ScoredChunk> = Vec::new();
    let mut i: usize = 0;
    while i < n
        invariant
            i <= n <= hits@.len(),
            hv == hit_views(hits@),
            scores@.len() == hits@.len(),
            order@.len() == hits@.len(),
            forall|a: int| 0 <= a < order@.len() ==> (#[trigger] order@[a]) < scores@.len(),
            out@.len() == i,
            forall|j: int|
                0 <= j < i ==> (#[trigger] out@[j])@ == (HitView {
                    score: scores@[order@[j] as int],
                    ..hv[order@[j] as int]
                }),
        decreases n - i,
    {
        let at: usize = order[i];
        let h: &ScoredChunk = &hits[at];
        proof {
            assert(order@[i as int] < scores@.len());
            assert(hv[at as int] == hits@[at as int]@);
        }
        out.push(
            ScoredChunk {
                chunk: h.chunk.clone(),
                score: scores[at],
                weight: h.weight,
                last_accessed_ms: h.last_accessed_ms,
            },
        );
        i = i + 1;
    }
    proof {
        let r = hit_views(out@);
        assert forall|j: int| 0 <= j < r.len() implies (#[trigger] order@[j]) < hv.len() && r[j] == (
        HitView { score: scores@[order@[j] as int], ..hv[order@[j] as int] }) by {
            assert(r[j] == out@[j]@);
        }
        assert(reranked(hv, scores@, k as int, order@, r));
    }
    out
}

/// Scoring again drops no hit that scores higher than one that is kept, and what
/// is known of a hit besides its score stays with it.
pub proof fn law_the_best_hits_are_kept(
    hits: Seq<HitView>,
    scores: Seq<Score>,
    k: int,
    order: Seq<usize>,
    r: Seq<HitView>,
    i: int,
    j: int,
)
    requires
        reranked(hits, scores, k, order, r),
        scores.len() == hits.len(),
        hits.len() <= usize::MAX,
        0 <= i < r.len(),
        r.len() <= j < order.len(),
    ensures
        r[i].score >= scores[order[j] as int],
        r[i].chunk == hits[order[i] as int].chunk,
        r[i].weight == hits[order[i] as int].weight,
        r[i].last_accessed_ms == hits[order[i] as int].last_accessed_ms,
{
    assert(recall::comes_before(scores, order[i] as int, order[j] as int));
}

} // verus!
