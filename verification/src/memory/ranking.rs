//! What comes first: how hits are ranked and lifted, and what scores and vectors rest
//! on, in terms of the hits, the days and the bytes.
use vstd::prelude::*;
use vstd::string::*;
use crate::date::Date;
use crate::memory::chunk::{ChunkView, MemoryChunk, MemorySource};
use crate::memory::config::Score;
use crate::memory::consolidate;
use crate::memory::consolidate::{ChunkStatsSalience, Salience};
use crate::memory::consolidation;
use crate::memory::embed;
use crate::memory::hits;
use crate::memory::hits::HitView;
use crate::memory::index;
use crate::memory::index::Fts5Index;
use crate::memory::keys;
use crate::memory::recall;
use crate::memory::search;
use crate::memory::search::SearchStep;
use crate::memory::snapshot;
use crate::memory::stats::EffectiveStat;
use crate::text;

verus! {

// ---------------------------------------------------------------------------
// Hits
// ---------------------------------------------------------------------------

/// Similarities rank the hits that have one, and the hits stay as they are: a hit
/// without a similarity has no rank, a hit that none surpasses has the first, and of two
/// hits the more similar one has the better.
pub proof fn law_just_similar_hits_have_a_rank(
    found: Seq<HitView>,
    similarity: Seq<Score>,
    r: SearchStep,
    i: int,
    j: int,
)
    requires
        search::compared(found, similarity, r),
        similarity.len() == found.len(),
        0 <= i < found.len(),
        0 <= j < found.len(),
    ensures
        r is Fuse,
        hits::hit_views(r->Fuse_found@) == found,
        r->ranks@.len() == found.len(),
        r->ranks@[i] is Some <==> similarity[i] > 0,
        similarity[i] > 0 && (forall|x: int|
            0 <= x < found.len() && x != i ==> (#[trigger] similarity[x]) < similarity[i])
            ==> r->ranks@[i] == Some(0usize),
        similarity[i] > similarity[j] && similarity[j] > 0 ==> r->ranks@[i]->0 < r->ranks@[j]->0,
        similarity[i] == similarity[j] && similarity[j] > 0 && i < j ==> r->ranks@[i]->0
            < r->ranks@[j]->0,
{
    let ranks = r->ranks@;
    assert(match ranks[i] {
        Some(k) => similarity[i] > 0 && k == recall::positive_before(
            similarity,
            i,
            similarity.len() as int,
        ),
        None => similarity[i] == 0,
    });
    assert(match ranks[j] {
        Some(k) => similarity[j] > 0 && k == recall::positive_before(
            similarity,
            j,
            similarity.len() as int,
        ),
        None => similarity[j] == 0,
    });
    if similarity[j] > 0 && (similarity[i] > similarity[j] || (similarity[i] == similarity[j] && i
        < j)) {
        crate::memory::finding::law_the_more_similar_has_the_better_rank(similarity, i, j);
    }
    if similarity[i] > 0 && (forall|x: int|
        0 <= x < found.len() && x != i ==> (#[trigger] similarity[x]) < similarity[i]) {
        lemma_none_before(similarity, i, similarity.len() as int);
    }
}

proof fn lemma_none_before(similarity: Seq<Score>, i: int, n: int)
    requires
        0 <= n <= similarity.len(),
        0 <= i < similarity.len(),
        forall|x: int|
            0 <= x < similarity.len() && x != i ==> (#[trigger] similarity[x]) < similarity[i],
    ensures
        recall::positive_before(similarity, i, n) == 0,
    decreases n,
{
    if n > 0 {
        lemma_none_before(similarity, i, n - 1);
        if n - 1 != i {
            assert(similarity[n - 1] < similarity[i]);
        }
    }
}

/// Each hit that comes out of a ranking is one that went in, with its new score; those
/// that went in once come out once at most, and what does not come out scores no better
/// than what does.
pub proof fn law_a_ranking_keeps_the_hits(
    found: Seq<HitView>,
    scores: Seq<Score>,
    k: int,
    order: Seq<usize>,
    r: Seq<HitView>,
)
    requires
        hits::reranked(found, scores, k, order, r),
        scores.len() == found.len() <= usize::MAX,
        0 <= k,
    ensures
        r.len() == if k < found.len() {
            k
        } else {
            found.len() as int
        },
        exists|at: Seq<int>| #[trigger] comes_from(found, scores, at, r),
        forall|i: int|
            0 <= i < r.len() - 1 ==> (#[trigger] r[i]).score >= r[i + 1].score,
{
    let at = Seq::new(r.len(), |i: int| order[i] as int);
    assert forall|i: int| 0 <= i < found.len() implies {
        ||| at.contains(i)
        ||| forall|j: int| 0 <= j < r.len() ==> (#[trigger] r[j]).score >= scores[i]
    } by {
        assert(order.contains(i as usize));
        let p = order.index_of(i as usize);
        assert(order[p] as int == i);
        if p < r.len() {
            assert(at[p] == i);
        } else {
            assert forall|j: int| 0 <= j < r.len() implies (#[trigger] r[j]).score >= scores[i] by {
                assert(stands_before(scores, order, j, p));
            }
        }
    }
    assert forall|i: int, j: int| 0 <= i < j < at.len() implies #[trigger] at[i]
        != #[trigger] at[j] by {
        assert(recall::comes_before(scores, order[i] as int, order[j] as int));
    }
    assert forall|i: int| 0 <= i < r.len() - 1 implies (#[trigger] r[i]).score >= r[i
        + 1].score by {
        assert(recall::comes_before(scores, order[i] as int, order[i + 1] as int));
    }
    assert forall|i: int| 0 <= i < r.len() implies 0 <= #[trigger] at[i] < found.len() && r[i] == (
    HitView { score: scores[at[i]], ..found[at[i]] }) by {
        assert(order[i] < found.len());
    }
    assert(comes_from(found, scores, at, r));
}

spec fn stands_before(scores: Seq<Score>, order: Seq<usize>, a: int, b: int) -> bool {
    recall::comes_before(scores, order[a] as int, order[b] as int)
}

/// Whether hits are those at the places, with their new scores, and no other hit scores
/// better.
pub open spec fn comes_from(
    found: Seq<HitView>,
    scores: Seq<Score>,
    at: Seq<int>,
    r: Seq<HitView>,
) -> bool {
    &&& at.len() == r.len()
    &&& forall|i: int|
        0 <= i < r.len() ==> 0 <= #[trigger] at[i] < found.len() && r[i] == (HitView {
            score: scores[at[i]],
            ..found[at[i]]
        })
    &&& forall|i: int, j: int| 0 <= i < j < at.len() ==> #[trigger] at[i] != #[trigger] at[j]
    &&& forall|i: int|
        0 <= i < found.len() ==> {
            ||| #[trigger] at.contains(i)
            ||| forall|j: int| 0 <= j < r.len() ==> (#[trigger] r[j]).score >= scores[i]
        }
}

/// A lift counts for each hit the retrieves of the contents that its chunk overlaps
/// with, by the key of the chunk.
pub proof fn law_a_lift_counts_the_retrieves_of_each_hit(
    state: Fts5Index,
    hs: Seq<HitView>,
    r: SearchStep,
    i: int,
)
    requires
        search::lifts(state, hs, r),
        r is Lift,
        0 <= i < hs.len(),
    ensures
        hits::hit_views(r->Lift_found@) == hs,
        r->retrieves@.len() == hs.len(),
        ({
            let counted = index::hits(
                index::mapping_views(state.mappings@),
                state.retrieves@,
                keys::chunk_key_spec(hs[i].chunk),
                state.mappings@.len() as int,
            );
            &&& r->retrieves@[i] is Some <==> counted is Some
            &&& counted is Some ==> r->retrieves@[i]->0 as nat == counted->0
        }),
        r->best > 0,
{
    assert(match r->retrieves@[i] {
        Some(n) => search::retrieves_of(state, hs[i]) == Some(n as nat),
        None => search::retrieves_of(state, hs[i]) is None,
    });
}

// ---------------------------------------------------------------------------
// Scores
// ---------------------------------------------------------------------------

/// A fact is scored by the number of days on which the logs record it.
pub proof fn law_a_fact_is_scored_by_its_days<S: Salience<MemoryChunk>>(
    s: &S,
    cs: Seq<ChunkView>,
    daily: Seq<ChunkView>,
    scores: Seq<Score>,
    i: int,
    days: Seq<Date>,
)
    requires
        consolidate::all_scored_by(s, cs, daily, scores),
        0 <= i < cs.len(),
        consolidation::lists_days(daily, cs[i], days),
    ensures
        scores.len() == cs.len(),
        exists|m: MemoryChunk|
            m@ == cs[i] && #[trigger] call_ensures(S::score, (s, &m, days.len() as u32), scores[i]),
{
    consolidation::law_a_fact_counts_once_a_day(daily, cs[i]);
    let k = keys::content_key_spec(cs[i].heading, cs[i].text);
    let other = choose|other: Seq<Date>| #[trigger]
        consolidation::lists_days(daily, cs[i], other) && consolidate::occurrences(daily, k)
            == other.len();
    assert(days.to_set() =~= other.to_set()) by {
        assert forall|d: Date| #[trigger] days.to_set().contains(d) <==> other.to_set().contains(
            d,
        ) by {
            assert(days.contains(d) <==> other.contains(d));
        }
    }
    days.unique_seq_to_set();
    other.unique_seq_to_set();
    assert(consolidate::scored_by(
        s,
        cs[i],
        consolidate::occurrences(daily, consolidate::ckey(cs[i])),
        scores[i],
    ));
}

/// Recorded usage scores a curated chunk by its weight, or by one where it has none; a
/// daily fact whose promotion is suppressed by zero, and any other as the salience of
/// daily facts does.
pub proof fn law_usage_scores_curated_chunks_by_weight<D: Salience<MemoryChunk>>(
    s: &ChunkStatsSalience<D>,
    item: &MemoryChunk,
    seen: u32,
    r: Score,
)
    requires
        call_ensures(<ChunkStatsSalience<D> as Salience<MemoryChunk>>::score, (s, item, seen), r),
    ensures
        ({
            let k = keys::chunk_key_spec(item@);
            let w = s.weights@;
            let suppressed = text::views(s.suppressed@).contains(keys::content_part(k));
            &&& item.source is Curated && (forall|i: int|
                0 <= i < w.len() ==> (#[trigger] w[i]).0@ != k) ==> r == 0x3f80_0000
            &&& item.source is Curated ==> forall|i: int|
                0 <= i < w.len() && (#[trigger] w[i]).0@ == k && (forall|j: int|
                    i < j < w.len() ==> (#[trigger] w[j]).0@ != k) ==> r == w[i].1
            &&& item.source is Daily && suppressed ==> r == 0
            &&& item.source is Daily && !suppressed ==> call_ensures(
                D::score,
                (&s.daily, item, seen),
                r,
            )
        }),
{
    let k = keys::chunk_key_spec(item@);
    let w = s.weights@;
    if item.source is Curated {
        lemma_last_weight(w, w.len() as int, k);
    }
}

proof fn lemma_last_weight(w: Seq<(String, Score)>, n: int, k: Seq<char>)
    requires
        0 <= n <= w.len(),
    ensures
        (forall|i: int| 0 <= i < n ==> (#[trigger] w[i]).0@ != k) ==> consolidate::weight_of(
            w,
            n,
            k,
        ) is None,
        forall|i: int|
            0 <= i < n && (#[trigger] w[i]).0@ == k && (forall|j: int|
                i < j < n ==> (#[trigger] w[j]).0@ != k) ==> consolidate::weight_of(w, n, k)
                == Some(w[i].1),
    decreases n,
{
    if n > 0 {
        lemma_last_weight(w, n - 1, k);
    }
}

/// The weights of a snapshot are those of the chunks that usage tells of, key by key.
pub proof fn law_a_snapshot_weighs_by_key(s: Seq<(Seq<char>, EffectiveStat)>, i: int)
    requires
        0 <= i < s.len(),
    ensures
        snapshot::weights_of(s).len() == s.len(),
        snapshot::weights_of(s)[i].0 == s[i].0,
        snapshot::weights_of(s)[i].1 == s[i].1.weight,
{
}

// ---------------------------------------------------------------------------
// Vectors
// ---------------------------------------------------------------------------

/// Vectors are asked for behind the address of the server, whatever the slashes at its
/// end.
pub proof fn law_slashes_behind_an_address_do_not_matter(base: Seq<char>)
    ensures
        base.len() > 0 && base.last() != '/' ==> embed::endpoint(base) == base + "/embeddings"@,
        embed::endpoint(base.push('/')) == embed::endpoint(base),
{
    assert(base.push('/').drop_last() =~= base);
}

/// A vector is of no use just where each component is zero, of either sign.
pub proof fn law_a_vector_of_zeros_is_of_no_use(v: Seq<u32>)
    ensures
        !embed::usable(v) <==> forall|i: int|
            0 <= i < v.len() ==> #[trigger] v[i] == 0 || v[i] == 0x8000_0000,
{
    if !embed::usable(v) {
        assert forall|i: int| 0 <= i < v.len() implies #[trigger] v[i] == 0 || v[i]
            == 0x8000_0000 by {
            assert(embed::is_zero(v[i]));
        }
    }
    if forall|i: int| 0 <= i < v.len() ==> #[trigger] v[i] == 0 || v[i] == 0x8000_0000 {
        assert forall|i: int| 0 <= i < v.len() implies embed::is_zero(#[trigger] v[i]) by {}
    }
}

/// Each component is stored in four bytes, the lowest first.
pub proof fn law_components_are_stored_lowest_byte_first(v: Seq<u32>, i: int)
    requires
        0 <= i < v.len(),
    ensures
        embed::blob(v).len() == 4 * v.len(),
        embed::blob(v)[4 * i] == v[i] % 256,
        embed::blob(v)[4 * i + 1] == v[i] / 256 % 256,
        embed::blob(v)[4 * i + 2] == v[i] / 65536 % 256,
        embed::blob(v)[4 * i + 3] == v[i] / 16777216,
    decreases v.len(),
{
    let front = v.drop_last();
    lemma_blob_len(v);
    lemma_blob_len(front);
    let b = embed::blob(v);
    if i < v.len() - 1 {
        law_components_are_stored_lowest_byte_first(front, i);
        let f = embed::blob(front);
        assert(b[4 * i] == f[4 * i]);
        assert(b[4 * i + 1] == f[4 * i + 1]);
        assert(b[4 * i + 2] == f[4 * i + 2]);
        assert(b[4 * i + 3] == f[4 * i + 3]);
        assert(front[i] == v[i]);
    } else {
        let x = v.last();
        let l = embed::le_bytes(x);
        assert(x / 16777216 < 256);
        assert(b[4 * i] == l[0]);
        assert(b[4 * i + 1] == l[1]);
        assert(b[4 * i + 2] == l[2]);
        assert(b[4 * i + 3] == l[3]);
    }
}

proof fn lemma_blob_len(v: Seq<u32>)
    ensures
        embed::blob(v).len() == 4 * v.len(),
    decreases v.len(),
{
    if v.len() > 0 {
        lemma_blob_len(v.drop_last());
    }
}

} // verus!
