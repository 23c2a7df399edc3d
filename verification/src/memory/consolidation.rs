//! What a consolidation pass does to the chunks that it is given: which facts stay,
//! which are promoted, which go, and what the report says of it.
use vstd::prelude::*;
use vstd::string::*;
use crate::date::Date;
use crate::memory::chunk;
use crate::memory::chunk::{ChunkView, MemorySource};
use crate::memory::coalesce;
use crate::memory::config::Score;
use crate::memory::consolidate;
use crate::memory::consolidate::ConsolidationPlan;
use crate::memory::keys;
use crate::memory::render;
use crate::memory::strata;
use crate::ordered;
use crate::seqs;
use crate::text;

verus! {

/// Whether two chunks record the same fact: one content key.
pub open spec fn same_fact(a: ChunkView, b: ChunkView) -> bool {
    keys::content_key_spec(a.heading, a.text) == keys::content_key_spec(b.heading, b.text)
}

/// Whether a list has a chunk of the fact.
pub open spec fn knows_fact(cs: Seq<ChunkView>, c: ChunkView) -> bool {
    exists|i: int| 0 <= i < cs.len() && same_fact(#[trigger] cs[i], c)
}

/// Whether the chunk at a place is the first of its fact.
pub open spec fn first_of_fact(cs: Seq<ChunkView>, i: int) -> bool {
    forall|j: int| 0 <= j < i ==> !same_fact(#[trigger] cs[j], cs[i])
}

// ---------------------------------------------------------------------------
// Sorting and merging
// ---------------------------------------------------------------------------

/// Every chunk takes part in a pass by its source: the daily chunks are those of the
/// daily logs, all of them and in order.
pub proof fn law_every_daily_chunk_takes_part(cs: Seq<ChunkView>)
    ensures
        consolidate::daily_of(cs) == consolidate::whole(cs).filter(
            |c: ChunkView| c.source is Daily,
        ),
{
    let w = consolidate::whole(cs);
    lemma_sorted(w, w.len() as int);
    assert(w.take(w.len() as int) =~= w);
}

/// Of the curated chunks just the first of each fact is kept, in order, whatever
/// heading it stands under; the others are counted as merged.
pub proof fn law_the_first_of_each_fact_is_kept(
    cs: Seq<ChunkView>,
    index: Seq<ChunkView>,
    daily_scores: Seq<Score>,
    curated_scores: Seq<Score>,
    evict: bool,
    budget: int,
)
    ensures
        ({
            let p = consolidate::pass(cs, index, daily_scores, curated_scores, evict, budget);
            let cur = consolidate::whole(cs).filter(|c: ChunkView| c.source is Curated);
            &&& p.kept == consolidate::kept_of(cs)
            &&& exists|at: Seq<int>| #[trigger] picks_the_first(cur, p.kept, at)
            &&& p.merged == cur.len() - p.kept.len()
        }),
{
    let w = consolidate::whole(cs);
    lemma_sorted(w, w.len() as int);
    assert(w.take(w.len() as int) =~= w);
    let cur = consolidate::curated_only(w, w.len() as int);
    lemma_picks_the_first(cur, cur.len() as int);
    assert(cur.take(cur.len() as int) =~= cur);
}

/// Whether `kept` holds the chunks at those places, in order, and these are the
/// places of the first chunk of each fact.
pub open spec fn picks_the_first(
    cs: Seq<ChunkView>,
    kept: Seq<ChunkView>,
    at: Seq<int>,
) -> bool {
    &&& at.len() == kept.len()
    &&& forall|a: int| 0 <= a < at.len() ==> 0 <= (#[trigger] at[a]) < cs.len() && kept[a] == cs[at[a]]
    &&& forall|a: int, b: int| 0 <= a < b < at.len() ==> #[trigger] at[a] < #[trigger] at[b]
    &&& forall|i: int|
        0 <= i < cs.len() ==> (#[trigger] first_of_fact(cs, i) <==> at.contains(i))
}

proof fn lemma_sorted(w: Seq<ChunkView>, n: int)
    requires
        0 <= n <= w.len(),
    ensures
        consolidate::daily_only(w, n) == w.take(n).filter(|c: ChunkView| c.source is Daily),
        consolidate::curated_only(w, n) == w.take(n).filter(|c: ChunkView| c.source is Curated),
    decreases n,
{
    let d = |c: ChunkView| c.source is Daily;
    let u = |c: ChunkView| c.source is Curated;
    if n > 0 {
        lemma_sorted(w, n - 1);
        seqs::lemma_filter_take(w, d, n - 1);
        seqs::lemma_filter_take(w, u, n - 1);
    } else {
        reveal(Seq::filter);
        assert(w.take(0).filter(d) =~= Seq::empty());
        assert(w.take(0).filter(u) =~= Seq::empty());
    }
}

proof fn lemma_picks_the_first(cs: Seq<ChunkView>, n: int)
    requires
        0 <= n <= cs.len(),
    ensures
        exists|at: Seq<int>| #[trigger]
            picks_the_first(cs.take(n), consolidate::distinct(cs, n), at),
    decreases n,
{
    let now = cs.take(n);
    let out = consolidate::distinct(cs, n);
    if n == 0 {
        let at = Seq::<int>::empty();
        assert(picks_the_first(now, out, at));
    } else {
        lemma_picks_the_first(cs, n - 1);
        let before = cs.take(n - 1);
        let prev = consolidate::distinct(cs, n - 1);
        let at = choose|at: Seq<int>| #[trigger] picks_the_first(before, prev, at);
        let c = cs[n - 1];
        assert forall|i: int| 0 <= i < n - 1 implies (#[trigger] first_of_fact(now, i)
            <==> first_of_fact(before, i)) by {
            assert(now[i] == before[i]);
            assert(forall|j: int| 0 <= j < i ==> now[j] == before[j]);
        }
        let known = consolidate::has_key(prev, consolidate::ckey(c));
        assert(known <==> !first_of_fact(now, n - 1)) by {
            if known {
                let a = choose|a: int|
                    0 <= a < prev.len() && consolidate::ckey(#[trigger] prev[a])
                        == consolidate::ckey(c);
                assert(prev[a] == before[at[a]]);
                assert(same_fact(now[at[a]], now[n - 1]));
            }
            if !first_of_fact(now, n - 1) {
                let j = choose|j: int| 0 <= j < n - 1 && same_fact(#[trigger] now[j], now[n - 1]);
                consolidate::law_merge_keeps_one_of_each(cs, n - 1);
                assert(consolidate::has_key(prev, consolidate::ckey(cs[j])));
            }
        }
        if known {
            assert(out == prev);
            assert forall|i: int| 0 <= i < now.len() implies (#[trigger] first_of_fact(now, i)
                <==> at.contains(i)) by {
                if i == n - 1 && at.contains(i) {
                    let a = choose|a: int| 0 <= a < at.len() && at[a] == i;
                    assert(at[a] < n - 1);
                } else if i < n - 1 {
                    assert(first_of_fact(before, i) <==> at.contains(i));
                }
            }
            assert(forall|a: int| 0 <= a < at.len() ==> now[#[trigger] at[a]] == before[at[a]]);
            assert(picks_the_first(now, out, at));
        } else {
            let next = at.push(n - 1);
            assert(out == prev.push(c));
            assert forall|i: int| 0 <= i < now.len() implies (#[trigger] first_of_fact(now, i)
                <==> next.contains(i)) by {
                if i == n - 1 {
                    assert(next[at.len() as int] == i);
                } else {
                    assert(first_of_fact(before, i) <==> at.contains(i));
                    if at.contains(i) {
                        let a = choose|a: int| 0 <= a < at.len() && at[a] == i;
                        assert(next[a] == i);
                    }
                    if next.contains(i) {
                        let a = choose|a: int| 0 <= a < next.len() && next[a] == i;
                        assert(at[a] == i);
                    }
                }
            }
            assert forall|a: int| 0 <= a < next.len() implies 0 <= (#[trigger] next[a]) < now.len()
                && out[a] == now[next[a]] by {
                if a < at.len() {
                    assert(next[a] == at[a]);
                    assert(now[at[a]] == before[at[a]]);
                }
            }
            assert(picks_the_first(now, out, next));
        }
    }
}

/// Where no chunk overlaps the one before it, as in files of small sections, a pass
/// works on the chunks as they are.
pub proof fn law_chunks_that_do_not_overlap_stay(cs: Seq<ChunkView>)
    requires
        forall|i: int, j: int|
            0 <= i && j == i + 1 && j < cs.len() ==> (#[trigger] cs[i]).line_end < (
            #[trigger] cs[j]).line_start,
    ensures
        consolidate::whole(cs) == cs,
{
    lemma_apart(cs, cs.len() as int);
    assert(cs.take(cs.len() as int) =~= cs);
}

proof fn lemma_apart(cs: Seq<ChunkView>, n: int)
    requires
        0 <= n <= cs.len(),
        forall|i: int, j: int|
            0 <= i && j == i + 1 && j < cs.len() ==> (#[trigger] cs[i]).line_end < (
            #[trigger] cs[j]).line_start,
    ensures
        coalesce::coalesced(cs, n) == cs.take(n),
    decreases n,
{
    if n > 0 {
        lemma_apart(cs, n - 1);
        if n > 1 {
            assert(cs[n - 2].line_end < cs[n - 1].line_start);
            assert(cs.take(n - 1).last() == cs[n - 2]);
        }
        assert(cs.take(n) =~= cs.take(n - 1).push(cs[n - 1]));
    } else {
        assert(cs.take(0) =~= Seq::empty());
    }
}

// ---------------------------------------------------------------------------
// Promotion
// ---------------------------------------------------------------------------

/// A daily fact whose score reaches one half and that is not curated is promoted,
/// whatever it stands under: its key is among those that are promoted, and the
/// curated chunks have it from there on, but for what is evicted.
pub proof fn law_a_salient_daily_fact_is_promoted(
    cs: Seq<ChunkView>,
    index: Seq<ChunkView>,
    daily_scores: Seq<Score>,
    curated_scores: Seq<Score>,
    evict: bool,
    budget: int,
    i: int,
)
    requires
        daily_scores.len() == consolidate::daily_of(cs).len(),
        0 <= i < consolidate::daily_of(cs).len(),
        daily_scores[i] >= 0x3f00_0000,
        !knows_fact(consolidate::kept_of(cs), consolidate::daily_of(cs)[i]),
    ensures
        ({
            let p = consolidate::pass(cs, index, daily_scores, curated_scores, evict, budget);
            let c = consolidate::daily_of(cs)[i];
            &&& consolidate::promoted_keys(
                consolidate::daily_of(cs),
                daily_scores,
                p.kept,
                consolidate::daily_of(cs).len() as int,
            ).contains(keys::content_key_spec(c.heading, c.text))
            &&& exists|m: int|
                0 <= m < p.added.len() && same_fact(#[trigger] p.added[m], c)
                    && p.added[m].source is Curated
            &&& !evict ==> knows_fact(p.curated, c)
        }),
{
    let daily = consolidate::daily_of(cs);
    let kept = consolidate::kept_of(cs);
    let n = daily.len() as int;
    let c = daily[i];
    let k = keys::content_key_spec(c.heading, c.text);
    lemma_best(daily, daily_scores, kept, n, k);
    consolidate::lemma_promoted_keys(daily, daily_scores, kept, n, k);
    let ks = consolidate::promoted_keys(daily, daily_scores, kept, n);
    let m = choose|m: int| 0 <= m < ks.len() && ks[m] == k;
    consolidate::lemma_promoted_prefix(daily, daily_scores, kept, ks, m, ks.len() as int);
    let p = consolidate::pass(cs, index, daily_scores, curated_scores, evict, budget);
    assert(same_fact(p.added[m], c));
    if !evict {
        assert(p.curated[p.kept.len() + m] == p.added[m]);
    }
}

/// What is promoted is a daily fact as it stands, now curated: its score reaches one
/// half, it is not curated already, and of the daily chunks of the fact it is the
/// first of those that score highest. No fact is promoted twice, and the promotions
/// come in the order of their keys.
pub proof fn law_a_promotion_is_the_best_chunk_of_its_fact(
    cs: Seq<ChunkView>,
    index: Seq<ChunkView>,
    daily_scores: Seq<Score>,
    curated_scores: Seq<Score>,
    evict: bool,
    budget: int,
    m: int,
)
    requires
        daily_scores.len() == consolidate::daily_of(cs).len(),
        0 <= m < consolidate::pass(cs, index, daily_scores, curated_scores, evict, budget).added.len(),
    ensures
        ({
            let p = consolidate::pass(cs, index, daily_scores, curated_scores, evict, budget);
            let daily = consolidate::daily_of(cs);
            &&& exists|b: int|
                0 <= b < daily.len() && #[trigger] p.added[m] == (ChunkView {
                    source: MemorySource::Curated,
                    ..daily[b]
                }) && daily_scores[b] >= 0x3f00_0000 && !knows_fact(p.kept, daily[b]) && (forall|
                    j: int,
                |
                    0 <= j < daily.len() && same_fact(#[trigger] daily[j], daily[b])
                        ==> daily_scores[j] <= daily_scores[b] && (j < b ==> daily_scores[j]
                        < daily_scores[b]))
            &&& forall|l: int|
                0 <= l < m ==> !same_fact(#[trigger] p.added[l], p.added[m]) && text::text_le(
                    keys::content_key_spec(p.added[l].heading, p.added[l].text),
                    keys::content_key_spec(p.added[m].heading, p.added[m].text),
                )
        }),
{
    let daily = consolidate::daily_of(cs);
    let kept = consolidate::kept_of(cs);
    let n = daily.len() as int;
    let ks = consolidate::promoted_keys(daily, daily_scores, kept, n);
    let p = consolidate::pass(cs, index, daily_scores, curated_scores, evict, budget);
    consolidate::lemma_promoted_len(daily, daily_scores, kept, ks, ks.len() as int);
    assert(ks.contains(ks[m]));
    lemma_best(daily, daily_scores, kept, n, ks[m]);
    consolidate::lemma_promoted_keys(daily, daily_scores, kept, n, ks[m]);
    consolidate::lemma_promoted_prefix(daily, daily_scores, kept, ks, m, ks.len() as int);
    let b = consolidate::best(daily, daily_scores, kept, n, ks[m])->0;
    assert(p.added[m] == ChunkView { source: MemorySource::Curated, ..daily[b] });
    lemma_promoted_ascend(daily, daily_scores, kept, n);
    assert forall|l: int| 0 <= l < m implies !same_fact(#[trigger] p.added[l], p.added[m])
        && text::text_le(
        keys::content_key_spec(p.added[l].heading, p.added[l].text),
        keys::content_key_spec(p.added[m].heading, p.added[m].text),
    ) by {
        assert(ks.contains(ks[l]));
        lemma_best(daily, daily_scores, kept, n, ks[l]);
        consolidate::lemma_promoted_keys(daily, daily_scores, kept, n, ks[l]);
        consolidate::lemma_promoted_prefix(daily, daily_scores, kept, ks, l, ks.len() as int);
    }
}

proof fn lemma_promoted_ascend(
    daily: Seq<ChunkView>,
    scores: Seq<Score>,
    kept: Seq<ChunkView>,
    n: int,
)
    requires
        0 <= n <= daily.len(),
    ensures
        ordered::ascending(consolidate::promoted_keys(daily, scores, kept, n)),
    decreases n,
{
    if n > 0 {
        lemma_promoted_ascend(daily, scores, kept, n - 1);
        ordered::lemma_insert_ascending(
            consolidate::promoted_keys(daily, scores, kept, n - 1),
            consolidate::ckey(daily[n - 1]),
        );
    }
}

proof fn lemma_best(
    daily: Seq<ChunkView>,
    scores: Seq<Score>,
    kept: Seq<ChunkView>,
    n: int,
    k: Seq<char>,
)
    requires
        0 <= n <= daily.len(),
        scores.len() == daily.len(),
    ensures
        match consolidate::best(daily, scores, kept, n, k) {
            Some(b) => {
                &&& 0 <= b < n
                &&& keys::content_key_spec(daily[b].heading, daily[b].text) == k
                &&& scores[b] >= 0x3f00_0000
                &&& !knows_fact(kept, daily[b])
                &&& forall|j: int|
                    0 <= j < n && same_fact(#[trigger] daily[j], daily[b]) ==> scores[j]
                        <= scores[b] && (j < b ==> scores[j] < scores[b])
            },
            None => forall|j: int|
                0 <= j < n && keys::content_key_spec(
                    (#[trigger] daily[j]).heading,
                    daily[j].text,
                ) == k ==> scores[j] < 0x3f00_0000 || knows_fact(kept, daily[j]),
        },
    decreases n,
{
    if n > 0 {
        lemma_best(daily, scores, kept, n - 1, k);
        lemma_known(kept, daily[n - 1]);
        let prev = consolidate::best(daily, scores, kept, n - 1, k);
        if prev is Some {
            lemma_known(kept, daily[prev->0]);
        }
        assert forall|j: int|
            0 <= j < n && consolidate::ckey(#[trigger] daily[j]) == consolidate::ckey(
                daily[n - 1],
            ) implies knows_fact(kept, daily[j]) == knows_fact(kept, daily[n - 1]) by {
            lemma_known(kept, daily[j]);
        }
    }
}

proof fn lemma_known(cs: Seq<ChunkView>, c: ChunkView)
    ensures
        knows_fact(cs, c) <==> consolidate::has_key(
            cs,
            keys::content_key_spec(c.heading, c.text),
        ),
{
    if knows_fact(cs, c) {
        let i = choose|i: int| 0 <= i < cs.len() && same_fact(#[trigger] cs[i], c);
        assert(consolidate::ckey(cs[i]) == keys::content_key_spec(c.heading, c.text));
    }
    if consolidate::has_key(cs, keys::content_key_spec(c.heading, c.text)) {
        let i = choose|i: int|
            0 <= i < cs.len() && consolidate::ckey(#[trigger] cs[i]) == keys::content_key_spec(
                c.heading,
                c.text,
            );
        assert(same_fact(cs[i], c));
    }
}

/// A fact counts once for each day whose log records it, under whatever source of
/// that day, and for no other day.
pub proof fn law_a_fact_counts_once_a_day(daily: Seq<ChunkView>, c: ChunkView)
    ensures
        exists|days: Seq<Date>| #[trigger]
            lists_days(daily, c, days) && consolidate::occurrences(
                daily,
                keys::content_key_spec(c.heading, c.text),
            ) == days.len(),
{
    let k = keys::content_key_spec(c.heading, c.text);
    lemma_days(daily, daily.len() as int, c);
    let days = consolidate::days_of(daily, daily.len() as int, k);
    assert(daily.take(daily.len() as int) =~= daily);
    assert(lists_days(daily, c, days));
}

/// Whether the days are those, each once, on which a fact is recorded.
pub open spec fn lists_days(daily: Seq<ChunkView>, c: ChunkView, days: Seq<Date>) -> bool {
    &&& days.no_duplicates()
    &&& forall|d: Date| #[trigger] days.contains(d) <==> recorded_on(daily, c, d)
}

/// Whether a daily log of that day records a fact.
pub open spec fn recorded_on(daily: Seq<ChunkView>, c: ChunkView, d: Date) -> bool {
    exists|i: int|
        0 <= i < daily.len() && same_fact(#[trigger] daily[i], c) && daily[i].source
            == (MemorySource::Daily { date: d })
}

proof fn lemma_days(daily: Seq<ChunkView>, n: int, c: ChunkView)
    requires
        0 <= n <= daily.len(),
    ensures
        lists_days(
            daily.take(n),
            c,
            consolidate::days_of(daily, n, keys::content_key_spec(c.heading, c.text)),
        ),
    decreases n,
{
    let k = keys::content_key_spec(c.heading, c.text);
    let out = consolidate::days_of(daily, n, k);
    if n > 0 {
        lemma_days(daily, n - 1, c);
        let prev = consolidate::days_of(daily, n - 1, k);
        let before = daily.take(n - 1);
        let now = daily.take(n);
        assert forall|d: Date| #[trigger] out.contains(d) <==> recorded_on(now, c, d) by {
            assert(prev.contains(d) <==> recorded_on(before, c, d));
            if recorded_on(before, c, d) {
                let i = choose|i: int|
                    0 <= i < before.len() && same_fact(#[trigger] before[i], c) && before[i].source
                        == (MemorySource::Daily { date: d });
                assert(now[i] == before[i]);
            }
            if prev.contains(d) {
                let a = choose|a: int| 0 <= a < prev.len() && prev[a] == d;
                assert(out[a] == d);
            }
            if recorded_on(now, c, d) {
                let i = choose|i: int|
                    0 <= i < now.len() && same_fact(#[trigger] now[i], c) && now[i].source == (
                    MemorySource::Daily { date: d });
                if i < n - 1 {
                    assert(before[i] == now[i]);
                } else if !prev.contains(d) {
                    assert(out == prev.push(d));
                    assert(out[prev.len() as int] == d);
                }
            }
            if out.contains(d) && !prev.contains(d) {
                let a = choose|a: int| 0 <= a < out.len() && out[a] == d;
                if a < prev.len() {
                    assert(prev[a] == d);
                } else {
                    assert(now[n - 1] == daily[n - 1]);
                    assert(same_fact(now[n - 1], c));
                }
            }
        }
    } else {
        assert forall|d: Date| #[trigger] out.contains(d) <==> recorded_on(daily.take(0), c, d) by {
        }
    }
}

/// A weight is that of the last entry with the key, and there is none without one.
pub proof fn law_the_last_weight_of_a_key_counts(w: Seq<(String, Score)>, key: Seq<char>, i: int)
    requires
        -1 <= i < w.len(),
        i >= 0 ==> w[i].0@ == key,
        forall|j: int| i < j < w.len() ==> (#[trigger] w[j]).0@ != key,
    ensures
        consolidate::weight_of(w, w.len() as int, key) == (if i >= 0 {
            Some(w[i].1)
        } else {
            None
        }),
{
    lemma_weight(w, w.len() as int, key, i);
}

proof fn lemma_weight(w: Seq<(String, Score)>, n: int, key: Seq<char>, i: int)
    requires
        -1 <= i < n <= w.len() || (n == 0 && i == -1),
        i >= 0 ==> w[i].0@ == key,
        forall|j: int| i < j < w.len() ==> (#[trigger] w[j]).0@ != key,
    ensures
        consolidate::weight_of(w, n, key) == (if i >= 0 {
            Some(w[i].1)
        } else {
            None
        }),
    decreases n,
{
    if n > 0 && i < n - 1 {
        lemma_weight(w, n - 1, key, i);
    }
}

// ---------------------------------------------------------------------------
// Superseding
// ---------------------------------------------------------------------------

/// A promotion supersedes another fact just where it stands under a heading that
/// names no stratum, and the curated chunks of the pass and of the index have one
/// other fact under that heading and no more.
pub proof fn law_a_promotion_supersedes_the_one_other_fact_of_its_heading(
    cs: Seq<ChunkView>,
    index: Seq<ChunkView>,
    daily_scores: Seq<Score>,
    curated_scores: Seq<Score>,
    evict: bool,
    budget: int,
    old_key: Seq<char>,
    new_key: Seq<char>,
)
    ensures
        ({
            let p = consolidate::pass(cs, index, daily_scores, curated_scores, evict, budget);
            p.edges.contains((old_key, new_key)) <==> exists|m: int|
                0 <= m < p.added.len() && keys::chunk_key_spec(#[trigger] p.added[m]) == new_key
                    && p.added[m].heading is Some && is_the_one_rival(
                    p.kept + index,
                    p.added[m].heading->0,
                    new_key,
                    old_key,
                )
        }),
{
    let p = consolidate::pass(cs, index, daily_scores, curated_scores, evict, budget);
    lemma_superseded(p.kept + index, p.added, p.added.len() as int, old_key, new_key);
}

/// Whether a key is that of another chunk under the heading.
pub open spec fn rivals_under(
    pool: Seq<ChunkView>,
    h: Seq<char>,
    new_key: Seq<char>,
    k: Seq<char>,
) -> bool {
    k != new_key && exists|i: int|
        0 <= i < pool.len() && (#[trigger] pool[i]).heading == Some(h) && keys::chunk_key_spec(
            pool[i],
        ) == k
}

/// Whether a key is that of the one other chunk under a heading that names no
/// stratum.
pub open spec fn is_the_one_rival(
    pool: Seq<ChunkView>,
    h: Seq<char>,
    new_key: Seq<char>,
    k: Seq<char>,
) -> bool {
    &&& strata::stratum_of(h) is None
    &&& rivals_under(pool, h, new_key, k)
    &&& forall|o: Seq<char>| #[trigger] rivals_under(pool, h, new_key, o) ==> o == k
}

proof fn lemma_rivals(pool: Seq<ChunkView>, n: int, h: Seq<char>, new_key: Seq<char>)
    requires
        0 <= n <= pool.len(),
        strata::stratum_of(h) is None,
    ensures
        consolidate::rivals(pool, n, h, new_key).no_duplicates(),
        forall|k: Seq<char>| #[trigger]
            consolidate::rivals(pool, n, h, new_key).contains(k) <==> rivals_under(
                pool.take(n),
                h,
                new_key,
                k,
            ),
    decreases n,
{
    let out = consolidate::rivals(pool, n, h, new_key);
    if n > 0 {
        lemma_rivals(pool, n - 1, h, new_key);
        let prev = consolidate::rivals(pool, n - 1, h, new_key);
        let before = pool.take(n - 1);
        let now = pool.take(n);
        assert forall|k: Seq<char>| #[trigger] out.contains(k) <==> rivals_under(
            now,
            h,
            new_key,
            k,
        ) by {
            assert(prev.contains(k) <==> rivals_under(before, h, new_key, k));
            if prev.contains(k) {
                let a = choose|a: int| 0 <= a < prev.len() && prev[a] == k;
                assert(out[a] == k);
            }
            if rivals_under(before, h, new_key, k) {
                let i = choose|i: int|
                    0 <= i < before.len() && (#[trigger] before[i]).heading == Some(h)
                        && keys::chunk_key_spec(before[i]) == k;
                assert(now[i] == before[i]);
            }
            if rivals_under(now, h, new_key, k) {
                let i = choose|i: int|
                    0 <= i < now.len() && (#[trigger] now[i]).heading == Some(h)
                        && keys::chunk_key_spec(now[i]) == k;
                if i < n - 1 {
                    assert(before[i] == now[i]);
                } else if !prev.contains(k) {
                    assert(out[prev.len() as int] == k);
                }
            }
            if out.contains(k) && !prev.contains(k) {
                let a = choose|a: int| 0 <= a < out.len() && out[a] == k;
                if a < prev.len() {
                    assert(prev[a] == k);
                } else {
                    assert(now[n - 1] == pool[n - 1]);
                    assert(now[n - 1].heading == Some(h));
                }
            }
        }
    } else {
        assert forall|k: Seq<char>| #[trigger] out.contains(k) <==> rivals_under(
            pool.take(0),
            h,
            new_key,
            k,
        ) by {}
    }
}

proof fn lemma_no_rivals(pool: Seq<ChunkView>, n: int, h: Seq<char>, new_key: Seq<char>)
    requires
        strata::stratum_of(h) is Some,
    ensures
        consolidate::rivals(pool, n, h, new_key).len() == 0,
    decreases n,
{
    if n > 0 {
        lemma_no_rivals(pool, n - 1, h, new_key);
    }
}

proof fn lemma_one_rival(pool: Seq<ChunkView>, h: Seq<char>, new_key: Seq<char>, k: Seq<char>)
    ensures
        ({
            let olds = consolidate::rivals(pool, pool.len() as int, h, new_key);
            is_the_one_rival(pool, h, new_key, k) <==> olds.len() == 1 && olds[0] == k
        }),
{
    let n = pool.len() as int;
    let olds = consolidate::rivals(pool, n, h, new_key);
    if strata::stratum_of(h) is Some {
        lemma_no_rivals(pool, n, h, new_key);
    } else {
        lemma_rivals(pool, n, h, new_key);
        assert(pool.take(n) =~= pool);
        if is_the_one_rival(pool, h, new_key, k) {
            assert(olds.contains(k));
            if olds.len() > 1 {
                assert(olds.contains(olds[0]) && olds.contains(olds[1]));
                assert(rivals_under(pool, h, new_key, olds[0]));
                assert(rivals_under(pool, h, new_key, olds[1]));
            }
        }
        if olds.len() == 1 && olds[0] == k {
            assert(olds.contains(k));
            assert forall|o: Seq<char>| #[trigger] rivals_under(pool, h, new_key, o) implies o
                == k by {
                assert(olds.contains(o));
            }
        }
    }
}

proof fn lemma_superseded(
    pool: Seq<ChunkView>,
    added: Seq<ChunkView>,
    n: int,
    old_key: Seq<char>,
    new_key: Seq<char>,
)
    requires
        0 <= n <= added.len(),
    ensures
        consolidate::superseded(pool, added, n).contains((old_key, new_key)) <==> exists|m: int|
            0 <= m < n && keys::chunk_key_spec(#[trigger] added[m]) == new_key
                && added[m].heading is Some && is_the_one_rival(
                pool,
                added[m].heading->0,
                new_key,
                old_key,
            ),
    decreases n,
{
    let e = (old_key, new_key);
    let out = consolidate::superseded(pool, added, n);
    if n > 0 {
        lemma_superseded(pool, added, n - 1, old_key, new_key);
        let prev = consolidate::superseded(pool, added, n - 1);
        let c = added[n - 1];
        let k = keys::chunk_key_spec(c);
        if prev.contains(e) {
            let a = choose|a: int| 0 <= a < prev.len() && prev[a] == e;
            assert(out[a] == e);
        }
        if c.heading is Some {
            let h = c.heading->0;
            lemma_one_rival(pool, h, k, old_key);
            let olds = consolidate::rivals(pool, pool.len() as int, h, k);
            if olds.len() == 1 {
                assert(out == prev.push((olds[0], k)));
                assert(out[prev.len() as int] == (olds[0], k));
            }
        }
        if out.contains(e) && !prev.contains(e) {
            let a = choose|a: int| 0 <= a < out.len() && out[a] == e;
            if a < prev.len() {
                assert(prev[a] == e);
            }
            assert(keys::chunk_key_spec(added[n - 1]) == new_key);
        }
    }
}

// ---------------------------------------------------------------------------
// Eviction
// ---------------------------------------------------------------------------

/// Nothing is evicted where eviction is off or all fits: the curated chunks are then
/// those that were kept and those that were promoted, in this order.
pub proof fn law_without_eviction_all_facts_stay(
    cs: Seq<ChunkView>,
    index: Seq<ChunkView>,
    daily_scores: Seq<Score>,
    curated_scores: Seq<Score>,
    evict: bool,
    budget: int,
)
    ensures
        ({
            let p = consolidate::pass(cs, index, daily_scores, curated_scores, evict, budget);
            !evict || text::utf8_len(render::rendered(p.kept + p.added)) <= budget || (p.kept
                + p.added).len() <= 1 ==> p.curated == p.kept + p.added && p.evicted.len() == 0
        }),
{
}

/// A file that is over its budget and has more than one chunk loses the first of its
/// least salient chunks, whose text goes to the log, and then what the rest loses.
pub proof fn law_the_least_salient_fact_goes_and_then_the_rest(
    cs: Seq<ChunkView>,
    scores: Seq<Score>,
    budget: int,
)
    requires
        scores.len() == cs.len() > 1,
        text::utf8_len(render::rendered(cs)) > budget,
    ensures
        exists|w: int| #[trigger]
            is_least(scores, w) && consolidate::survivors(cs, scores, budget)
                == consolidate::survivors(cs.remove(w), scores.remove(w), budget)
                && consolidate::evictions(cs, scores, budget) == seq![cs[w].text]
                + consolidate::evictions(cs.remove(w), scores.remove(w), budget),
{
    consolidate::lemma_least(scores, cs.len() as int);
    assert(is_least(scores, consolidate::least(scores, cs.len() as int)));
}

/// Whether a place holds the least score, and is the first that does.
pub open spec fn is_least(scores: Seq<Score>, w: int) -> bool {
    &&& 0 <= w < scores.len()
    &&& forall|i: int| 0 <= i < scores.len() ==> scores[w] <= #[trigger] scores[i]
    &&& forall|i: int| 0 <= i < w ==> scores[w] < #[trigger] scores[i]
}

/// A pass that may evict loses no text, and leaves a file that fits its budget or a
/// single chunk.
pub proof fn law_a_pass_loses_no_text(
    cs: Seq<ChunkView>,
    index: Seq<ChunkView>,
    daily_scores: Seq<Score>,
    curated_scores: Seq<Score>,
    evict: bool,
    budget: int,
)
    requires
        ({
            let p = consolidate::pass(cs, index, daily_scores, curated_scores, evict, budget);
            evict ==> curated_scores.len() == p.kept.len() + p.added.len()
        }),
    ensures
        ({
            let p = consolidate::pass(cs, index, daily_scores, curated_scores, evict, budget);
            &&& consolidate::texts(p.curated).to_multiset().add(p.evicted.to_multiset())
                =~= consolidate::texts(p.kept + p.added).to_multiset()
            &&& evict ==> text::utf8_len(render::rendered(p.curated)) <= budget || p.curated.len()
                <= 1
            &&& p.kept.len() + p.added.len() > 0 ==> p.curated.len() > 0
        }),
{
    let p = consolidate::pass(cs, index, daily_scores, curated_scores, evict, budget);
    let all = p.kept + p.added;
    if evict {
        consolidate::law_eviction_loses_nothing(all, curated_scores, budget);
        consolidate::law_eviction_reaches_the_budget(all, curated_scores, budget);
    } else {
        broadcast use vstd::seq_lib::group_to_multiset_ensures;

        assert(p.evicted.to_multiset() =~= vstd::multiset::Multiset::empty());
        assert(consolidate::texts(p.curated).to_multiset().add(p.evicted.to_multiset())
            =~= consolidate::texts(all).to_multiset());
    }
}

// ---------------------------------------------------------------------------
// The report
// ---------------------------------------------------------------------------

/// A plan says what its pass does: it runs just where it merges, promotes or evicts
/// something or the rendered file is another than the one there is; it counts each;
/// and the file that it writes is its curated chunks, rendered.
pub proof fn law_a_plan_reports_what_it_does(
    r: ConsolidationPlan,
    p: consolidate::PassView,
    existing: Seq<char>,
)
    requires
        consolidate::carries_out(r, p, existing),
    ensures
        r.report.merged == p.merged,
        r.report.promoted == p.added.len(),
        r.report.demoted == p.evicted.len(),
        text::views(r.evicted@) == p.evicted,
        chunk::chunk_views(r.curated@) == p.curated,
        r.rendered@ == render::rendered(chunk::chunk_views(r.curated@)),
        !r.report.ran <==> r.report.merged <= 0 && r.report.promoted == 0 && r.report.demoted == 0
            && r.rendered@ == existing,
        r.report.ran ==> r.report.bytes_after == text::utf8_len(r.rendered@),
        !r.report.ran ==> r.report.bytes_after == r.report.bytes_before,
        consolidate::edge_views(r.report.superseded@) == p.edges,
{
}

} // verus!
