//! What recalls, injections, pins and outcomes do to the recorded usage, and what the
//! tables of the index say of it.
use vstd::prelude::*;
use vstd::string::*;
use crate::memory::chunk::ChunkView;
use crate::memory::config::{DecayConfig, Score};
use crate::memory::index;
use crate::memory::index::{LinkView, MappingView, Retrieve};
use crate::memory::keys;
use crate::memory::stats;
use crate::memory::stats::{ChunkStat, ChunkStatSnapshot, EffectiveStat, StatMap};
use crate::seqs;
use crate::memory::outcome;
use crate::memory::outcome::Verdict;

verus! {

// ---------------------------------------------------------------------------
// Statistics
// ---------------------------------------------------------------------------

/// The first recall of a chunk starts its row at full weight; a later one counts, is
/// its last access, and lifts its weight where decay is on. Its pin, its suppression
/// and all other chunks stay as they were.
pub proof fn law_a_recall_counts(
    m: StatMap,
    enabled: bool,
    key: Seq<char>,
    lifted: Score,
    now_ms: i64,
    other: Seq<char>,
)
    requires
        m.dom().contains(key) ==> m[key].access_count < i64::MAX,
        other != key,
    ensures
        ({
            let t = stats::recalled(m, enabled, key, lifted, now_ms);
            &&& t.dom().contains(key)
            &&& t[key].last_accessed_ms == now_ms
            &&& !m.dom().contains(key) ==> t[key].weight == 0x3f80_0000 && t[key].access_count == 1
                && !t[key].pinned && !t[key].suppress_promotion
            &&& m.dom().contains(key) ==> t[key].access_count == m[key].access_count + 1
                && t[key].weight == (if enabled {
                lifted
            } else {
                m[key].weight
            }) && t[key].pinned == m[key].pinned && t[key].suppress_promotion
                == m[key].suppress_promotion
            &&& t.dom().contains(other) == m.dom().contains(other) && t[other] == m[other]
        }),
{
}

/// An injection that got a reply counts for a chunk that was recalled before, where
/// decay is on and injections are to count.
pub proof fn law_an_injection_counts_where_it_is_to(
    m: StatMap,
    decay: DecayConfig,
    key: Seq<char>,
    lifted: Score,
    now_ms: i64,
)
    requires
        m.dom().contains(key) ==> m[key].access_count < i64::MAX,
    ensures
        ({
            let t = stats::injected(m, decay, key, lifted, now_ms);
            &&& decay.enabled && decay.ambient_gain > 0 && m.dom().contains(key) ==> t[key].weight
                == lifted && t[key].last_accessed_ms == now_ms && t[key].access_count
                == m[key].access_count + 1 && t[key].pinned == m[key].pinned
                && t[key].suppress_promotion == m[key].suppress_promotion
            &&& !decay.enabled || decay.ambient_gain == 0 ==> t == m
        }),
{
}

/// Waking, sleeping, pinning and suppressing each set what they are to set of a chunk
/// and nothing else, and start a row at full weight where there is none.
pub proof fn law_each_setting_sets_one_thing(
    m: StatMap,
    key: Seq<char>,
    flag: bool,
    now_ms: i64,
    other: Seq<char>,
)
    requires
        other != key,
    ensures
        ({
            let had = m.dom().contains(key);
            let up = stats::woken(m, key, now_ms);
            let down = stats::asleep(m, key, now_ms);
            let pin = stats::pin_set(m, key, flag, now_ms);
            let held = stats::suppression_set(m, key, flag, now_ms);
            &&& up[key].weight == 0x3f80_0000 && up[key].last_accessed_ms == now_ms
            &&& down[key].weight == 0
            &&& pin[key].pinned == flag && held[key].suppress_promotion == flag
            &&& had ==> up[key].suppress_promotion == m[key].suppress_promotion
            &&& had ==> down[key].last_accessed_ms == m[key].last_accessed_ms && pin[key]
                == (ChunkStat { pinned: flag, ..m[key] }) && held[key] == (ChunkStat {
                suppress_promotion: flag,
                ..m[key]
            })
            &&& had ==> up[key].access_count == m[key].access_count && down[key].access_count
                == m[key].access_count && up[key].pinned == m[key].pinned && down[key].pinned
                == m[key].pinned && down[key].suppress_promotion == m[key].suppress_promotion
            &&& !had ==> down[key].last_accessed_ms == now_ms && pin[key].weight == 0x3f80_0000
                && held[key].weight == 0x3f80_0000 && pin[key].last_accessed_ms == now_ms
                && held[key].last_accessed_ms == now_ms && pin[key].access_count == 0
                && held[key].access_count == 0 && !held[key].pinned
                && !pin[key].suppress_promotion
            &&& up[other] == m[other] && down[other] == m[other] && pin[other] == m[other]
                && held[other] == m[other]
            &&& up.dom() == m.dom().insert(key) && down.dom() == m.dom().insert(key)
            &&& pin.dom() == m.dom().insert(key) && held.dom() == m.dom().insert(key)
        }),
{
}

/// A success counts as an access of each chunk that it touched and that has a row, and
/// lifts its weight where decay is on; a chunk that it did not touch keeps its weight
/// and its accesses.
pub proof fn law_a_success_counts_for_what_it_touched(
    m: StatMap,
    enabled: bool,
    ks: Seq<Seq<char>>,
    lifted: Seq<Score>,
    now_ms: i64,
    i: int,
    other: Seq<char>,
)
    requires
        0 <= i < ks.len(),
        forall|j: int| 0 <= j < ks.len() && j != i ==> #[trigger] ks[j] != ks[i],
        m.dom().contains(ks[i]),
        m[ks[i]].access_count < i64::MAX,
        !ks.contains(other),
        m.dom().contains(other),
    ensures
        ({
            let t = stats::rewarded(m, enabled, ks, lifted, now_ms);
            let k = ks[i];
            &&& t[k].access_count == m[k].access_count + 1
            &&& t[k].last_accessed_ms == now_ms
            &&& t[k].weight == (if enabled {
                lifted[i]
            } else {
                m[k].weight
            })
            &&& t[other].weight == m[other].weight
            &&& t[other].access_count == m[other].access_count
            &&& t[other].last_accessed_ms == m[other].last_accessed_ms
        }),
{
    let r = stats::rehabilitated(m, ks);
    lemma_bumped(r, enabled, ks, lifted, ks.len() as int, now_ms, i);
    lemma_not_bumped(r, enabled, ks, lifted, ks.len() as int, now_ms, other);
}

proof fn lemma_not_bumped(
    m: StatMap,
    enabled: bool,
    ks: Seq<Seq<char>>,
    lifted: Seq<Score>,
    n: int,
    now_ms: i64,
    k: Seq<char>,
)
    requires
        0 <= n <= ks.len(),
        forall|j: int| 0 <= j < n ==> #[trigger] ks[j] != k,
    ensures
        stats::bumped(m, enabled, ks, lifted, n, now_ms).dom().contains(k) == m.dom().contains(k),
        stats::bumped(m, enabled, ks, lifted, n, now_ms)[k] == m[k],
    decreases n,
{
    if n > 0 {
        lemma_not_bumped(m, enabled, ks, lifted, n - 1, now_ms, k);
        assert(ks[n - 1] != k);
    }
}

proof fn lemma_bumped(
    m: StatMap,
    enabled: bool,
    ks: Seq<Seq<char>>,
    lifted: Seq<Score>,
    n: int,
    now_ms: i64,
    i: int,
)
    requires
        0 <= i < n <= ks.len(),
        forall|j: int| 0 <= j < ks.len() && j != i ==> #[trigger] ks[j] != ks[i],
        m.dom().contains(ks[i]),
        m[ks[i]].access_count < i64::MAX,
    ensures
        ({
            let t = stats::bumped(m, enabled, ks, lifted, n, now_ms);
            let k = ks[i];
            &&& t.dom().contains(k)
            &&& t[k].access_count == m[k].access_count + 1
            &&& t[k].last_accessed_ms == now_ms
            &&& t[k].weight == (if enabled {
                lifted[i]
            } else {
                m[k].weight
            })
        }),
    decreases n,
{
    if i < n - 1 {
        lemma_bumped(m, enabled, ks, lifted, n - 1, now_ms, i);
        assert(ks[n - 1] != ks[i]);
    } else {
        lemma_not_bumped(m, enabled, ks, lifted, n - 1, now_ms, ks[i]);
    }
}

/// The effective weight of a chunk is the decayed one, and full where it is pinned. It
/// is told of every chunk that has a row and of no other.
pub proof fn law_effective_weights_are_told_of_chunks_with_a_row(
    m: StatMap,
    ks: Seq<Seq<char>>,
    decayed: Seq<Score>,
    n: int,
    e: (Seq<char>, EffectiveStat),
)
    requires
        0 <= n <= ks.len(),
    ensures
        stats::effective(m, ks, decayed, n).contains(e) <==> exists|i: int|
            0 <= i < n && #[trigger] ks[i] == e.0 && m.dom().contains(e.0) && e.1.last_accessed_ms
                == m[e.0].last_accessed_ms && e.1.weight == (if m[e.0].pinned {
                0x3f80_0000u32
            } else {
                decayed[i]
            }),
    decreases n,
{
    let out = stats::effective(m, ks, decayed, n);
    if n > 0 {
        law_effective_weights_are_told_of_chunks_with_a_row(m, ks, decayed, n - 1, e);
        let prev = stats::effective(m, ks, decayed, n - 1);
        if prev.contains(e) {
            let a = choose|a: int| 0 <= a < prev.len() && prev[a] == e;
            assert(out[a] == e);
        }
        if m.dom().contains(ks[n - 1]) {
            let last = out[prev.len() as int];
            assert(out == prev.push(last));
        }
        if out.contains(e) && !prev.contains(e) {
            let a = choose|a: int| 0 <= a < out.len() && out[a] == e;
            if a < prev.len() {
                assert(prev[a] == e);
            }
            assert(ks[n - 1] == e.0);
        }
    }
}

/// What a display shows of a row: full weight where it is pinned, else the decayed
/// weight where decay is on, else the recorded one; and that it is dormant just where
/// decay is on, it is not pinned and its weight is below the threshold.
pub proof fn law_a_display_shows_the_row(row: ChunkStat, decay: DecayConfig, decayed: Score)
    ensures
        ({
            let s = stats::snapshot_of(row, decay, decayed);
            &&& row.pinned ==> s.weight == 0x3f80_0000
            &&& !row.pinned && decay.enabled ==> s.weight == decayed
            &&& !row.pinned && !decay.enabled ==> s.weight == row.weight
            &&& s.dormant <==> decay.enabled && !row.pinned && decayed < decay.dormant_threshold
            &&& s.pinned == row.pinned
            &&& s.last_accessed_ms == row.last_accessed_ms
            &&& 0 <= row.access_count <= u32::MAX ==> s.access_count == row.access_count
            &&& row.access_count < 0 ==> s.access_count == 0
        }),
{
}

/// A display shows every chunk that has a row, and no other.
pub proof fn law_a_display_shows_the_chunks_with_a_row(
    m: StatMap,
    decay: DecayConfig,
    ks: Seq<Seq<char>>,
    decayed: Seq<Score>,
    n: int,
    e: (Seq<char>, ChunkStatSnapshot),
)
    requires
        0 <= n <= ks.len(),
    ensures
        stats::snapshots(m, decay, ks, decayed, n).contains(e) <==> exists|i: int|
            0 <= i < n && #[trigger] ks[i] == e.0 && m.dom().contains(e.0) && e.1
                == stats::snapshot_of(m[e.0], decay, decayed[i]),
    decreases n,
{
    let out = stats::snapshots(m, decay, ks, decayed, n);
    if n > 0 {
        law_a_display_shows_the_chunks_with_a_row(m, decay, ks, decayed, n - 1, e);
        let prev = stats::snapshots(m, decay, ks, decayed, n - 1);
        if prev.contains(e) {
            let a = choose|a: int| 0 <= a < prev.len() && prev[a] == e;
            assert(out[a] == e);
        }
        if m.dom().contains(ks[n - 1]) {
            let last = out[prev.len() as int];
            assert(out == prev.push(last));
        }
        if out.contains(e) && !prev.contains(e) {
            let a = choose|a: int| 0 <= a < out.len() && out[a] == e;
            if a < prev.len() {
                assert(prev[a] == e);
            }
            assert(ks[n - 1] == e.0);
        }
    }
}

// ---------------------------------------------------------------------------
// Tables of the index
// ---------------------------------------------------------------------------

/// The chunks of other files stay, all of them and in order, when those of one file go;
/// and the mappings of chunks that are still there stay when the others go.
pub proof fn law_what_belongs_elsewhere_stays(
    cs: Seq<ChunkView>,
    path: Seq<char>,
    ms: Seq<MappingView>,
    ks: Seq<Seq<char>>,
)
    ensures
        index::elsewhere(cs, path, cs.len() as int) == cs.filter(|c: ChunkView| c.path != path),
        index::listed_mappings(ms, ks, ms.len() as int) == ms.filter(
            |m: MappingView| ks.contains(m.chunk_key),
        ),
{
    lemma_elsewhere(cs, path, cs.len() as int);
    lemma_listed_mappings(ms, ks, ms.len() as int);
    assert(cs.take(cs.len() as int) =~= cs);
    assert(ms.take(ms.len() as int) =~= ms);
}

proof fn lemma_elsewhere(cs: Seq<ChunkView>, path: Seq<char>, n: int)
    requires
        0 <= n <= cs.len(),
    ensures
        index::elsewhere(cs, path, n) == cs.take(n).filter(|c: ChunkView| c.path != path),
    decreases n,
{
    let f = |c: ChunkView| c.path != path;
    if n > 0 {
        lemma_elsewhere(cs, path, n - 1);
        seqs::lemma_filter_take(cs, f, n - 1);
    } else {
        reveal(Seq::filter);
        assert(cs.take(0).filter(f) =~= Seq::empty());
    }
}

proof fn lemma_listed_mappings(ms: Seq<MappingView>, ks: Seq<Seq<char>>, n: int)
    requires
        0 <= n <= ms.len(),
    ensures
        index::listed_mappings(ms, ks, n) == ms.take(n).filter(
            |m: MappingView| ks.contains(m.chunk_key),
        ),
    decreases n,
{
    let f = |m: MappingView| ks.contains(m.chunk_key);
    if n > 0 {
        lemma_listed_mappings(ms, ks, n - 1);
        seqs::lemma_filter_take(ms, f, n - 1);
    } else {
        reveal(Seq::filter);
        assert(ms.take(0).filter(f) =~= Seq::empty());
    }
}

/// Each retrieve of a content counts one, from one on, and is its last; other contents
/// keep their counts.
pub proof fn law_each_retrieve_counts_one(
    m: Map<Seq<char>, Retrieve>,
    key: Seq<char>,
    now_ms: i64,
    other: Seq<char>,
)
    requires
        m.dom().contains(key) ==> m[key].count < u64::MAX,
        other != key,
    ensures
        ({
            let t = index::retrieved(m, key, now_ms);
            &&& t.dom() == m.dom().insert(key)
            &&& !m.dom().contains(key) ==> t[key].count == 1
            &&& m.dom().contains(key) ==> t[key].count == m[key].count + 1
            &&& t[key].last_ms == now_ms
            &&& t[other] == m[other]
        }),
{
}

/// A chunk has the retrieves of all contents that are mapped to it together, and none
/// where no content that was retrieved is: one more mapping adds the retrieves of its
/// content to its chunk and to no other.
pub proof fn law_a_chunk_has_the_retrieves_of_its_contents(
    ms: Seq<MappingView>,
    m: Map<Seq<char>, Retrieve>,
    k: Seq<char>,
    x: MappingView,
)
    ensures
        ({
            let n = ms.len() as int;
            let before = index::hits(ms, m, k, n);
            let after = index::hits(ms.push(x), m, k, n + 1);
            &&& index::hits(ms, m, k, 0) is None
            &&& x.chunk_key != k || !m.dom().contains(x.content_key) ==> after == before
            &&& x.chunk_key == k && m.dom().contains(x.content_key) && before is None ==> after
                == Some(m[x.content_key].count as nat)
            &&& x.chunk_key == k && m.dom().contains(x.content_key) && before is Some ==> after
                == Some(before->0 + m[x.content_key].count as nat)
        }),
{
    lemma_hits_before(ms, m, k, x, ms.len() as int);
}

proof fn lemma_hits_before(
    ms: Seq<MappingView>,
    m: Map<Seq<char>, Retrieve>,
    k: Seq<char>,
    x: MappingView,
    n: int,
)
    requires
        0 <= n <= ms.len(),
    ensures
        index::hits(ms.push(x), m, k, n) == index::hits(ms, m, k, n),
    decreases n,
{
    if n > 0 {
        lemma_hits_before(ms, m, k, x, n - 1);
        assert(ms.push(x)[n - 1] == ms[n - 1]);
    }
}

/// Retrieves are told of each chunk that has any, and of no other.
pub proof fn law_retrieves_are_told_of_the_chunks_that_have_any(
    ms: Seq<MappingView>,
    m: Map<Seq<char>, Retrieve>,
    ks: Seq<Seq<char>>,
    n: int,
    k: Seq<char>,
    x: nat,
)
    requires
        0 <= n <= ks.len(),
    ensures
        index::all_hits(ms, m, ks, n).contains((k, x)) <==> ks.take(n).contains(k) && index::hits(
            ms,
            m,
            k,
            ms.len() as int,
        ) == Some(x),
    decreases n,
{
    let out = index::all_hits(ms, m, ks, n);
    if n > 0 {
        law_retrieves_are_told_of_the_chunks_that_have_any(ms, m, ks, n - 1, k, x);
        let prev = index::all_hits(ms, m, ks, n - 1);
        let (a, b) = (ks.take(n - 1), ks.take(n));
        assert(b =~= a.push(ks[n - 1]));
        if a.contains(k) {
            let i = choose|i: int| 0 <= i < a.len() && a[i] == k;
            assert(b[i] == k);
        }
        if b.contains(k) && !a.contains(k) {
            let i = choose|i: int| 0 <= i < b.len() && b[i] == k;
            if i < n - 1 {
                assert(a[i] == k);
            }
        }
        assert(b[n - 1] == ks[n - 1]);
        if prev.contains((k, x)) {
            let i = choose|i: int| 0 <= i < prev.len() && prev[i] == (k, x);
            assert(out[i] == (k, x));
        }
        if index::hits(ms, m, ks[n - 1], ms.len() as int) is Some {
            let y = index::hits(ms, m, ks[n - 1], ms.len() as int)->0;
            assert(out == prev.push((ks[n - 1], y)));
            assert(out[prev.len() as int] == (ks[n - 1], y));
        }
        if out.contains((k, x)) && !prev.contains((k, x)) {
            let i = choose|i: int| 0 <= i < out.len() && out[i] == (k, x);
            if i < prev.len() {
                assert(prev[i] == (k, x));
            }
        }
    }
}

/// A content that is found to overlap with a chunk is mapped to it as it was found last,
/// and all other mappings stay.
pub proof fn law_a_content_is_mapped_as_it_was_found_last(
    ms: Seq<MappingView>,
    m: MappingView,
    x: MappingView,
)
    ensures
        index::mapped(ms, m).contains(m),
        !(x.content_key == m.content_key && x.chunk_key == m.chunk_key) ==> (index::mapped(
            ms,
            m,
        ).contains(x) <==> ms.contains(x)),
{
    lemma_mapping_place(ms, m, 0);
    let p = index::mapping_place(ms, m.content_key, m.chunk_key, 0);
    let out = index::mapped(ms, m);
    let q = if p < 0 {
        ms.len() as int
    } else {
        p
    };
    assert(out[q] == m);
    if !(x.content_key == m.content_key && x.chunk_key == m.chunk_key) {
        if ms.contains(x) {
            let i = choose|i: int| 0 <= i < ms.len() && ms[i] == x;
            assert(out[i] == x);
        }
        if out.contains(x) {
            let i = choose|i: int| 0 <= i < out.len() && out[i] == x;
            assert(i != q);
            assert(ms[i] == x);
        }
    }
}

proof fn lemma_mapping_place(ms: Seq<MappingView>, m: MappingView, from: int)
    requires
        0 <= from <= ms.len(),
    ensures
        ({
            let p = index::mapping_place(ms, m.content_key, m.chunk_key, from);
            &&& -1 <= p < ms.len()
            &&& p >= 0 ==> ms[p].content_key == m.content_key && ms[p].chunk_key == m.chunk_key
        }),
    decreases ms.len() - from,
{
    if from < ms.len() {
        lemma_mapping_place(ms, m, from + 1);
    }
}

/// Every chunk that a content is found to overlap with is mapped.
pub proof fn law_every_chunk_that_is_found_is_mapped(
    ms: Seq<MappingView>,
    ck: Seq<char>,
    found: Seq<(String, Score)>,
    n: int,
    now_ms: i64,
)
    requires
        0 < n <= found.len(),
    ensures
        index::all_mapped(ms, ck, found, n, now_ms).contains(
            MappingView {
                content_key: ck,
                chunk_key: found[n - 1].0@,
                similarity: found[n - 1].1,
                last_mapped: now_ms as int,
            },
        ),
        index::all_mapped(ms, ck, found, 0, now_ms) == ms,
        forall|x: MappingView|
            x.content_key != ck || x.chunk_key != found[n - 1].0@ ==> (index::all_mapped(
                ms,
                ck,
                found,
                n,
                now_ms,
            ).contains(x) <==> #[trigger] index::all_mapped(ms, ck, found, n - 1, now_ms).contains(
                x,
            )),
{
    let prev = index::all_mapped(ms, ck, found, n - 1, now_ms);
    let m = MappingView {
        content_key: ck,
        chunk_key: found[n - 1].0@,
        similarity: found[n - 1].1,
        last_mapped: now_ms as int,
    };
    law_a_content_is_mapped_as_it_was_found_last(prev, m, m);
    assert forall|x: MappingView|
        x.content_key != ck || x.chunk_key != found[n - 1].0@ implies (index::all_mapped(
        ms,
        ck,
        found,
        n,
        now_ms,
    ).contains(x) <==> #[trigger] prev.contains(x)) by {
        law_a_content_is_mapped_as_it_was_found_last(prev, m, x);
    }
}

/// Every supersession of a pass becomes an edge from the older fact to the newer one.
pub proof fn law_every_supersession_becomes_an_edge(
    ls: Seq<LinkView>,
    edges: Seq<(Seq<char>, Seq<char>)>,
    n: int,
    now_ms: i64,
    i: int,
)
    requires
        index::edges_distinct(ls),
        0 <= i < n <= edges.len(),
    ensures
        index::edges_distinct(index::all_linked(ls, edges, n, now_ms)),
        index::all_linked(ls, edges, n, now_ms).contains(
            LinkView {
                from_key: edges[i].0,
                to_key: edges[i].1,
                kind: "supersession"@,
                created_at: now_ms as int,
            },
        ),
    decreases n,
{
    let prev = index::all_linked(ls, edges, n - 1, now_ms);
    let l = index::supersession_link(edges[n - 1].0, edges[n - 1].1, now_ms);
    let x = LinkView {
        from_key: edges[i].0,
        to_key: edges[i].1,
        kind: "supersession"@,
        created_at: now_ms as int,
    };
    if n > 1 {
        if i < n - 1 {
            law_every_supersession_becomes_an_edge(ls, edges, n - 1, now_ms, i);
        } else {
            law_every_supersession_becomes_an_edge(ls, edges, n - 1, now_ms, 0);
        }
    }
    index::law_recording_a_link_is_idempotent(prev, l);
    if i < n - 1 && index::same_edge(x, l) {
        assert(x == l);
    }
}

/// Edges are listed with the newest first.
pub proof fn law_edges_are_listed_with_the_newest_first(ls: Seq<LinkView>, i: int, j: int)
    requires
        index::links_sorted(ls),
        0 <= i < j < ls.len(),
    ensures
        ls[i].created_at >= ls[j].created_at,
{
    assert(index::link_le(ls[i], ls[j]));
}

/// A chunk shares its content with a key where their content parts are the same.
pub proof fn law_contents_are_shared_by_their_content_parts(
    ks: Seq<Seq<char>>,
    k: Seq<char>,
    i: int,
)
    requires
        0 <= i < ks.len(),
        keys::content_part(ks[i]) == keys::content_part(k),
    ensures
        stats::shares_content(ks, k),
{
}

/// A failure marks a touched chunk and changes nothing else of its row, or starts a fresh
/// one.
pub proof fn law_a_failure_marks_and_nothing_else(
    m: StatMap,
    enabled: bool,
    ks: Seq<Seq<char>>,
    lifted: Seq<Score>,
    now_ms: i64,
    k: Seq<char>,
)
    requires
        ks.contains(k),
    ensures
        ({
            let after = outcome::settled(m, enabled, Verdict::Failure, ks, lifted, now_ms);
            &&& after.dom().contains(k)
            &&& m.dom().contains(k) ==> after[k] == (ChunkStat { suppress_promotion: true, ..m[k] })
            &&& !m.dom().contains(k) ==> after[k].suppress_promotion && !after[k].pinned
                && after[k].weight == 0x3f80_0000 && after[k].last_accessed_ms == now_ms
                && after[k].access_count == 0
        }),
{
    lemma_marked(m, ks, ks.len() as int, now_ms, k);
    assert(ks.take(ks.len() as int) =~= ks);
}

proof fn lemma_marked(m: StatMap, ks: Seq<Seq<char>>, n: int, now_ms: i64, k: Seq<char>)
    requires
        0 <= n <= ks.len(),
    ensures
        ({
            let after = outcome::suppressed_all(m, ks, n, now_ms);
            &&& !ks.take(n).contains(k) ==> after.dom().contains(k) == m.dom().contains(k)
                && after[k] == m[k]
            &&& ks.take(n).contains(k) ==> after.dom().contains(k) && after[k] == (ChunkStat {
                suppress_promotion: true,
                ..stats::row_or_fresh(m, k, now_ms)
            })
        }),
    decreases n,
{
    if n > 0 {
        lemma_marked(m, ks, n - 1, now_ms, k);
        let now = ks.take(n);
        let before = ks.take(n - 1);
        assert(now =~= before.push(ks[n - 1]));
        if before.contains(k) {
            let i = before.index_of(k);
            assert(now[i] == k);
        }
        if now.contains(k) && !before.contains(k) {
            let i = now.index_of(k);
            if i < n - 1 {
                assert(before[i] == k);
            }
            assert(ks[n - 1] == k);
        }
        if ks[n - 1] == k {
            assert(now[n - 1] == k);
        }
    }
}

/// A success starts no row and drops none, leaves every pin as it was, and is settled as
/// a reward of what was touched.
pub proof fn law_a_success_keeps_rows_and_pins(
    m: StatMap,
    enabled: bool,
    ks: Seq<Seq<char>>,
    lifted: Seq<Score>,
    now_ms: i64,
    k: Seq<char>,
)
    requires
        ks.len() > 0,
    ensures
        ({
            let after = outcome::settled(m, enabled, Verdict::Success, ks, lifted, now_ms);
            &&& after == stats::rewarded(m, enabled, ks, lifted, now_ms)
            &&& after.dom().contains(k) <==> m.dom().contains(k)
            &&& m.dom().contains(k) ==> after[k].pinned == m[k].pinned
        }),
{
    stats::law_success_rehabilitates_by_content(m, enabled, ks, lifted, now_ms, k);
}

} // verus!
