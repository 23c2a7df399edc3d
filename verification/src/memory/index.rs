//! The tables of the recall index: chunks, statistics, retrieves and links.
use vstd::prelude::*;
use vstd::string::*;
use crate::memory::chunk;
use crate::memory::chunk::{ChunkView, MemoryChunk};
use crate::memory::config::{DecayConfig, Score};
use crate::memory::consolidate;
use crate::memory::consolidate::{ConsolidationReport, Supersession};
use crate::memory::keys;
use crate::memory::keys::chunk_key;
use crate::memory::stats;
use crate::memory::stats::ChunkStats;
use crate::table::Table;
use crate::text;
use crate::text::{holds_text, same_text, text_no_later};

verus! {

/// A directed edge between two chunks.
#[derive(Debug, PartialEq, Eq)]
pub struct Link {
    /// Where it starts.
    pub from_key: String,
    /// Where it ends.
    pub to_key: String,
    /// What it says.
    pub kind: String,
    /// When it was last recorded, in milliseconds since 1970.
    pub created_at: i64,
}

/// What an edge holds.
#[verifier::ext_equal]
pub struct LinkView {
    pub from_key: Seq<char>,
    pub to_key: Seq<char>,
    pub kind: Seq<char>,
    pub created_at: int,
}

impl View for Link {
    type V = LinkView;

    open spec fn view(&self) -> LinkView {
        LinkView {
            from_key: self.from_key@,
            to_key: self.to_key@,
            kind: self.kind@,
            created_at: self.created_at as int,
        }
    }
}

impl Clone for Link {
    fn clone(&self) -> (r: Self)
        ensures
            r == *self,
    {
        Link {
            from_key: self.from_key.clone(),
            to_key: self.to_key.clone(),
            kind: self.kind.clone(),
            created_at: self.created_at,
        }
    }
}

/// How often the original of a compacted result was pulled back.
#[derive(Debug, Clone, Copy, PartialEq, Eq)]
pub struct Retrieve {
    /// How often.
    pub count: u64,
    /// When last, in milliseconds since 1970.
    pub last_ms: i64,
}

/// That a retrieved content overlaps with a chunk.
#[derive(Debug, PartialEq, Eq)]
pub struct Mapping {
    /// The retrieved content.
    pub content_key: String,
    /// The chunk.
    pub chunk_key: String,
    /// How similar they are.
    pub similarity: Score,
    /// When this was last found, in milliseconds since 1970.
    pub last_mapped: i64,
}

/// What a mapping holds.
#[verifier::ext_equal]
pub struct MappingView {
    pub content_key: Seq<char>,
    pub chunk_key: Seq<char>,
    pub similarity: Score,
    pub last_mapped: int,
}

impl View for Mapping {
    type V = MappingView;

    open spec fn view(&self) -> MappingView {
        MappingView {
            content_key: self.content_key@,
            chunk_key: self.chunk_key@,
            similarity: self.similarity,
            last_mapped: self.last_mapped as int,
        }
    }
}

/// What each edge holds.
pub open spec fn link_views(s: Seq<Link>) -> Seq<LinkView> {
    Seq::new(s.len(), |i: int| s[i]@)
}

/// What each mapping holds.
pub open spec fn mapping_views(s: Seq<Mapping>) -> Seq<MappingView> {
    Seq::new(s.len(), |i: int| s[i]@)
}

/// The tables of the recall index. The full-text table that is kept in step with
/// the chunks is not one of them.
pub struct Fts5Index {
    /// The indexed chunks.
    pub chunks: Vec<MemoryChunk>,
    /// The usage statistics.
    pub stats: ChunkStats,
    /// The retrieves by content key.
    pub retrieves: Table<Retrieve>,
    /// Which chunks the retrieved contents overlap with.
    pub mappings: Vec<Mapping>,
    /// The edges between chunks.
    pub links: Vec<Link>,
}

// ---------------------------------------------------------------------------
// Chunks
// ---------------------------------------------------------------------------

/// The keys of the chunks.
pub open spec fn keys_of(cs: Seq<ChunkView>) -> Seq<Seq<char>> {
    Seq::new(cs.len(), |i: int| keys::chunk_key_spec(cs[i]))
}

/// The first `n` chunks that stand in other files.
pub open spec fn elsewhere(cs: Seq<ChunkView>, path: Seq<char>, n: int) -> Seq<ChunkView>
    decreases n,
{
    if n <= 0 {
        Seq::empty()
    } else if cs[n - 1].path == path {
        elsewhere(cs, path, n - 1)
    } else {
        elsewhere(cs, path, n - 1).push(cs[n - 1])
    }
}

/// The first `n` mappings whose chunk is listed.
pub open spec fn listed_mappings(ms: Seq<MappingView>, ks: Seq<Seq<char>>, n: int) -> Seq<
    MappingView,
>
    decreases n,
{
    if n <= 0 {
        Seq::empty()
    } else if ks.contains(ms[n - 1].chunk_key) {
        listed_mappings(ms, ks, n - 1).push(ms[n - 1])
    } else {
        listed_mappings(ms, ks, n - 1)
    }
}

/// The keys of the chunks.
fn key_list(cs: &Vec<MemoryChunk>) -> (r: Vec<String>)
    ensures
        text::views(r@) == keys_of(chunk::chunk_views(cs@)),
{
    let ghost cv = chunk::chunk_views(cs@);
    let mut out: Vec<String> = Vec::new();
    let mut i: usize = 0;
    assert(text::views(out@) =~= keys_of(cv).take(0));
    while i < cs.len()
        invariant
            i <= cs@.len(),
            cv == chunk::chunk_views(cs@),
            text::views(out@) == keys_of(cv).take(i as int),
        decreases cs@.len() - i,
    {
        let ghost before = text::views(out@);
        let k: String = chunk_key(&cs[i]);
        out.push(k);
        proof {
            assert(cv[i as int] == cs@[i as int]@);
            assert(text::views(out@) =~= before.push(k@));
            assert(keys_of(cv).take(i + 1) =~= before.push(k@));
        }
        i = i + 1;
    }
    proof {
        assert(keys_of(cv).take(i as int) =~= keys_of(cv));
    }
    out
}

/// A copy of the chunks.
fn copy_chunks(cs: &Vec<MemoryChunk>) -> (r: Vec<MemoryChunk>)
    ensures
        r@ == cs@,
{
    let mut out: Vec<MemoryChunk> = Vec::new();
    let mut i: usize = 0;
    while i < cs.len()
        invariant
            i <= cs@.len(),
            out@ == cs@.take(i as int),
        decreases cs@.len() - i,
    {
        out.push(cs[i].clone());
        i = i + 1;
        assert(out@ =~= cs@.take(i as int));
    }
    assert(cs@.take(i as int) =~= cs@);
    out
}

impl Fts5Index {
    /// Whether the tables are in order.
    pub open spec fn wf(&self) -> bool {
        self.stats.wf() && self.retrieves.wf()
    }

    /// Empty tables, under those decay settings.
    pub fn new(decay: DecayConfig) -> (r: Self)
        ensures
            r.wf(),
            r.chunks@.len() == 0,
            r.stats@ == Map::<Seq<char>, stats::ChunkStat>::empty(),
            r.stats.decay == decay,
            r.retrieves@ == Map::<Seq<char>, Retrieve>::empty(),
            r.mappings@.len() == 0,
            r.links@.len() == 0,
    {
        Fts5Index {
            chunks: Vec::new(),
            stats: ChunkStats::new(decay),
            retrieves: Table::new(),
            mappings: Vec::new(),
            links: Vec::new(),
        }
    }

    /// Replaces all chunks. Statistics and mappings of chunks that no longer
    /// exist go; retrieves and edges stay.
    pub fn reindex(&mut self, cs: &Vec<MemoryChunk>)
        requires
            old(self).wf(),
        ensures
            final(self).wf(),
            final(self).chunks@ == cs@,
            final(self).stats@ == old(self).stats@.restrict(
                Set::new(
                    |k: Seq<char>| keys_of(chunk::chunk_views(cs@)).contains(k),
                ),
            ),
            final(self).stats.decay == old(self).stats.decay,
            mapping_views(final(self).mappings@) == listed_mappings(
                mapping_views(old(self).mappings@),
                keys_of(chunk::chunk_views(cs@)),
                old(self).mappings@.len() as int,
            ),
            final(self).retrieves == old(self).retrieves,
            final(self).links == old(self).links,
    {
        let ks: Vec<String> = key_list(cs);
        self.chunks = copy_chunks(cs);
        self.stats.sweep(&ks);
        let kept: Vec<Mapping> = keep_mappings(&self.mappings, &ks);
        self.mappings = kept;
    }

    /// Replaces the chunks of one file.
    pub fn reindex_path(&mut self, path: &str, cs: &Vec<MemoryChunk>)
        requires
            old(self).wf(),
        ensures
            final(self).wf(),
            chunk::chunk_views(final(self).chunks@) == elsewhere(
                chunk::chunk_views(old(self).chunks@),
                path@,
                old(self).chunks@.len() as int,
            ) + chunk::chunk_views(cs@),
            final(self).stats == old(self).stats,
            final(self).mappings == old(self).mappings,
            final(self).retrieves == old(self).retrieves,
            final(self).links == old(self).links,
    {
        self.remove_path(path);
        let ghost base = self.chunks@;
        let mut more: Vec<MemoryChunk> = copy_chunks(cs);
        self.chunks.append(&mut more);
        proof {
            assert(self.chunks@ =~= base + cs@);
            assert(chunk::chunk_views(self.chunks@) =~= chunk::chunk_views(base)
                + chunk::chunk_views(cs@));
        }
    }

    /// Drops the chunks of one file.
    pub fn remove_path(&mut self, path: &str)
        requires
            old(self).wf(),
        ensures
            final(self).wf(),
            chunk::chunk_views(final(self).chunks@) == elsewhere(
                chunk::chunk_views(old(self).chunks@),
                path@,
                old(self).chunks@.len() as int,
            ),
            final(self).stats == old(self).stats,
            final(self).mappings == old(self).mappings,
            final(self).retrieves == old(self).retrieves,
            final(self).links == old(self).links,
    {
        let ghost cv = chunk::chunk_views(self.chunks@);
        let mut out: Vec<MemoryChunk> = Vec::new();
        let mut i: usize = 0;
        assert(chunk::chunk_views(out@) =~= elsewhere(cv, path@, 0));
        while i < self.chunks.len()
            invariant
                *self == *old(self),
                i <= self.chunks@.len(),
                cv == chunk::chunk_views(self.chunks@),
                chunk::chunk_views(out@) == elsewhere(cv, path@, i as int),
            decreases self.chunks@.len() - i,
        {
            let ghost before = chunk::chunk_views(out@);
            assert(cv[i as int] == self.chunks@[i as int]@);
            if !same_text(self.chunks[i].path.as_str(), path) {
                out.push(self.chunks[i].clone());
                assert(chunk::chunk_views(out@) =~= before.push(cv[i as int]));
            }
            i = i + 1;
        }
        self.chunks = out;
    }

    /// The indexed chunks of the curated file.
    pub fn curated_chunks(&self) -> (r: Vec<MemoryChunk>)
        ensures
            chunk::chunk_views(r@) == consolidate::curated_only(
                chunk::chunk_views(self.chunks@),
                self.chunks@.len() as int,
            ),
    {
        let (curated, _daily) = consolidate::split_sources(&self.chunks);
        curated
    }
}

/// The mappings whose chunk is listed.
fn keep_mappings(ms: &Vec<Mapping>, ks: &Vec<String>) -> (r: Vec<Mapping>)
    ensures
        mapping_views(r@) == listed_mappings(
            mapping_views(ms@),
            text::views(ks@),
            ms@.len() as int,
        ),
{
    let ghost mv = mapping_views(ms@);
    let ghost kv = text::views(ks@);
    let mut out: Vec<Mapping> = Vec::new();
    let mut i: usize = 0;
    assert(mapping_views(out@) =~= listed_mappings(mv, kv, 0));
    while i < ms.len()
        invariant
            i <= ms@.len(),
            mv == mapping_views(ms@),
            kv == text::views(ks@),
            mapping_views(out@) == listed_mappings(mv, kv, i as int),
        decreases ms@.len() - i,
    {
        let ghost before = mapping_views(out@);
        assert(mv[i as int] == ms@[i as int]@);
        if holds_text(ks, ms[i].chunk_key.as_str()) {
            let m = Mapping {
                content_key: ms[i].content_key.clone(),
                chunk_key: ms[i].chunk_key.clone(),
                similarity: ms[i].similarity,
                last_mapped: ms[i].last_mapped,
            };
            out.push(m);
            assert(mapping_views(out@) =~= before.push(mv[i as int]));
        }
        i = i + 1;
    }
    out
}

// ---------------------------------------------------------------------------
// Retrieves
// ---------------------------------------------------------------------------

/// The retrieves after one more of a content.
pub open spec fn retrieved(m: Map<Seq<char>, Retrieve>, key: Seq<char>, now_ms: i64) -> Map<
    Seq<char>,
    Retrieve,
> {
    m.insert(
        key,
        (Retrieve {
            count: if m.dom().contains(key) {
                (m[key].count + 1) as u64
            } else {
                1
            },
            last_ms: now_ms,
        }),
    )
}

/// The first of the mappings of a content to a chunk, or -1.
pub open spec fn mapping_place(ms: Seq<MappingView>, ck: Seq<char>, k: Seq<char>, from: int) -> int
    decreases ms.len() - from,
{
    if from >= ms.len() {
        -1
    } else if ms[from].content_key == ck && ms[from].chunk_key == k {
        from
    } else {
        mapping_place(ms, ck, k, from + 1)
    }
}

/// The mappings after one of a content to a chunk is found.
pub open spec fn mapped(ms: Seq<MappingView>, m: MappingView) -> Seq<MappingView> {
    let p = mapping_place(ms, m.content_key, m.chunk_key, 0);
    if p < 0 {
        ms.push(m)
    } else {
        ms.update(p, m)
    }
}

/// The mappings after the first `n` found ones of a content.
pub open spec fn all_mapped(
    ms: Seq<MappingView>,
    ck: Seq<char>,
    found: Seq<(String, Score)>,
    n: int,
    now_ms: i64,
) -> Seq<MappingView>
    decreases n,
{
    if n <= 0 {
        ms
    } else {
        mapped(
            all_mapped(ms, ck, found, n - 1, now_ms),
            MappingView {
                content_key: ck,
                chunk_key: found[n - 1].0@,
                similarity: found[n - 1].1,
                last_mapped: now_ms as int,
            },
        )
    }
}

/// The retrieves of the contents that the first `n` mappings map to a chunk, if
/// there are any.
pub open spec fn hits(
    ms: Seq<MappingView>,
    m: Map<Seq<char>, Retrieve>,
    k: Seq<char>,
    n: int,
) -> Option<nat>
    decreases n,
{
    if n <= 0 {
        None
    } else {
        let prev = hits(ms, m, k, n - 1);
        if ms[n - 1].chunk_key == k && m.dom().contains(ms[n - 1].content_key) {
            Some(
                (match prev {
                    Some(x) => x,
                    None => 0,
                }) + m[ms[n - 1].content_key].count as nat,
            )
        } else {
            prev
        }
    }
}

/// The retrieves of the chunks among the first `n` keys that have any.
pub open spec fn all_hits(
    ms: Seq<MappingView>,
    m: Map<Seq<char>, Retrieve>,
    ks: Seq<Seq<char>>,
    n: int,
) -> Seq<(Seq<char>, nat)>
    decreases n,
{
    if n <= 0 {
        Seq::empty()
    } else {
        let prev = all_hits(ms, m, ks, n - 1);
        match hits(ms, m, ks[n - 1], ms.len() as int) {
            Some(x) => prev.push((ks[n - 1], x)),
            None => prev,
        }
    }
}

/// Pairs of a key and a number.
pub open spec fn count_views(s: Seq<(String, u64)>) -> Seq<(Seq<char>, nat)> {
    Seq::new(s.len(), |i: int| (s[i].0@, s[i].1 as nat))
}

impl Fts5Index {
    /// Records that the original of a compacted result was pulled back.
    pub fn record_retrieve_at(&mut self, content_key: &str, now_ms: i64)
        requires
            old(self).wf(),
            old(self).retrieves@.dom().contains(content_key@)
                ==> old(self).retrieves@[content_key@].count < u64::MAX,
        ensures
            final(self).wf(),
            final(self).retrieves@ == retrieved(old(self).retrieves@, content_key@, now_ms),
            final(self).chunks == old(self).chunks,
            final(self).stats == old(self).stats,
            final(self).mappings == old(self).mappings,
            final(self).links == old(self).links,
    {
        let count: u64 = match self.retrieves.get(content_key) {
            Some(r) => r.count + 1,
            None => 1,
        };
        self.retrieves.put(content_key, Retrieve { count, last_ms: now_ms });
    }

    /// How often the original of a content was pulled back.
    pub fn retrieve_count(&self, content_key: &str) -> (r: u64)
        requires
            self.wf(),
        ensures
            r == (if self.retrieves@.dom().contains(content_key@) {
                self.retrieves@[content_key@].count
            } else {
                0
            }),
    {
        match self.retrieves.get(content_key) {
            Some(r) => r.count,
            None => 0,
        }
    }

    /// Records which chunks a retrieved content overlaps with.
    pub fn map_retrieve_to_chunks_at(
        &mut self,
        content_key: &str,
        found: &Vec<(String, Score)>,
        now_ms: i64,
    )
        requires
            old(self).wf(),
        ensures
            final(self).wf(),
            mapping_views(final(self).mappings@) == all_mapped(
                mapping_views(old(self).mappings@),
                content_key@,
                found@,
                found@.len() as int,
                now_ms,
            ),
            final(self).chunks == old(self).chunks,
            final(self).stats == old(self).stats,
            final(self).retrieves == old(self).retrieves,
            final(self).links == old(self).links,
    {
        let ghost base = mapping_views(self.mappings@);
        let mut i: usize = 0;
        while i < found.len()
            invariant
                i <= found@.len(),
                self.wf(),
                self.chunks == old(self).chunks,
                self.stats == old(self).stats,
                self.retrieves == old(self).retrieves,
                self.links == old(self).links,
                mapping_views(self.mappings@) == all_mapped(
                    base,
                    content_key@,
                    found@,
                    i as int,
                    now_ms,
                ),
            decreases found@.len() - i,
        {
            let ghost cur = mapping_views(self.mappings@);
            let m = Mapping {
                content_key: content_key.to_owned(),
                chunk_key: found[i].0.clone(),
                similarity: found[i].1,
                last_mapped: now_ms,
            };
            let ghost mv = m@;
            let mut p: usize = 0;
            while p < self.mappings.len() && !(same_text(
                self.mappings[p].content_key.as_str(),
                content_key,
            ) && same_text(self.mappings[p].chunk_key.as_str(), found[i].0.as_str()))
                invariant
                    i < found@.len(),
                    p <= self.mappings@.len(),
                    cur == mapping_views(self.mappings@),
                    mapping_place(cur, content_key@, found@[i as int].0@, 0) == mapping_place(
                        cur,
                        content_key@,
                        found@[i as int].0@,
                        p as int,
                    ),
                decreases self.mappings@.len() - p,
            {
                assert(cur[p as int] == self.mappings@[p as int]@);
                p = p + 1;
            }
            if p < self.mappings.len() {
                assert(cur[p as int] == self.mappings@[p as int]@);
                self.mappings.set(p, m);
                assert(mapping_views(self.mappings@) =~= cur.update(p as int, mv));
            } else {
                self.mappings.push(m);
                assert(mapping_views(self.mappings@) =~= cur.push(mv));
            }
            proof {
                assert(mapping_views(self.mappings@) =~= mapped(cur, mv));
            }
            i = i + 1;
        }
    }

    /// How often the contents that overlap with a chunk were pulled back, for
    /// the chunks that have such a content.
    pub fn chunk_retrieve_hits(&self, chunk_keys: &Vec<String>) -> (r: Vec<(String, u64)>)
        requires
            self.wf(),
            forall|k: Seq<char>|
                match #[trigger] hits(
                    mapping_views(self.mappings@),
                    self.retrieves@,
                    k,
                    self.mappings@.len() as int,
                ) {
                    Some(x) => x <= u64::MAX,
                    None => true,
                },
        ensures
            count_views(r@) == all_hits(
                mapping_views(self.mappings@),
                self.retrieves@,
                text::views(chunk_keys@),
                chunk_keys@.len() as int,
            ),
    {
        let ghost mv = mapping_views(self.mappings@);
        let ghost rm = self.retrieves@;
        let ghost kv = text::views(chunk_keys@);
        let mut out: Vec<(String, u64)> = Vec::new();
        let mut i: usize = 0;
        assert(count_views(out@) =~= all_hits(mv, rm, kv, 0));
        while i < chunk_keys.len()
            invariant
                i <= chunk_keys@.len(),
                self.wf(),
                mv == mapping_views(self.mappings@),
                rm == self.retrieves@,
                kv == text::views(chunk_keys@),
                forall|k: Seq<char>|
                    match #[trigger] hits(mv, rm, k, mv.len() as int) {
                        Some(x) => x <= u64::MAX,
                        None => true,
                    },
                count_views(out@) == all_hits(mv, rm, kv, i as int),
            decreases chunk_keys@.len() - i,
        {
            let ghost before = count_views(out@);
            let ghost k = kv[i as int];
            assert(k == chunk_keys@[i as int]@);
            let mut any: bool = false;
            let mut sum: u64 = 0;
            let mut j: usize = 0;
            while j < self.mappings.len()
                invariant
                    i < chunk_keys@.len(),
                    j <= self.mappings@.len(),
                    self.wf(),
                    mv == mapping_views(self.mappings@),
                    rm == self.retrieves@,
                    k == chunk_keys@[i as int]@,
                    any ==> hits(mv, rm, k, j as int) == Some(sum as nat),
                    !any ==> hits(mv, rm, k, j as int) is None && sum == 0,
                    match hits(mv, rm, k, mv.len() as int) {
                        Some(x) => x <= u64::MAX,
                        None => true,
                    },
                decreases self.mappings@.len() - j,
            {
                assert(mv[j as int] == self.mappings@[j as int]@);
                if same_text(self.mappings[j].chunk_key.as_str(), chunk_keys[i].as_str()) {
                    if let Some(r) = self.retrieves.get(self.mappings[j].content_key.as_str()) {
                        proof {
                            lemma_hits_grow(mv, rm, k, j + 1, mv.len() as int);
                        }
                        sum = sum + r.count;
                        any = true;
                    }
                }
                j = j + 1;
            }
            if any {
                out.push((chunk_keys[i].clone(), sum));
                assert(count_views(out@) =~= before.push((k, sum as nat)));
            }
            i = i + 1;
        }
        out
    }
}

proof fn lemma_hits_grow(
    ms: Seq<MappingView>,
    m: Map<Seq<char>, Retrieve>,
    k: Seq<char>,
    a: int,
    b: int,
)
    requires
        0 <= a <= b <= ms.len(),
    ensures
        hits(ms, m, k, a) is Some ==> hits(ms, m, k, b) is Some && hits(ms, m, k, a)->0 <= hits(
            ms,
            m,
            k,
            b,
        )->0,
    decreases b - a,
{
    if a < b {
        lemma_hits_grow(ms, m, k, a, b - 1);
    }
}

// ---------------------------------------------------------------------------
// Edges
// ---------------------------------------------------------------------------

/// Whether two edges have the same ends and say the same.
pub open spec fn same_edge(a: LinkView, b: LinkView) -> bool {
    a.from_key == b.from_key && a.to_key == b.to_key && a.kind == b.kind
}

/// The first edge like `l` from `from` on, or -1.
pub open spec fn link_place(ls: Seq<LinkView>, l: LinkView, from: int) -> int
    decreases ls.len() - from,
{
    if from >= ls.len() {
        -1
    } else if same_edge(ls[from], l) {
        from
    } else {
        link_place(ls, l, from + 1)
    }
}

/// The edges after one is recorded: a repeated one takes the later time.
pub open spec fn linked(ls: Seq<LinkView>, l: LinkView) -> Seq<LinkView> {
    let p = link_place(ls, l, 0);
    if p < 0 {
        ls.push(l)
    } else {
        ls.update(p, l)
    }
}

/// The edge of a supersession.
pub open spec fn supersession_link(old_key: Seq<char>, new_key: Seq<char>, now_ms: i64) -> LinkView {
    LinkView {
        from_key: old_key,
        to_key: new_key,
        kind: "supersession"@,
        created_at: now_ms as int,
    }
}

/// The edges after the first `n` supersessions are recorded.
pub open spec fn all_linked(
    ls: Seq<LinkView>,
    edges: Seq<(Seq<char>, Seq<char>)>,
    n: int,
    now_ms: i64,
) -> Seq<LinkView>
    decreases n,
{
    if n <= 0 {
        ls
    } else {
        linked(
            all_linked(ls, edges, n - 1, now_ms),
            supersession_link(edges[n - 1].0, edges[n - 1].1, now_ms),
        )
    }
}

/// Whether edge `a` is listed no later than edge `b`: the newer first, then by
/// what they say, where they start and where they end.
pub open spec fn link_le(a: LinkView, b: LinkView) -> bool {
    if a.created_at != b.created_at {
        a.created_at > b.created_at
    } else if a.kind != b.kind {
        text::text_le(a.kind, b.kind)
    } else if a.from_key != b.from_key {
        text::text_le(a.from_key, b.from_key)
    } else {
        text::text_le(a.to_key, b.to_key)
    }
}

/// Whether the edges are listed in order.
pub open spec fn links_sorted(ls: Seq<LinkView>) -> bool {
    forall|i: int, j: int|
        0 <= i < j < ls.len() ==> link_le(#[trigger] ls[i], #[trigger] ls[j])
}

/// Whether edge `a` is listed no later than edge `b`.
fn link_no_later(a: &Link, b: &Link) -> (r: bool)
    ensures
        r == link_le(a@, b@),
{
    if a.created_at != b.created_at {
        a.created_at > b.created_at
    } else if !same_text(a.kind.as_str(), b.kind.as_str()) {
        text_no_later(a.kind.as_str(), b.kind.as_str())
    } else if !same_text(a.from_key.as_str(), b.from_key.as_str()) {
        text_no_later(a.from_key.as_str(), b.from_key.as_str())
    } else {
        text_no_later(a.to_key.as_str(), b.to_key.as_str())
    }
}

proof fn lemma_link_le(a: LinkView, b: LinkView, c: LinkView)
    ensures
        link_le(a, b) || link_le(b, a),
        link_le(a, b) && link_le(b, c) ==> link_le(a, c),
{
    text::lemma_text_le_total(a.kind, b.kind);
    text::lemma_text_le_total(a.from_key, b.from_key);
    text::lemma_text_le_total(a.to_key, b.to_key);
    text::lemma_text_le_total(b.kind, c.kind);
    text::lemma_text_le_total(b.from_key, c.from_key);
    text::lemma_text_le_total(a.kind, c.kind);
    text::lemma_text_le_total(a.from_key, c.from_key);
    if link_le(a, b) && link_le(b, c) {
        if text::text_le(a.kind, b.kind) && text::text_le(b.kind, c.kind) {
            text::lemma_text_le_trans(a.kind, b.kind, c.kind);
        }
        if text::text_le(a.from_key, b.from_key) && text::text_le(b.from_key, c.from_key) {
            text::lemma_text_le_trans(a.from_key, b.from_key, c.from_key);
        }
        if text::text_le(a.to_key, b.to_key) && text::text_le(b.to_key, c.to_key) {
            text::lemma_text_le_trans(a.to_key, b.to_key, c.to_key);
        }
    }
}

/// Puts an edge at its place in the order.
fn insert_link(out: &mut Vec<Link>, l: Link)
    requires
        links_sorted(link_views(old(out)@)),
    ensures
        links_sorted(link_views(final(out)@)),
        final(out)@.to_multiset() =~= old(out)@.to_multiset().insert(l),
{
    let ghost had = out@;
    let ghost hv = link_views(had);
    let ghost lv = l@;
    let mut at: usize = out.len();
    while at > 0 && !link_no_later(&out[at - 1], &l)
        invariant
            out@ == had,
            hv == link_views(had),
            lv == l@,
            at <= out@.len(),
            links_sorted(hv),
            forall|j: int| at <= j < hv.len() ==> link_le(lv, #[trigger] hv[j]),
        decreases at,
    {
        proof {
            assert(hv[at - 1] == out@[at - 1]@);
            lemma_link_le(hv[at - 1], lv, lv);
        }
        at = at - 1;
    }
    proof {
        assert forall|j: int| 0 <= j < at implies link_le(#[trigger] hv[j], lv) by {
            assert(hv[at - 1] == had[at - 1]@);
            if j < at - 1 {
                assert(link_le(hv[j], hv[at - 1]));
                lemma_link_le(hv[j], hv[at - 1], lv);
            }
        }
    }
    out.insert(at, l);
    proof {
        broadcast use vstd::seq_lib::group_to_multiset_ensures;

        let now = link_views(out@);
        assert(out@ =~= had.insert(at as int, l));
        assert(now =~= hv.insert(at as int, lv));
        assert forall|i: int, j: int| 0 <= i < j < now.len() implies link_le(
            #[trigger] now[i],
            #[trigger] now[j],
        ) by {
            if j == at {
                assert(now[i] == hv[i]);
            } else if i == at {
                assert(now[j] == hv[j - 1]);
            } else {
                let x = if i < at {
                    i
                } else {
                    i - 1
                };
                let y = if j < at {
                    j
                } else {
                    j - 1
                };
                assert(now[i] == hv[x]);
                assert(now[j] == hv[y]);
            }
        }
    }
}

impl Fts5Index {
    /// Records an edge. A repeated one takes the later time.
    pub fn record_link_at(&mut self, from_key: &str, to_key: &str, kind: &str, now_ms: i64)
        requires
            old(self).wf(),
        ensures
            final(self).wf(),
            link_views(final(self).links@) == linked(
                link_views(old(self).links@),
                (LinkView {
                    from_key: from_key@,
                    to_key: to_key@,
                    kind: kind@,
                    created_at: now_ms as int,
                }),
            ),
            final(self).chunks == old(self).chunks,
            final(self).stats == old(self).stats,
            final(self).retrieves == old(self).retrieves,
            final(self).mappings == old(self).mappings,
    {
        let ghost cur = link_views(self.links@);
        let l = Link {
            from_key: from_key.to_owned(),
            to_key: to_key.to_owned(),
            kind: kind.to_owned(),
            created_at: now_ms,
        };
        let ghost lv = l@;
        let mut p: usize = 0;
        while p < self.links.len() && !(same_text(self.links[p].from_key.as_str(), from_key)
            && same_text(self.links[p].to_key.as_str(), to_key) && same_text(
            self.links[p].kind.as_str(),
            kind,
        ))
            invariant
                p <= self.links@.len(),
                cur == link_views(self.links@),
                lv.from_key == from_key@,
                lv.to_key == to_key@,
                lv.kind == kind@,
                link_place(cur, lv, 0) == link_place(cur, lv, p as int),
            decreases self.links@.len() - p,
        {
            assert(cur[p as int] == self.links@[p as int]@);
            p = p + 1;
        }
        if p < self.links.len() {
            assert(cur[p as int] == self.links@[p as int]@);
            self.links.set(p, l);
            assert(link_views(self.links@) =~= cur.update(p as int, lv));
        } else {
            self.links.push(l);
            assert(link_views(self.links@) =~= cur.push(lv));
        }
    }

    /// The edges that start at a chunk, the newest first.
    pub fn links_from(&self, key: &str) -> (r: Vec<Link>)
        ensures
            links_sorted(link_views(r@)),
            r@.to_multiset() =~= self.links@.filter(|l: Link| l.from_key@ == key@).to_multiset(),
    {
        let ghost keep = |l: Link| l.from_key@ == key@;
        let mut out: Vec<Link> = Vec::new();
        let mut i: usize = 0;
        proof {
            reveal(Seq::filter);
            assert(self.links@.take(0).filter(keep) =~= Seq::<Link>::empty());
        }
        while i < self.links.len()
            invariant
                i <= self.links@.len(),
                keep == (|l: Link| l.from_key@ == key@),
                links_sorted(link_views(out@)),
                out@.to_multiset() =~= self.links@.take(i as int).filter(keep).to_multiset(),
            decreases self.links@.len() - i,
        {
            proof {
                broadcast use vstd::seq_lib::group_to_multiset_ensures;

                reveal(Seq::filter);
                assert(self.links@.take(i + 1).drop_last() =~= self.links@.take(i as int));
            }
            if same_text(self.links[i].from_key.as_str(), key) {
                let l: Link = self.links[i].clone();
                insert_link(&mut out, l);
                proof {
                    broadcast use vstd::seq_lib::group_to_multiset_ensures;

                    assert(self.links@.take(i + 1).filter(keep) =~= self.links@.take(
                        i as int,
                    ).filter(keep).push(self.links@[i as int]));
                }
            }
            i = i + 1;
        }
        proof {
            assert(self.links@.take(i as int) =~= self.links@);
        }
        out
    }

    /// The edges that end at a chunk, the newest first.
    pub fn links_to(&self, key: &str) -> (r: Vec<Link>)
        ensures
            links_sorted(link_views(r@)),
            r@.to_multiset() =~= self.links@.filter(|l: Link| l.to_key@ == key@).to_multiset(),
    {
        let ghost keep = |l: Link| l.to_key@ == key@;
        let mut out: Vec<Link> = Vec::new();
        let mut i: usize = 0;
        proof {
            reveal(Seq::filter);
            assert(self.links@.take(0).filter(keep) =~= Seq::<Link>::empty());
        }
        while i < self.links.len()
            invariant
                i <= self.links@.len(),
                keep == (|l: Link| l.to_key@ == key@),
                links_sorted(link_views(out@)),
                out@.to_multiset() =~= self.links@.take(i as int).filter(keep).to_multiset(),
            decreases self.links@.len() - i,
        {
            proof {
                broadcast use vstd::seq_lib::group_to_multiset_ensures;

                reveal(Seq::filter);
                assert(self.links@.take(i + 1).drop_last() =~= self.links@.take(i as int));
            }
            if same_text(self.links[i].to_key.as_str(), key) {
                let l: Link = self.links[i].clone();
                insert_link(&mut out, l);
                proof {
                    broadcast use vstd::seq_lib::group_to_multiset_ensures;

                    assert(self.links@.take(i + 1).filter(keep) =~= self.links@.take(
                        i as int,
                    ).filter(keep).push(self.links@[i as int]));
                }
            }
            i = i + 1;
        }
        proof {
            assert(self.links@.take(i as int) =~= self.links@);
        }
        out
    }

    /// Records an edge for each supersession of a pass; their number is
    /// returned.
    pub fn record_supersession_edges(&mut self, report: &ConsolidationReport, now_ms: i64) -> (r:
        usize)
        requires
            old(self).wf(),
        ensures
            final(self).wf(),
            r == report.superseded@.len(),
            link_views(final(self).links@) == all_linked(
                link_views(old(self).links@),
                consolidate::edge_views(report.superseded@),
                report.superseded@.len() as int,
                now_ms,
            ),
            final(self).chunks == old(self).chunks,
            final(self).stats == old(self).stats,
            final(self).retrieves == old(self).retrieves,
            final(self).mappings == old(self).mappings,
    {
        let ghost base = link_views(self.links@);
        let ghost ev = consolidate::edge_views(report.superseded@);
        let n: usize = report.superseded.len();
        let mut i: usize = 0;
        while i < n
            invariant
                i <= n,
                n == report.superseded@.len(),
                ev == consolidate::edge_views(report.superseded@),
                self.wf(),
                self.chunks == old(self).chunks,
                self.stats == old(self).stats,
                self.retrieves == old(self).retrieves,
                self.mappings == old(self).mappings,
                link_views(self.links@) == all_linked(base, ev, i as int, now_ms),
            decreases n - i,
        {
            let e: &Supersession = &report.superseded[i];
            self.record_link_at(
                e.superseded_key.as_str(),
                e.superseded_by.as_str(),
                "supersession",
                now_ms,
            );
            i = i + 1;
        }
        n
    }
}

proof fn lemma_link_place(ls: Seq<LinkView>, l: LinkView, from: int)
    requires
        0 <= from,
    ensures
        link_place(ls, l, from) < ls.len(),
        link_place(ls, l, from) >= 0 ==> link_place(ls, l, from) >= from && same_edge(
            ls[link_place(ls, l, from)],
            l,
        ),
        link_place(ls, l, from) < 0 ==> forall|i: int|
            from <= i < ls.len() ==> !same_edge(#[trigger] ls[i], l),
    decreases ls.len() - from,
{
    if from < ls.len() && !same_edge(ls[from], l) {
        lemma_link_place(ls, l, from + 1);
    }
}

/// Whether no two edges have the same ends and say the same.
pub open spec fn edges_distinct(ls: Seq<LinkView>) -> bool {
    forall|i: int, j: int|
        0 <= i < j < ls.len() ==> !same_edge(#[trigger] ls[i], #[trigger] ls[j])
}

/// Recording an edge keeps the others, holds it once with the time of the last
/// recording, and recording it again with the same time changes nothing.
pub proof fn law_recording_a_link_is_idempotent(ls: Seq<LinkView>, l: LinkView)
    requires
        edges_distinct(ls),
    ensures
        edges_distinct(linked(ls, l)),
        linked(ls, l).contains(l),
        linked(linked(ls, l), l) == linked(ls, l),
        forall|x: LinkView|
            !same_edge(x, l) ==> (#[trigger] linked(ls, l).contains(x) <==> ls.contains(x)),
{
    lemma_link_place(ls, l, 0);
    let p = link_place(ls, l, 0);
    let out = linked(ls, l);
    let q = if p < 0 {
        ls.len() as int
    } else {
        p
    };
    assert(out[q] == l);
    assert forall|i: int, j: int| 0 <= i < j < out.len() implies !same_edge(
        #[trigger] out[i],
        #[trigger] out[j],
    ) by {
        if i != q && j != q {
            assert(out[i] == ls[i] && out[j] == ls[j]);
        } else if p >= 0 {
            let o = if i == q {
                j
            } else {
                i
            };
            assert(out[o] == ls[o]);
            if o < p {
                assert(!same_edge(ls[o], ls[p]));
            } else {
                assert(!same_edge(ls[p], ls[o]));
            }
        } else {
            assert(out[i] == ls[i]);
        }
    }
    lemma_link_place(out, l, 0);
    let r = link_place(out, l, 0);
    if r < 0 {
        assert(same_edge(out[q], l));
    } else if r < q {
        assert(!same_edge(out[r], out[q]));
    } else if q < r {
        assert(!same_edge(out[q], out[r]));
    }
    assert(linked(out, l) =~= out);
    assert forall|x: LinkView| !same_edge(x, l) implies (#[trigger] out.contains(x) <==> ls.contains(
        x,
    )) by {
        if out.contains(x) {
            let i = choose|i: int| 0 <= i < out.len() && out[i] == x;
            assert(i != q);
            assert(ls[i] == x);
        }
        if ls.contains(x) {
            let i = choose|i: int| 0 <= i < ls.len() && ls[i] == x;
            assert(out[i] == x);
        }
    }
}

/// Statistics of chunks that are still there survive a rebuild of the index;
/// those of other chunks go.
pub proof fn law_rebuild_keeps_live_statistics(
    m: stats::StatMap,
    cs: Seq<ChunkView>,
    k: Seq<char>,
)
    ensures
        ({
            let after = m.restrict(Set::new(|x: Seq<char>| keys_of(cs).contains(x)));
            &&& keys_of(cs).contains(k) && m.dom().contains(k) ==> after.dom().contains(k) && after[k]
                == m[k]
            &&& !keys_of(cs).contains(k) ==> !after.dom().contains(k)
        }),
{
}

} // verus!
