//! Usage statistics of chunks: weights, accesses, pins and suppression.
use vstd::prelude::*;
use vstd::string::*;
use crate::memory::config::{DecayConfig, Score, SCORE_ONE, SCORE_ZERO};
use crate::memory::keys;
use crate::memory::keys::content_key_of;
use crate::table::Table;
use crate::text;
use crate::text::same_text;

verus! {

/// The statistics of one chunk.
#[derive(Debug, Clone, Copy, PartialEq, Eq)]
pub struct ChunkStat {
    /// The weight as of the last access.
    pub weight: Score,
    /// When the chunk was last accessed, in milliseconds since 1970.
    pub last_accessed_ms: i64,
    /// How often it was accessed.
    pub access_count: i64,
    /// Whether it is pinned.
    pub pinned: bool,
    /// Whether it is kept from promotion.
    pub suppress_promotion: bool,
}

/// The statistics of a chunk as of now: its weight, decayed.
#[derive(Debug, Clone, Copy, PartialEq, Eq)]
pub struct EffectiveStat {
    /// The weight as of now.
    pub weight: Score,
    /// When the chunk was last accessed.
    pub last_accessed_ms: i64,
}

/// All that a display shows of a chunk's statistics.
#[derive(Debug, Clone, Copy, PartialEq, Eq)]
pub struct ChunkStatSnapshot {
    /// The weight as of now.
    pub weight: Score,
    /// When the chunk was last accessed.
    pub last_accessed_ms: i64,
    /// How often it was accessed.
    pub access_count: u32,
    /// Whether it is pinned.
    pub pinned: bool,
    /// Whether it is dormant.
    pub dormant: bool,
}

/// Statistics by chunk key.
pub type StatMap = Map<Seq<char>, ChunkStat>;

/// The statistics of all chunks that were ever recalled, pinned, woken, put to
/// sleep or suppressed.
pub struct ChunkStats {
    /// The rows.
    pub table: Table<ChunkStat>,
    /// The decay settings.
    pub decay: DecayConfig,
}

impl View for ChunkStats {
    type V = StatMap;

    open spec fn view(&self) -> StatMap {
        self.table@
    }
}

/// A row that starts at that weight and time.
pub open spec fn fresh(weight: Score, now_ms: i64) -> ChunkStat {
    ChunkStat {
        weight,
        last_accessed_ms: now_ms,
        access_count: 0,
        pinned: false,
        suppress_promotion: false,
    }
}

/// A row after one more access that leaves it at `weight`.
pub open spec fn accessed(row: ChunkStat, weight: Score, now_ms: i64) -> ChunkStat {
    ChunkStat {
        weight,
        last_accessed_ms: now_ms,
        access_count: (row.access_count + 1) as i64,
        ..row
    }
}

/// The statistics after a recall of `key`: a first recall starts a row at full
/// weight; a later one leaves the row at `lifted`, or at its weight where decay
/// is off.
pub open spec fn recalled(
    m: StatMap,
    enabled: bool,
    key: Seq<char>,
    lifted: Score,
    now_ms: i64,
) -> StatMap {
    if m.dom().contains(key) {
        m.insert(
            key,
            accessed(
                m[key],
                if enabled {
                    lifted
                } else {
                    m[key].weight
                },
                now_ms,
            ),
        )
    } else {
        m.insert(key, (ChunkStat { access_count: 1, ..fresh(SCORE_ONE, now_ms) }))
    }
}

/// The statistics after an ambient injection of `key`: nothing changes where
/// decay or the ambient gain is off, or where the chunk was never recalled.
pub open spec fn injected(
    m: StatMap,
    decay: DecayConfig,
    key: Seq<char>,
    lifted: Score,
    now_ms: i64,
) -> StatMap {
    if decay.enabled && decay.ambient_gain > 0 && m.dom().contains(key) {
        m.insert(key, accessed(m[key], lifted, now_ms))
    } else {
        m
    }
}

/// The row of `key`, or a fresh one at full weight.
pub open spec fn row_or_fresh(m: StatMap, key: Seq<char>, now_ms: i64) -> ChunkStat {
    if m.dom().contains(key) {
        m[key]
    } else {
        fresh(SCORE_ONE, now_ms)
    }
}

/// The statistics after `key` is woken: full weight as of now.
pub open spec fn woken(m: StatMap, key: Seq<char>, now_ms: i64) -> StatMap {
    m.insert(
        key,
        (ChunkStat {
            weight: SCORE_ONE,
            last_accessed_ms: now_ms,
            ..row_or_fresh(m, key, now_ms)
        }),
    )
}

/// The statistics after `key` is put to sleep: weight 0, its last access kept.
pub open spec fn asleep(m: StatMap, key: Seq<char>, now_ms: i64) -> StatMap {
    m.insert(key, (ChunkStat { weight: SCORE_ZERO, ..row_or_fresh(m, key, now_ms) }))
}

/// The statistics after the pin of `key` is set.
pub open spec fn pin_set(m: StatMap, key: Seq<char>, pinned: bool, now_ms: i64) -> StatMap {
    m.insert(key, (ChunkStat { pinned, ..row_or_fresh(m, key, now_ms) }))
}

/// The statistics after the suppression of `key` is set.
pub open spec fn suppression_set(m: StatMap, key: Seq<char>, suppress: bool, now_ms: i64) -> StatMap {
    m.insert(
        key,
        (ChunkStat { suppress_promotion: suppress, ..row_or_fresh(m, key, now_ms) }),
    )
}

/// Whether one of the keys has the content part of `k`.
pub open spec fn shares_content(ks: Seq<Seq<char>>, k: Seq<char>) -> bool {
    exists|i: int| 0 <= i < ks.len() && keys::content_part(#[trigger] ks[i]) == keys::content_part(k)
}

/// The statistics with suppression lifted wherever the content is that of one
/// of the keys.
pub open spec fn rehabilitated(m: StatMap, ks: Seq<Seq<char>>) -> StatMap {
    Map::new(
        |k: Seq<char>| m.dom().contains(k),
        |k: Seq<char>|
            if shares_content(ks, k) {
                ChunkStat { suppress_promotion: false, ..m[k] }
            } else {
                m[k]
            },
    )
}

/// The statistics after one more access of each of the first `n` keys that has
/// a row; `lifted` gives the weights, which stay where decay is off.
pub open spec fn bumped(
    m: StatMap,
    enabled: bool,
    ks: Seq<Seq<char>>,
    lifted: Seq<Score>,
    n: int,
    now_ms: i64,
) -> StatMap
    decreases n,
{
    if n <= 0 {
        m
    } else {
        let p = bumped(m, enabled, ks, lifted, n - 1, now_ms);
        let k = ks[n - 1];
        if p.dom().contains(k) {
            p.insert(
                k,
                accessed(
                    p[k],
                    if enabled {
                        lifted[n - 1]
                    } else {
                        p[k].weight
                    },
                    now_ms,
                ),
            )
        } else {
            p
        }
    }
}

/// The statistics after a success that touched those keys.
pub open spec fn rewarded(
    m: StatMap,
    enabled: bool,
    ks: Seq<Seq<char>>,
    lifted: Seq<Score>,
    now_ms: i64,
) -> StatMap {
    bumped(rehabilitated(m, ks), enabled, ks, lifted, ks.len() as int, now_ms)
}

/// Whether every row can take `n` more accesses.
pub open spec fn has_room(m: StatMap, n: int) -> bool {
    forall|k: Seq<char>| #[trigger] m.dom().contains(k) ==> m[k].access_count + n <= i64::MAX
}

/// The effective statistics of the first `n` keys that have a row; `decayed`
/// gives the weights as of now, and a pinned chunk weighs 1.
pub open spec fn effective(
    m: StatMap,
    ks: Seq<Seq<char>>,
    decayed: Seq<Score>,
    n: int,
) -> Seq<(Seq<char>, EffectiveStat)>
    decreases n,
{
    if n <= 0 {
        Seq::empty()
    } else {
        let prev = effective(m, ks, decayed, n - 1);
        let k = ks[n - 1];
        if m.dom().contains(k) {
            prev.push(
                (
                    k,
                    EffectiveStat {
                        weight: if m[k].pinned {
                            SCORE_ONE
                        } else {
                            decayed[n - 1]
                        },
                        last_accessed_ms: m[k].last_accessed_ms,
                    },
                ),
            )
        } else {
            prev
        }
    }
}

/// What a display shows of a row whose decayed weight is given.
pub open spec fn snapshot_of(row: ChunkStat, decay: DecayConfig, decayed: Score) -> ChunkStatSnapshot {
    let weight = if row.pinned {
        SCORE_ONE
    } else if decay.enabled {
        decayed
    } else {
        row.weight
    };
    ChunkStatSnapshot {
        weight,
        last_accessed_ms: row.last_accessed_ms,
        access_count: if row.access_count < 0 {
            0
        } else {
            row.access_count as u32
        },
        pinned: row.pinned,
        dormant: decay.enabled && !row.pinned && weight < decay.dormant_threshold,
    }
}

/// What a display shows of the first `n` keys that have a row.
pub open spec fn snapshots(
    m: StatMap,
    decay: DecayConfig,
    ks: Seq<Seq<char>>,
    decayed: Seq<Score>,
    n: int,
) -> Seq<(Seq<char>, ChunkStatSnapshot)>
    decreases n,
{
    if n <= 0 {
        Seq::empty()
    } else {
        let prev = snapshots(m, decay, ks, decayed, n - 1);
        let k = ks[n - 1];
        if m.dom().contains(k) {
            prev.push((k, snapshot_of(m[k], decay, decayed[n - 1])))
        } else {
            prev
        }
    }
}

/// Pairs of a key and a value as pairs of a text and a value.
pub open spec fn keyed_views<V>(s: Seq<(String, V)>) -> Seq<(Seq<char>, V)> {
    Seq::new(s.len(), |i: int| (s[i].0@, s[i].1))
}

impl ChunkStats {
    /// Whether no key has two rows.
    pub open spec fn wf(&self) -> bool {
        self.table.wf()
    }

    /// No statistics, under those settings.
    pub fn new(decay: DecayConfig) -> (r: Self)
        ensures
            r.wf(),
            r@ == Map::<Seq<char>, ChunkStat>::empty(),
            r.decay == decay,
    {
        ChunkStats { table: Table::new(), decay }
    }

    /// The row of a key.
    pub fn get(&self, key: &str) -> (r: Option<ChunkStat>)
        requires
            self.wf(),
        ensures
            match r {
                Some(v) => self@.dom().contains(key@) && v == self@[key@],
                None => !self@.dom().contains(key@),
            },
    {
        self.table.get(key)
    }

    /// Sets the row of a key, as when it is read from storage.
    pub fn put(&mut self, key: &str, row: ChunkStat)
        requires
            old(self).wf(),
        ensures
            final(self).wf(),
            final(self)@ == old(self)@.insert(key@, row),
            final(self).decay == old(self).decay,
    {
        self.table.put(key, row);
    }

    /// The keys that have a row.
    pub fn keys(&self) -> (r: Vec<String>)
        requires
            self.wf(),
        ensures
            text::views(r@).no_duplicates(),
            forall|k: Seq<char>|
                #[trigger] text::views(r@).contains(k) <==> self@.dom().contains(k),
    {
        self.table.keys()
    }

    /// Records a recall. `lifted` is the weight that the recall lifts the
    /// decayed weight to.
    pub fn reinforce_at(&mut self, key: &str, lifted: Score, now_ms: i64)
        requires
            old(self).wf(),
            old(self)@.dom().contains(key@) ==> old(self)@[key@].access_count < i64::MAX,
        ensures
            final(self).wf(),
            final(self)@ == recalled(old(self)@, old(self).decay.enabled, key@, lifted, now_ms),
            final(self).decay == old(self).decay,
    {
        let row: ChunkStat = match self.table.get(key) {
            None => ChunkStat {
                weight: SCORE_ONE,
                last_accessed_ms: now_ms,
                access_count: 1,
                pinned: false,
                suppress_promotion: false,
            },
            Some(r) => ChunkStat {
                weight: if self.decay.enabled {
                    lifted
                } else {
                    r.weight
                },
                last_accessed_ms: now_ms,
                access_count: r.access_count + 1,
                pinned: r.pinned,
                suppress_promotion: r.suppress_promotion,
            },
        };
        self.table.put(key, row);
    }

    /// Records that a chunk was injected into a turn that got a reply. `lifted`
    /// is the weight that this lifts the decayed weight to.
    pub fn reinforce_ambient_at(&mut self, key: &str, lifted: Score, now_ms: i64)
        requires
            old(self).wf(),
            old(self)@.dom().contains(key@) ==> old(self)@[key@].access_count < i64::MAX,
        ensures
            final(self).wf(),
            final(self)@ == injected(old(self)@, old(self).decay, key@, lifted, now_ms),
            final(self).decay == old(self).decay,
    {
        if !self.decay.enabled || self.decay.ambient_gain == 0 {
            return ;
        }
        if let Some(r) = self.table.get(key) {
            let row = ChunkStat {
                weight: lifted,
                last_accessed_ms: now_ms,
                access_count: r.access_count + 1,
                pinned: r.pinned,
                suppress_promotion: r.suppress_promotion,
            };
            self.table.put(key, row);
        }
    }

    /// The row of a key, or a fresh one at full weight.
    fn row_or_new(&self, key: &str, now_ms: i64) -> (r: ChunkStat)
        requires
            self.wf(),
        ensures
            r == row_or_fresh(self@, key@, now_ms),
    {
        match self.table.get(key) {
            Some(r) => r,
            None => ChunkStat {
                weight: SCORE_ONE,
                last_accessed_ms: now_ms,
                access_count: 0,
                pinned: false,
                suppress_promotion: false,
            },
        }
    }

    /// Wakes a chunk: its weight is 1 as of now.
    pub fn reset_chunk_at(&mut self, key: &str, now_ms: i64)
        requires
            old(self).wf(),
        ensures
            final(self).wf(),
            final(self)@ == woken(old(self)@, key@, now_ms),
            final(self).decay == old(self).decay,
    {
        let mut row: ChunkStat = self.row_or_new(key, now_ms);
        row.weight = SCORE_ONE;
        row.last_accessed_ms = now_ms;
        self.table.put(key, row);
    }

    /// Puts a chunk to sleep: its weight is 0, and its last access stays.
    pub fn sleep_chunk_at(&mut self, key: &str, now_ms: i64)
        requires
            old(self).wf(),
        ensures
            final(self).wf(),
            final(self)@ == asleep(old(self)@, key@, now_ms),
            final(self).decay == old(self).decay,
    {
        let mut row: ChunkStat = self.row_or_new(key, now_ms);
        row.weight = SCORE_ZERO;
        self.table.put(key, row);
    }

    /// Sets whether a chunk is pinned.
    pub fn set_chunk_pinned_at(&mut self, key: &str, pinned: bool, now_ms: i64)
        requires
            old(self).wf(),
        ensures
            final(self).wf(),
            final(self)@ == pin_set(old(self)@, key@, pinned, now_ms),
            final(self).decay == old(self).decay,
    {
        let mut row: ChunkStat = self.row_or_new(key, now_ms);
        row.pinned = pinned;
        self.table.put(key, row);
    }

    /// Sets whether a chunk is kept from promotion.
    pub fn set_suppress_promotion_at(&mut self, key: &str, suppress: bool, now_ms: i64)
        requires
            old(self).wf(),
        ensures
            final(self).wf(),
            final(self)@ == suppression_set(old(self)@, key@, suppress, now_ms),
            final(self).decay == old(self).decay,
    {
        let mut row: ChunkStat = self.row_or_new(key, now_ms);
        row.suppress_promotion = suppress;
        self.table.put(key, row);
    }

    /// Lifts the suppression of every chunk whose content is that of one of the
    /// keys.
    fn lift_suppression(&mut self, ks: &Vec<String>)
        requires
            old(self).wf(),
        ensures
            final(self).wf(),
            final(self)@ == rehabilitated(old(self)@, text::views(ks@)),
            final(self).decay == old(self).decay,
    {
        let ghost m = self@;
        let ghost kv = text::views(ks@);
        let ghost want = rehabilitated(m, kv);
        let all: Vec<String> = self.table.keys();
        let ghost av = text::views(all@);
        let mut i: usize = 0;
        while i < all.len()
            invariant
                i <= all@.len(),
                self.wf(),
                self.decay == old(self).decay,
                av == text::views(all@),
                av.no_duplicates(),
                kv == text::views(ks@),
                want == rehabilitated(m, kv),
                forall|k: Seq<char>| #[trigger] av.contains(k) <==> m.dom().contains(k),
                self@.dom() =~= m.dom(),
                forall|j: int| 0 <= j < i ==> self@[#[trigger] av[j]] == want[av[j]],
                forall|j: int| i <= j < av.len() ==> self@[#[trigger] av[j]] == m[av[j]],
            decreases all@.len() - i,
        {
            let ghost cur = self@;
            proof {
                assert(av[i as int] == all@[i as int]@);
                assert(av.contains(av[i as int]));
            }
            let found: bool = content_shared(ks, all[i].as_str());
            if let Some(r) = self.table.get(all[i].as_str()) {
                if found && r.suppress_promotion {
                    let row = ChunkStat {
                        weight: r.weight,
                        last_accessed_ms: r.last_accessed_ms,
                        access_count: r.access_count,
                        pinned: r.pinned,
                        suppress_promotion: false,
                    };
                    self.table.put(all[i].as_str(), row);
                    proof {
                        assert(self@ == cur.insert(av[i as int], row));
                        assert(self@.dom() =~= m.dom());
                    }
                }
            }
            proof {
                assert(self@[av[i as int]] == want[av[i as int]]);
                assert forall|j: int| 0 <= j < i + 1 implies self@[#[trigger] av[j]]
                    == want[av[j]] by {
                    if j < i {
                        assert(av[j] != av[i as int]);
                    }
                }
                assert forall|j: int| i + 1 <= j < av.len() implies self@[#[trigger] av[j]]
                    == m[av[j]] by {
                    assert(av[j] != av[i as int]);
                }
            }
            i = i + 1;
        }
        proof {
            assert(self@ =~= want) by {
                assert forall|k: Seq<char>| #[trigger] self@.dom().contains(k) implies self@[k]
                    == want[k] by {
                    assert(av.contains(k));
                    let j = choose|j: int| 0 <= j < av.len() && av[j] == k;
                    assert(self@[av[j]] == want[av[j]]);
                }
            }
        }
    }

    /// Records a success that touched those chunks: suppression is lifted from
    /// every chunk of their contents, and those that have a row are accessed
    /// once more. `lifted` gives the weights that the access lifts them to.
    pub fn reinforce_outcome_at(&mut self, ks: &Vec<String>, lifted: &Vec<Score>, now_ms: i64)
        requires
            old(self).wf(),
            lifted@.len() == ks@.len(),
            has_room(old(self)@, ks@.len() as int),
        ensures
            final(self).wf(),
            final(self)@ == rewarded(
                old(self)@,
                old(self).decay.enabled,
                text::views(ks@),
                lifted@,
                now_ms,
            ),
            final(self).decay == old(self).decay,
    {
        let ghost kv = text::views(ks@);
        let ghost en = self.decay.enabled;
        proof {
            assert(kv.len() == ks@.len());
        }
        self.lift_suppression(ks);
        let ghost base = self@;
        proof {
            assert(has_room(base, ks@.len() as int));
        }
        let mut i: usize = 0;
        while i < ks.len()
            invariant
                i <= ks@.len(),
                self.wf(),
                self.decay == old(self).decay,
                en == self.decay.enabled,
                kv == text::views(ks@),
                kv.len() == ks@.len(),
                lifted@.len() == ks@.len(),
                self@ == bumped(base, en, kv, lifted@, i as int, now_ms),
                has_room(self@, ks@.len() - i),
            decreases ks@.len() - i,
        {
            let ghost cur = self@;
            assert(kv[i as int] == ks@[i as int]@);
            if let Some(r) = self.table.get(ks[i].as_str()) {
                let row = ChunkStat {
                    weight: if self.decay.enabled {
                        lifted[i]
                    } else {
                        r.weight
                    },
                    last_accessed_ms: now_ms,
                    access_count: r.access_count + 1,
                    pinned: r.pinned,
                    suppress_promotion: r.suppress_promotion,
                };
                self.table.put(ks[i].as_str(), row);
                proof {
                    assert(self@ == cur.insert(kv[i as int], row));
                    assert forall|k: Seq<char>| #[trigger] self@.dom().contains(k) implies self@[k].access_count
                        + (ks@.len() - i - 1) <= i64::MAX by {
                        assert(cur.dom().contains(k));
                    }
                }
            }
            i = i + 1;
        }
    }

    /// Drops the statistics of chunks that no longer exist.
    pub fn sweep(&mut self, ks: &Vec<String>)
        requires
            old(self).wf(),
        ensures
            final(self).wf(),
            final(self)@ == old(self)@.restrict(
                Set::new(|k: Seq<char>| text::views(ks@).contains(k)),
            ),
            final(self).decay == old(self).decay,
    {
        self.table.retain(ks);
    }

    /// The effective statistics of the keys that have a row; none where decay is
    /// off. `decayed` gives the weights as of now.
    pub fn effective_stats(&self, ks: &Vec<String>, decayed: &Vec<Score>) -> (r: Vec<
        (String, EffectiveStat),
    >)
        requires
            self.wf(),
            decayed@.len() == ks@.len(),
        ensures
            keyed_views(r@) == (if self.decay.enabled {
                effective(self@, text::views(ks@), decayed@, ks@.len() as int)
            } else {
                Seq::empty()
            }),
    {
        let ghost kv = text::views(ks@);
        let mut out: Vec<(String, EffectiveStat)> = Vec::new();
        assert(keyed_views(out@) =~= Seq::empty());
        if !self.decay.enabled {
            return out;
        }
        let mut i: usize = 0;
        while i < ks.len()
            invariant
                i <= ks@.len(),
                self.wf(),
                kv == text::views(ks@),
                decayed@.len() == ks@.len(),
                keyed_views(out@) == effective(self@, kv, decayed@, i as int),
            decreases ks@.len() - i,
        {
            let ghost before = keyed_views(out@);
            assert(kv[i as int] == ks@[i as int]@);
            if let Some(r) = self.table.get(ks[i].as_str()) {
                let e = EffectiveStat {
                    weight: if r.pinned {
                        SCORE_ONE
                    } else {
                        decayed[i]
                    },
                    last_accessed_ms: r.last_accessed_ms,
                };
                out.push((ks[i].clone(), e));
                assert(keyed_views(out@) =~= before.push((kv[i as int], e)));
            }
            i = i + 1;
        }
        out
    }

    /// What a display shows of the keys that have a row, whether or not decay is
    /// on. `decayed` gives the weights as of now.
    pub fn chunk_stats_snapshot(&self, ks: &Vec<String>, decayed: &Vec<Score>) -> (r: Vec<
        (String, ChunkStatSnapshot),
    >)
        requires
            self.wf(),
            decayed@.len() == ks@.len(),
        ensures
            keyed_views(r@) == snapshots(
                self@,
                self.decay,
                text::views(ks@),
                decayed@,
                ks@.len() as int,
            ),
    {
        let ghost kv = text::views(ks@);
        let mut out: Vec<(String, ChunkStatSnapshot)> = Vec::new();
        let mut i: usize = 0;
        assert(keyed_views(out@) =~= snapshots(self@, self.decay, kv, decayed@, 0));
        while i < ks.len()
            invariant
                i <= ks@.len(),
                self.wf(),
                kv == text::views(ks@),
                decayed@.len() == ks@.len(),
                keyed_views(out@) == snapshots(self@, self.decay, kv, decayed@, i as int),
            decreases ks@.len() - i,
        {
            let ghost before = keyed_views(out@);
            assert(kv[i as int] == ks@[i as int]@);
            if let Some(r) = self.table.get(ks[i].as_str()) {
                let weight: Score = if r.pinned {
                    SCORE_ONE
                } else if self.decay.enabled {
                    decayed[i]
                } else {
                    r.weight
                };
                let s = ChunkStatSnapshot {
                    weight,
                    last_accessed_ms: r.last_accessed_ms,
                    access_count: if r.access_count < 0 {
                        0
                    } else {
                        #[verifier::truncate]
                        (r.access_count as u32)
                    },
                    pinned: r.pinned,
                    dormant: self.decay.enabled && !r.pinned && weight
                        < self.decay.dormant_threshold,
                };
                out.push((ks[i].clone(), s));
                assert(keyed_views(out@) =~= before.push((kv[i as int], s)));
            }
            i = i + 1;
        }
        out
    }

    /// The keys of the chunks that are kept from promotion.
    pub fn suppressed_promotion_keys(&self) -> (r: Vec<String>)
        requires
            self.wf(),
        ensures
            text::views(r@).no_duplicates(),
            forall|k: Seq<char>|
                #[trigger] text::views(r@).contains(k) <==> self@.dom().contains(k)
                    && self@[k].suppress_promotion,
    {
        let all: Vec<String> = self.table.keys();
        let ghost av = text::views(all@);
        let mut out: Vec<String> = Vec::new();
        let mut i: usize = 0;
        while i < all.len()
            invariant
                i <= all@.len(),
                self.wf(),
                av == text::views(all@),
                av.no_duplicates(),
                forall|k: Seq<char>| #[trigger] av.contains(k) <==> self@.dom().contains(k),
                text::views(out@).no_duplicates(),
                forall|k: Seq<char>|
                    #[trigger] text::views(out@).contains(k) <==> exists|j: int|
                        0 <= j < i && #[trigger] av[j] == k && self@[k].suppress_promotion,
            decreases all@.len() - i,
        {
            let ghost before = text::views(out@);
            proof {
                assert(av[i as int] == all@[i as int]@);
                assert(av.contains(av[i as int]));
            }
            if let Some(r) = self.table.get(all[i].as_str()) {
                if r.suppress_promotion {
                    out.push(all[i].clone());
                    proof {
                        let now = text::views(out@);
                        assert(now =~= before.push(av[i as int]));
                        assert(!before.contains(av[i as int])) by {
                            if before.contains(av[i as int]) {
                                let j = choose|j: int|
                                    0 <= j < i && #[trigger] av[j] == av[i as int]
                                        && self@[av[i as int]].suppress_promotion;
                                assert(av[j] != av[i as int]);
                            }
                        }
                        assert forall|k: Seq<char>| #[trigger] now.contains(k) <==> exists|j: int|
                            0 <= j < i + 1 && #[trigger] av[j] == k
                                && self@[k].suppress_promotion by {
                            if now.contains(k) && k != av[i as int] {
                                let a = choose|a: int| 0 <= a < now.len() && now[a] == k;
                                assert(before[a] == k);
                                assert(before.contains(k));
                            }
                            if before.contains(k) {
                                let a = choose|a: int| 0 <= a < before.len() && before[a] == k;
                                assert(now[a] == k);
                            }
                            if k == av[i as int] {
                                assert(now[before.len() as int] == k);
                            }
                        }
                    }
                }
            }
            i = i + 1;
        }
        proof {
            assert forall|k: Seq<char>| #[trigger] text::views(out@).contains(k)
                <==> self@.dom().contains(k) && self@[k].suppress_promotion by {
                if self@.dom().contains(k) && self@[k].suppress_promotion {
                    assert(av.contains(k));
                    let j = choose|j: int| 0 <= j < av.len() && av[j] == k;
                    assert(av[j] == k);
                }
                if text::views(out@).contains(k) {
                    let j = choose|j: int|
                        0 <= j < av.len() && #[trigger] av[j] == k && self@[k].suppress_promotion;
                    assert(av.contains(av[j]));
                }
            }
        }
        out
    }
}

/// Whether one of the keys has the content part of `key`.
fn content_shared(ks: &Vec<String>, key: &str) -> (r: bool)
    ensures
        r == shares_content(text::views(ks@), key@),
{
    let ghost kv = text::views(ks@);
    let mut i: usize = 0;
    while i < ks.len()
        invariant
            i <= ks@.len(),
            kv == text::views(ks@),
            forall|j: int|
                0 <= j < i ==> keys::content_part(#[trigger] kv[j]) != keys::content_part(key@),
        decreases ks@.len() - i,
    {
        assert(kv[i as int] == ks@[i as int]@);
        if same_text(content_key_of(ks[i].as_str()), content_key_of(key)) {
            assert(keys::content_part(kv[i as int]) == keys::content_part(key@));
            return true;
        }
        i = i + 1;
    }
    false
}

// ---------------------------------------------------------------------------
// Laws
// ---------------------------------------------------------------------------

/// A pinned chunk is never dormant and weighs 1, whatever its recorded weight.
pub proof fn law_pinned_is_never_dormant(row: ChunkStat, decay: DecayConfig, decayed: Score)
    requires
        row.pinned,
    ensures
        !snapshot_of(row, decay, decayed).dormant,
        snapshot_of(row, decay, decayed).weight == SCORE_ONE,
{
}

/// With decay off nothing is ever dormant.
pub proof fn law_nothing_is_dormant_without_decay(
    row: ChunkStat,
    decay: DecayConfig,
    decayed: Score,
)
    requires
        !decay.enabled,
    ensures
        !snapshot_of(row, decay, decayed).dormant,
{
}

/// Waking a chunk that was put to sleep brings back full weight; its accesses,
/// its pin and its suppression stay as they were before.
pub proof fn law_waking_undoes_sleeping(m: StatMap, key: Seq<char>, t1: i64, t2: i64)
    ensures
        ({
            let after = woken(asleep(m, key, t1), key, t2);
            let row = row_or_fresh(m, key, t1);
            &&& after.dom() =~= m.dom().insert(key)
            &&& after[key].weight == SCORE_ONE
            &&& after[key].last_accessed_ms == t2
            &&& after[key].access_count == row.access_count
            &&& after[key].pinned == row.pinned
            &&& after[key].suppress_promotion == row.suppress_promotion
            &&& after == woken(m, key, t2)
        }),
{
    assert(woken(asleep(m, key, t1), key, t2) =~= woken(m, key, t2));
}

/// An ambient injection never starts a row, and never touches another chunk.
pub proof fn law_injection_starts_no_row(
    m: StatMap,
    decay: DecayConfig,
    key: Seq<char>,
    lifted: Score,
    now_ms: i64,
    other: Seq<char>,
)
    ensures
        injected(m, decay, key, lifted, now_ms).dom() =~= m.dom(),
        other != key ==> injected(m, decay, key, lifted, now_ms)[other] == m[other],
        !m.dom().contains(key) ==> injected(m, decay, key, lifted, now_ms) == m,
{
}

proof fn lemma_bumped(
    m: StatMap,
    enabled: bool,
    ks: Seq<Seq<char>>,
    lifted: Seq<Score>,
    n: int,
    now_ms: i64,
)
    requires
        0 <= n <= ks.len(),
    ensures
        bumped(m, enabled, ks, lifted, n, now_ms).dom() =~= m.dom(),
        forall|k: Seq<char>|
            #[trigger] m.dom().contains(k) ==> bumped(
                m,
                enabled,
                ks,
                lifted,
                n,
                now_ms,
            )[k].suppress_promotion == m[k].suppress_promotion && bumped(
                m,
                enabled,
                ks,
                lifted,
                n,
                now_ms,
            )[k].pinned == m[k].pinned && (!enabled ==> bumped(
                m,
                enabled,
                ks,
                lifted,
                n,
                now_ms,
            )[k].weight == m[k].weight),
    decreases n,
{
    if n > 0 {
        lemma_bumped(m, enabled, ks, lifted, n - 1, now_ms);
    }
}

/// A success starts no row. It lifts suppression from exactly the chunks that
/// share their content with a touched key, whatever day they stand under, and
/// with decay off it changes no weight.
pub proof fn law_success_rehabilitates_by_content(
    m: StatMap,
    enabled: bool,
    ks: Seq<Seq<char>>,
    lifted: Seq<Score>,
    now_ms: i64,
    k: Seq<char>,
)
    ensures
        rewarded(m, enabled, ks, lifted, now_ms).dom() =~= m.dom(),
        m.dom().contains(k) ==> ({
            let row = rewarded(m, enabled, ks, lifted, now_ms)[k];
            &&& shares_content(ks, k) ==> !row.suppress_promotion
            &&& !shares_content(ks, k) ==> row.suppress_promotion == m[k].suppress_promotion
            &&& row.pinned == m[k].pinned
            &&& !enabled ==> row.weight == m[k].weight
        }),
{
    lemma_bumped(rehabilitated(m, ks), enabled, ks, lifted, ks.len() as int, now_ms);
}

} // verus!
