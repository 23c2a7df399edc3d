//! Consolidation of the curated file: merging duplicates, promoting recurring
//! daily facts and evicting the least salient ones.
use vstd::prelude::*;
use vstd::string::*;
use crate::date::Date;
use crate::memory::chunk;
use crate::memory::chunk::{ChunkView, MemoryChunk, MemorySource};
use crate::memory::coalesce;
use crate::memory::coalesce::coalesce_windows;
use crate::memory::config::{Memory, Score, SCORE_ONE, SCORE_ZERO};
use crate::memory::keys;
use crate::memory::keys::{chunk_key, content_key, content_key_of};
use crate::memory::render;
use crate::memory::render::render_curated;
use crate::memory::strata;
use crate::memory::strata::stratum_for_heading;
use crate::ordered;
use crate::ordered::insert_key_text;
use crate::text;
use crate::text::{byte_len, holds_text, same_text};

verus! {

/// The score from which a recurring daily fact is promoted, 0.5.
pub const PROMOTION_SCORE_CUTOFF: Score = 0x3f00_0000;

// ---------------------------------------------------------------------------
// Salience
// ---------------------------------------------------------------------------

/// Ranks an item for promotion into the curated file and eviction out of it.
pub trait Salience<T> {
    /// The score of an item that was seen that often; higher is kept.
    fn score(&self, item: &T, occurrences: u32) -> Score;
}

/// Salience from recorded usage: a curated chunk scores its weight, a daily one
/// what `daily` gives it, unless its promotion is suppressed.
pub struct ChunkStatsSalience<D> {
    /// Weights by chunk key; an absent key weighs 1.
    pub weights: Vec<(String, Score)>,
    /// Content keys whose promotion is suppressed.
    pub suppressed: Vec<String>,
    /// The score of daily chunks.
    pub daily: D,
}

/// The weight of a key among the first `n` entries; the last entry wins.
pub open spec fn weight_of(w: Seq<(String, Score)>, n: int, key: Seq<char>) -> Option<Score>
    decreases n,
{
    if n <= 0 {
        None
    } else if w[n - 1].0@ == key {
        Some(w[n - 1].1)
    } else {
        weight_of(w, n - 1, key)
    }
}

/// The content parts of the first `n` keys.
pub open spec fn content_parts(ks: Seq<String>) -> Seq<Seq<char>> {
    Seq::new(ks.len(), |i: int| keys::content_part(ks[i]@))
}

impl<D> ChunkStatsSalience<D> {
    /// Salience from weights, with nothing suppressed.
    pub fn new(weights: Vec<(String, Score)>, daily: D) -> (r: Self)
        ensures
            r.weights == weights,
            r.suppressed@.len() == 0,
            r.daily == daily,
    {
        ChunkStatsSalience { weights, suppressed: Vec::new(), daily }
    }

    /// Salience from weights, with the promotion of the facts of those chunk
    /// keys suppressed: a fact stays suppressed under any date.
    pub fn with_suppressed(
        weights: Vec<(String, Score)>,
        suppressed: &Vec<String>,
        daily: D,
    ) -> (r: Self)
        ensures
            r.weights == weights,
            text::views(r.suppressed@) == content_parts(suppressed@),
            r.daily == daily,
    {
        let mut parts: Vec<String> = Vec::new();
        let mut i: usize = 0;
        while i < suppressed.len()
            invariant
                i <= suppressed@.len(),
                text::views(parts@) == content_parts(suppressed@).take(i as int),
            decreases suppressed@.len() - i,
        {
            let ghost before = text::views(parts@);
            let part: String = content_key_of(suppressed[i].as_str()).to_owned();
            parts.push(part);
            proof {
                assert(text::views(parts@) =~= before.push(part@));
                assert(content_parts(suppressed@).take(i + 1) =~= before.push(part@));
            }
            i = i + 1;
        }
        proof {
            assert(content_parts(suppressed@).take(i as int) =~= content_parts(suppressed@));
        }
        ChunkStatsSalience { weights, suppressed: parts, daily }
    }

    /// The weight of a curated chunk: 1 where none is recorded.
    pub fn curated_weight(&self, c: &MemoryChunk) -> (r: Score)
        ensures
            r == (match weight_of(
                self.weights@,
                self.weights@.len() as int,
                keys::chunk_key_spec(c@),
            ) {
                Some(w) => w,
                None => SCORE_ONE,
            }),
    {
        let key: String = chunk_key(c);
        let mut i: usize = self.weights.len();
        while i > 0
            invariant
                i <= self.weights@.len(),
                key@ == keys::chunk_key_spec(c@),
                weight_of(self.weights@, self.weights@.len() as int, key@) == weight_of(
                    self.weights@,
                    i as int,
                    key@,
                ),
            decreases i,
        {
            if same_text(self.weights[i - 1].0.as_str(), key.as_str()) {
                return self.weights[i - 1].1;
            }
            i = i - 1;
        }
        SCORE_ONE
    }

    /// Whether the promotion of a chunk's fact is suppressed.
    pub fn is_suppressed(&self, c: &MemoryChunk) -> (r: bool)
        ensures
            r == text::views(self.suppressed@).contains(
                keys::content_part(keys::chunk_key_spec(c@)),
            ),
    {
        let key: String = chunk_key(c);
        holds_text(&self.suppressed, content_key_of(key.as_str()))
    }
}

impl<D: Salience<MemoryChunk>> Salience<MemoryChunk> for ChunkStatsSalience<D> {
    fn score(&self, item: &MemoryChunk, occurrences: u32) -> (r: Score)
        ensures
            item.source == MemorySource::Curated ==> r == (match weight_of(
                self.weights@,
                self.weights@.len() as int,
                keys::chunk_key_spec(item@),
            ) {
                Some(w) => w,
                None => SCORE_ONE,
            }),
            item.source is Daily && text::views(self.suppressed@).contains(
                keys::content_part(keys::chunk_key_spec(item@)),
            ) ==> r == SCORE_ZERO,
            item.source is Daily && !text::views(self.suppressed@).contains(
                keys::content_part(keys::chunk_key_spec(item@)),
            ) ==> call_ensures(D::score, (&self.daily, item, occurrences), r),
    {
        match item.source {
            MemorySource::Curated => self.curated_weight(item),
            MemorySource::Daily { .. } => {
                if self.is_suppressed(item) {
                    SCORE_ZERO
                } else {
                    self.daily.score(item, occurrences)
                }
            },
        }
    }
}

// ---------------------------------------------------------------------------
// What a pass works on
// ---------------------------------------------------------------------------

/// The content key of a chunk.
pub open spec fn ckey(c: ChunkView) -> Seq<char> {
    keys::content_key_spec(c.heading, c.text)
}

/// The curated ones among the first `n` chunks.
pub open spec fn curated_only(cs: Seq<ChunkView>, n: int) -> Seq<ChunkView>
    decreases n,
{
    if n <= 0 {
        Seq::empty()
    } else if cs[n - 1].source is Curated {
        curated_only(cs, n - 1).push(cs[n - 1])
    } else {
        curated_only(cs, n - 1)
    }
}

/// The daily ones among the first `n` chunks.
pub open spec fn daily_only(cs: Seq<ChunkView>, n: int) -> Seq<ChunkView>
    decreases n,
{
    if n <= 0 {
        Seq::empty()
    } else if cs[n - 1].source is Daily {
        daily_only(cs, n - 1).push(cs[n - 1])
    } else {
        daily_only(cs, n - 1)
    }
}

/// Whether a chunk has that content key.
pub open spec fn has_key(cs: Seq<ChunkView>, k: Seq<char>) -> bool {
    exists|i: int| 0 <= i < cs.len() && ckey(#[trigger] cs[i]) == k
}

/// The first chunk of each content among the first `n`.
pub open spec fn distinct(cs: Seq<ChunkView>, n: int) -> Seq<ChunkView>
    decreases n,
{
    if n <= 0 {
        Seq::empty()
    } else {
        let prev = distinct(cs, n - 1);
        if has_key(prev, ckey(cs[n - 1])) {
            prev
        } else {
            prev.push(cs[n - 1])
        }
    }
}

/// The days on which a content stands in the first `n` daily chunks.
pub open spec fn days_of(daily: Seq<ChunkView>, n: int, k: Seq<char>) -> Seq<Date>
    decreases n,
{
    if n <= 0 {
        Seq::empty()
    } else {
        let prev = days_of(daily, n - 1, k);
        match daily[n - 1].source {
            MemorySource::Daily { date } => if ckey(daily[n - 1]) == k && !prev.contains(date) {
                prev.push(date)
            } else {
                prev
            },
            MemorySource::Curated => prev,
        }
    }
}

/// The number of distinct days on which a content was recorded.
pub open spec fn occurrences(daily: Seq<ChunkView>, k: Seq<char>) -> nat {
    days_of(daily, daily.len() as int, k).len()
}

/// Whether daily chunk `i` may be promoted: its content is not curated and its
/// score reaches the cutoff.
pub open spec fn eligible(
    daily: Seq<ChunkView>,
    scores: Seq<Score>,
    kept: Seq<ChunkView>,
    i: int,
) -> bool {
    !has_key(kept, ckey(daily[i])) && scores[i] >= PROMOTION_SCORE_CUTOFF
}

/// The best-scoring of the first `n` daily chunks that may be promoted under
/// that key; of equal ones the first.
pub open spec fn best(
    daily: Seq<ChunkView>,
    scores: Seq<Score>,
    kept: Seq<ChunkView>,
    n: int,
    k: Seq<char>,
) -> Option<int>
    decreases n,
{
    if n <= 0 {
        None
    } else {
        let prev = best(daily, scores, kept, n - 1, k);
        if eligible(daily, scores, kept, n - 1) && ckey(daily[n - 1]) == k && (prev is None
            || scores[prev->0] < scores[n - 1]) {
            Some(n - 1)
        } else {
            prev
        }
    }
}

/// The keys to promote of the first `n` daily chunks, in ascending order.
pub open spec fn promoted_keys(
    daily: Seq<ChunkView>,
    scores: Seq<Score>,
    kept: Seq<ChunkView>,
    n: int,
) -> Seq<Seq<char>>
    decreases n,
{
    if n <= 0 {
        Seq::empty()
    } else if eligible(daily, scores, kept, n - 1) {
        ordered::insert_key(promoted_keys(daily, scores, kept, n - 1), ckey(daily[n - 1]))
    } else {
        promoted_keys(daily, scores, kept, n - 1)
    }
}

/// A daily chunk as a curated one.
pub open spec fn as_curated(c: ChunkView) -> ChunkView {
    ChunkView { source: MemorySource::Curated, ..c }
}

/// The chunks that the first `m` of those keys promote.
pub open spec fn promoted(
    daily: Seq<ChunkView>,
    scores: Seq<Score>,
    kept: Seq<ChunkView>,
    ks: Seq<Seq<char>>,
    m: int,
) -> Seq<ChunkView>
    decreases m,
{
    if m <= 0 {
        Seq::empty()
    } else {
        let b = best(daily, scores, kept, daily.len() as int, ks[m - 1]);
        promoted(daily, scores, kept, ks, m - 1).push(as_curated(daily[b->0]))
    }
}

/// The distinct keys, other than `new_key`, of the first `n` chunks under a
/// heading that names no stratum.
pub open spec fn rivals(
    pool: Seq<ChunkView>,
    n: int,
    h: Seq<char>,
    new_key: Seq<char>,
) -> Seq<Seq<char>>
    decreases n,
{
    if n <= 0 {
        Seq::empty()
    } else {
        let prev = rivals(pool, n - 1, h, new_key);
        let c = pool[n - 1];
        let k = keys::chunk_key_spec(c);
        if c.heading == Some(h) && strata::stratum_of(h) is None && k != new_key && !prev.contains(
            k,
        ) {
            prev.push(k)
        } else {
            prev
        }
    }
}

/// What the first `m` promotions supersede: each the one curated fact under its
/// heading, where there is exactly one.
pub open spec fn superseded(pool: Seq<ChunkView>, added: Seq<ChunkView>, m: int) -> Seq<
    (Seq<char>, Seq<char>),
>
    decreases m,
{
    if m <= 0 {
        Seq::empty()
    } else {
        let prev = superseded(pool, added, m - 1);
        let c = added[m - 1];
        match c.heading {
            Some(h) => {
                let k = keys::chunk_key_spec(c);
                let olds = rivals(pool, pool.len() as int, h, k);
                if olds.len() == 1 {
                    prev.push((olds[0], k))
                } else {
                    prev
                }
            },
            None => prev,
        }
    }
}

/// The first of the least scores among the first `n`.
pub open spec fn least(scores: Seq<Score>, n: int) -> int
    decreases n,
{
    if n <= 1 {
        0
    } else {
        let w = least(scores, n - 1);
        if scores[n - 1] < scores[w] {
            n - 1
        } else {
            w
        }
    }
}

/// Whether the file of those chunks exceeds the budget and can shrink.
pub open spec fn over_budget(cs: Seq<ChunkView>, budget: int) -> bool {
    text::utf8_len(render::rendered(cs)) > budget && cs.len() > 1
}

/// The chunks that stay when the least salient go, one by one, until the file
/// fits the budget or one chunk is left.
pub open spec fn survivors(cs: Seq<ChunkView>, scores: Seq<Score>, budget: int) -> Seq<ChunkView>
    decreases cs.len(),
{
    if over_budget(cs, budget) {
        let w = least(scores, cs.len() as int);
        if 0 <= w < cs.len() {
            survivors(cs.remove(w), scores.remove(w), budget)
        } else {
            cs
        }
    } else {
        cs
    }
}

/// The texts of the chunks that go, in the order of their going.
pub open spec fn evictions(cs: Seq<ChunkView>, scores: Seq<Score>, budget: int) -> Seq<Seq<char>>
    decreases cs.len(),
{
    if over_budget(cs, budget) {
        let w = least(scores, cs.len() as int);
        if 0 <= w < cs.len() {
            seq![cs[w].text] + evictions(cs.remove(w), scores.remove(w), budget)
        } else {
            Seq::empty()
        }
    } else {
        Seq::empty()
    }
}

/// The least score is the score of one of them, no other is less, and none before
/// it is as small.
pub proof fn lemma_least(scores: Seq<Score>, n: int)
    requires
        0 < n <= scores.len(),
    ensures
        0 <= least(scores, n) < n,
        forall|i: int| 0 <= i < n ==> scores[least(scores, n)] <= #[trigger] scores[i],
        forall|i: int| 0 <= i < least(scores, n) ==> scores[least(scores, n)] < #[trigger] scores[i],
    decreases n,
{
    if n > 1 {
        lemma_least(scores, n - 1);
    }
}

// ---------------------------------------------------------------------------
// The steps of a pass
// ---------------------------------------------------------------------------

/// The chunks of the curated file and those of the daily logs, in order.
pub fn split_sources(cs: &Vec<MemoryChunk>) -> (r: (Vec<MemoryChunk>, Vec<MemoryChunk>))
    ensures
        chunk::chunk_views(r.0@) == curated_only(chunk::chunk_views(cs@), cs@.len() as int),
        chunk::chunk_views(r.1@) == daily_only(chunk::chunk_views(cs@), cs@.len() as int),
        r.0@.len() + r.1@.len() == cs@.len(),
{
    let ghost cv = chunk::chunk_views(cs@);
    let mut curated: Vec<MemoryChunk> = Vec::new();
    let mut daily: Vec<MemoryChunk> = Vec::new();
    let mut i: usize = 0;
    assert(chunk::chunk_views(curated@) =~= curated_only(cv, 0));
    assert(chunk::chunk_views(daily@) =~= daily_only(cv, 0));
    while i < cs.len()
        invariant
            i <= cs@.len(),
            cv == chunk::chunk_views(cs@),
            chunk::chunk_views(curated@) == curated_only(cv, i as int),
            chunk::chunk_views(daily@) == daily_only(cv, i as int),
            curated@.len() + daily@.len() == i,
        decreases cs@.len() - i,
    {
        let ghost bc = chunk::chunk_views(curated@);
        let ghost bd = chunk::chunk_views(daily@);
        assert(cv[i as int] == cs@[i as int]@);
        match cs[i].source {
            MemorySource::Curated => {
                curated.push(cs[i].clone());
                assert(chunk::chunk_views(curated@) =~= bc.push(cv[i as int]));
            },
            MemorySource::Daily { .. } => {
                daily.push(cs[i].clone());
                assert(chunk::chunk_views(daily@) =~= bd.push(cv[i as int]));
            },
        }
        i = i + 1;
    }
    (curated, daily)
}

/// Whether a chunk has that content key.
fn holds_key(cs: &Vec<MemoryChunk>, key: &str) -> (r: bool)
    ensures
        r == has_key(chunk::chunk_views(cs@), key@),
{
    let ghost cv = chunk::chunk_views(cs@);
    let mut i: usize = 0;
    while i < cs.len()
        invariant
            i <= cs@.len(),
            cv == chunk::chunk_views(cs@),
            forall|j: int| 0 <= j < i ==> ckey(#[trigger] cv[j]) != key@,
        decreases cs@.len() - i,
    {
        let k: String = content_key(&cs[i]);
        assert(cv[i as int] == cs@[i as int]@);
        if same_text(k.as_str(), key) {
            assert(ckey(cv[i as int]) == key@);
            return true;
        }
        i = i + 1;
    }
    false
}

/// The first chunk of each content: duplicates are dropped.
pub fn merge_duplicates(cs: &Vec<MemoryChunk>) -> (r: Vec<MemoryChunk>)
    ensures
        chunk::chunk_views(r@) == distinct(chunk::chunk_views(cs@), cs@.len() as int),
        r@.len() <= cs@.len(),
{
    let ghost cv = chunk::chunk_views(cs@);
    let mut out: Vec<MemoryChunk> = Vec::new();
    let mut i: usize = 0;
    assert(chunk::chunk_views(out@) =~= distinct(cv, 0));
    while i < cs.len()
        invariant
            i <= cs@.len(),
            out@.len() <= i,
            cv == chunk::chunk_views(cs@),
            chunk::chunk_views(out@) == distinct(cv, i as int),
        decreases cs@.len() - i,
    {
        let ghost before = chunk::chunk_views(out@);
        assert(cv[i as int] == cs@[i as int]@);
        let k: String = content_key(&cs[i]);
        if !holds_key(&out, k.as_str()) {
            out.push(cs[i].clone());
            assert(chunk::chunk_views(out@) =~= before.push(cv[i as int]));
        }
        i = i + 1;
    }
    out
}

/// Whether the days hold a date.
fn holds_day(days: &Vec<Date>, date: &Date) -> (r: bool)
    ensures
        r == days@.contains(*date),
{
    let mut i: usize = 0;
    while i < days.len()
        invariant
            i <= days@.len(),
            forall|j: int| 0 <= j < i ==> days@[j] != *date,
        decreases days@.len() - i,
    {
        if days[i].same(date) {
            assert(days@[i as int] == *date);
            return true;
        }
        i = i + 1;
    }
    false
}

/// The number of distinct days on which a content was recorded.
pub fn count_occurrences(daily: &Vec<MemoryChunk>, key: &str) -> (r: u32)
    requires
        daily@.len() <= u32::MAX,
    ensures
        r == occurrences(chunk::chunk_views(daily@), key@),
{
    let ghost dv = chunk::chunk_views(daily@);
    let mut days: Vec<Date> = Vec::new();
    let mut i: usize = 0;
    assert(days@ =~= days_of(dv, 0, key@));
    while i < daily.len()
        invariant
            i <= daily@.len(),
            days@.len() <= i,
            dv == chunk::chunk_views(daily@),
            days@ == days_of(dv, i as int, key@),
        decreases daily@.len() - i,
    {
        assert(dv[i as int] == daily@[i as int]@);
        if let MemorySource::Daily { date } = daily[i].source {
            let k: String = content_key(&daily[i]);
            if same_text(k.as_str(), key) && !holds_day(&days, &date) {
                days.push(date);
            }
        }
        i = i + 1;
    }
    days.len() as u32
}

/// The place of the best-scoring chunk that may be promoted under that key.
fn best_of(
    daily: &Vec<MemoryChunk>,
    scores: &Vec<Score>,
    kept: &Vec<MemoryChunk>,
    key: &str,
) -> (r: Option<usize>)
    requires
        scores@.len() == daily@.len(),
    ensures
        match r {
            Some(i) => i < daily@.len() && best(
                chunk::chunk_views(daily@),
                scores@,
                chunk::chunk_views(kept@),
                daily@.len() as int,
                key@,
            ) == Some(i as int),
            None => best(
                chunk::chunk_views(daily@),
                scores@,
                chunk::chunk_views(kept@),
                daily@.len() as int,
                key@,
            ) is None,
        },
{
    let ghost dv = chunk::chunk_views(daily@);
    let ghost kv = chunk::chunk_views(kept@);
    let curated: bool = holds_key(kept, key);
    let mut found: Option<usize> = None;
    let mut i: usize = 0;
    while i < daily.len()
        invariant
            i <= daily@.len(),
            scores@.len() == daily@.len(),
            dv == chunk::chunk_views(daily@),
            kv == chunk::chunk_views(kept@),
            curated == has_key(kv, key@),
            found is Some ==> found->0 < i && best(dv, scores@, kv, i as int, key@) == Some(
                found->0 as int,
            ),
            found is None ==> best(dv, scores@, kv, i as int, key@) is None,
        decreases daily@.len() - i,
    {
        assert(dv[i as int] == daily@[i as int]@);
        let k: String = content_key(&daily[i]);
        if same_text(k.as_str(), key) && !curated && scores[i] >= PROMOTION_SCORE_CUTOFF {
            assert(eligible(dv, scores@, kv, i as int));
            let better: bool = match found {
                Some(j) => scores[j] < scores[i],
                None => true,
            };
            if better {
                found = Some(i);
            }
        }
        i = i + 1;
    }
    found
}

/// The keys to promote, in ascending order.
fn promoted_key_list(
    daily: &Vec<MemoryChunk>,
    scores: &Vec<Score>,
    kept: &Vec<MemoryChunk>,
) -> (r: Vec<String>)
    requires
        scores@.len() == daily@.len(),
    ensures
        text::views(r@) == promoted_keys(
            chunk::chunk_views(daily@),
            scores@,
            chunk::chunk_views(kept@),
            daily@.len() as int,
        ),
{
    let ghost dv = chunk::chunk_views(daily@);
    let ghost kv = chunk::chunk_views(kept@);
    let mut out: Vec<String> = Vec::new();
    let mut i: usize = 0;
    assert(text::views(out@) =~= promoted_keys(dv, scores@, kv, 0));
    while i < daily.len()
        invariant
            i <= daily@.len(),
            scores@.len() == daily@.len(),
            dv == chunk::chunk_views(daily@),
            kv == chunk::chunk_views(kept@),
            text::views(out@) == promoted_keys(dv, scores@, kv, i as int),
        decreases daily@.len() - i,
    {
        assert(dv[i as int] == daily@[i as int]@);
        let k: String = content_key(&daily[i]);
        if scores[i] >= PROMOTION_SCORE_CUTOFF && !holds_key(kept, k.as_str()) {
            insert_key_text(&mut out, k);
        }
        i = i + 1;
    }
    out
}

/// Exactly the keys that have a best chunk are promoted.
pub proof fn lemma_promoted_keys(
    daily: Seq<ChunkView>,
    scores: Seq<Score>,
    kept: Seq<ChunkView>,
    n: int,
    k: Seq<char>,
)
    requires
        0 <= n <= daily.len(),
    ensures
        promoted_keys(daily, scores, kept, n).contains(k) <==> best(daily, scores, kept, n, k)
            is Some,
        best(daily, scores, kept, n, k) is Some ==> 0 <= best(daily, scores, kept, n, k)->0 < n,
    decreases n,
{
    if n > 0 {
        lemma_promoted_keys(daily, scores, kept, n - 1, k);
        if eligible(daily, scores, kept, n - 1) {
            ordered::lemma_insert_key(
                promoted_keys(daily, scores, kept, n - 1),
                ckey(daily[n - 1]),
                k,
            );
        }
    }
}

/// One fact superseded by another.
#[derive(Debug, Clone, PartialEq, Eq)]
pub struct Supersession {
    /// The chunk key of the older fact.
    pub superseded_key: String,
    /// The chunk key of the promotion that replaced it.
    pub superseded_by: String,
}

/// Supersessions as pairs of texts.
pub open spec fn edge_views(s: Seq<Supersession>) -> Seq<(Seq<char>, Seq<char>)> {
    Seq::new(s.len(), |i: int| (s[i].superseded_key@, s[i].superseded_by@))
}

/// The distinct keys, other than `new_key`, of the chunks under a heading that
/// names no stratum, added to `out`.
fn push_rivals(out: &mut Vec<String>, pool: &Vec<MemoryChunk>, h: &str, new_key: &str, Ghost(
    base,
): Ghost<Seq<ChunkView>>)
    requires
        text::views(old(out)@) == rivals(base, base.len() as int, h@, new_key@),
    ensures
        text::views(final(out)@) == rivals(
            base + chunk::chunk_views(pool@),
            (base + chunk::chunk_views(pool@)).len() as int,
            h@,
            new_key@,
        ),
{
    let ghost pv = chunk::chunk_views(pool@);
    let ghost all = base + pv;
    let topic: bool = stratum_for_heading(h).is_none();
    let mut i: usize = 0;
    proof {
        lemma_rivals_prefix(base, pv, base.len() as int, h@, new_key@);
    }
    while i < pool.len()
        invariant
            i <= pool@.len(),
            pv == chunk::chunk_views(pool@),
            all == base + pv,
            topic == (strata::stratum_of(h@) is None),
            text::views(out@) == rivals(all, base.len() + i, h@, new_key@),
        decreases pool@.len() - i,
    {
        let ghost before = text::views(out@);
        proof {
            assert(all[base.len() + i] == pool@[i as int]@);
        }
        let same: bool = match &pool[i].heading {
            Some(x) => same_text(x.as_str(), h),
            None => false,
        };
        assert(same == (all[base.len() + i].heading == Some(h@)));
        if topic && same {
            let k: String = chunk_key(&pool[i]);
            if !same_text(k.as_str(), new_key) && !holds_text(out, k.as_str()) {
                out.push(k);
                assert(text::views(out@) =~= before.push(k@));
            }
        }
        i = i + 1;
    }
}

proof fn lemma_rivals_prefix(
    a: Seq<ChunkView>,
    b: Seq<ChunkView>,
    n: int,
    h: Seq<char>,
    k: Seq<char>,
)
    requires
        0 <= n <= a.len(),
    ensures
        rivals(a + b, n, h, k) == rivals(a, n, h, k),
    decreases n,
{
    if n > 0 {
        lemma_rivals_prefix(a, b, n - 1, h, k);
        assert((a + b)[n - 1] == a[n - 1]);
    }
}

/// The curated chunks that an index holds, or none.
pub open spec fn index_views(index: Option<&Vec<MemoryChunk>>) -> Seq<ChunkView> {
    match index {
        Some(v) => chunk::chunk_views(v@),
        None => Seq::empty(),
    }
}

/// The promotions and what they supersede.
pub fn promote(
    kept: &Vec<MemoryChunk>,
    daily: &Vec<MemoryChunk>,
    scores: &Vec<Score>,
    index: Option<&Vec<MemoryChunk>>,
) -> (r: (Vec<MemoryChunk>, Vec<Supersession>))
    requires
        scores@.len() == daily@.len(),
    ensures
        ({
            let dv = chunk::chunk_views(daily@);
            let kv = chunk::chunk_views(kept@);
            let ks = promoted_keys(dv, scores@, kv, dv.len() as int);
            let added = promoted(dv, scores@, kv, ks, ks.len() as int);
            &&& chunk::chunk_views(r.0@) == added
            &&& edge_views(r.1@) == superseded(
                kv + index_views(index),
                added,
                added.len() as int,
            )
        }),
{
    let ghost dv = chunk::chunk_views(daily@);
    let ghost kv = chunk::chunk_views(kept@);
    let ghost pool = kv + index_views(index);
    let key_list: Vec<String> = promoted_key_list(daily, scores, kept);
    let ghost ks = text::views(key_list@);
    let ghost added = promoted(dv, scores@, kv, ks, ks.len() as int);
    let mut out: Vec<MemoryChunk> = Vec::new();
    let mut edges: Vec<Supersession> = Vec::new();
    let mut m: usize = 0;
    assert(chunk::chunk_views(out@) =~= promoted(dv, scores@, kv, ks, 0));
    assert(edge_views(edges@) =~= superseded(pool, added, 0));
    while m < key_list.len()
        invariant
            m <= key_list@.len(),
            scores@.len() == daily@.len(),
            dv == chunk::chunk_views(daily@),
            kv == chunk::chunk_views(kept@),
            pool == kv + index_views(index),
            ks == text::views(key_list@),
            ks == promoted_keys(dv, scores@, kv, dv.len() as int),
            added == promoted(dv, scores@, kv, ks, ks.len() as int),
            chunk::chunk_views(out@) == promoted(dv, scores@, kv, ks, m as int),
            edge_views(edges@) == superseded(pool, added, m as int),
        decreases key_list@.len() - m,
    {
        proof {
            assert(ks[m as int] == key_list@[m as int]@);
            assert(ks.contains(ks[m as int]));
            lemma_promoted_keys(dv, scores@, kv, dv.len() as int, ks[m as int]);
            lemma_promoted_prefix(dv, scores@, kv, ks, m as int, ks.len() as int);
        }
        let ghost before = chunk::chunk_views(out@);
        let ghost eb = edge_views(edges@);
        match best_of(daily, scores, kept, key_list[m].as_str()) {
            Some(b) => {
                let mut c: MemoryChunk = daily[b].clone();
                c.source = MemorySource::Curated;
                proof {
                    assert(dv[b as int] == daily@[b as int]@);
                    assert(c@ =~= as_curated(dv[b as int]));
                    assert(added[m as int] == c@);
                }
                if let Some(h) = &c.heading {
                    let new_key: String = chunk_key(&c);
                    let mut olds: Vec<String> = Vec::new();
                    proof {
                        assert(Seq::<ChunkView>::empty() + kv =~= kv);
                        assert(text::views(olds@) =~= rivals(Seq::empty(), 0, h@, new_key@));
                    }
                    push_rivals(&mut olds, kept, h.as_str(), new_key.as_str(), Ghost(Seq::empty()));
                    match index {
                        Some(v) => {
                            push_rivals(&mut olds, v, h.as_str(), new_key.as_str(), Ghost(kv));
                        },
                        None => {
                            proof {
                                assert(kv + Seq::<ChunkView>::empty() =~= kv);
                            }
                        },
                    }
                    proof {
                        assert(text::views(olds@) == rivals(pool, pool.len() as int, h@, new_key@));
                        assert(text::views(olds@).len() == olds@.len());
                    }
                    if olds.len() == 1 {
                        let e = Supersession {
                            superseded_key: olds[0].clone(),
                            superseded_by: new_key,
                        };
                        edges.push(e);
                        proof {
                            assert(text::views(olds@)[0] == olds@[0]@);
                            assert(edge_views(edges@) =~= eb.push(
                                (e.superseded_key@, e.superseded_by@),
                            ));
                        }
                    }
                }
                out.push(c);
                assert(chunk::chunk_views(out@) =~= before.push(c@));
            },
            None => {
                assert(false);
            },
        }
        m = m + 1;
    }
    proof {
        lemma_promoted_len(dv, scores@, kv, ks, ks.len() as int);
    }
    (out, edges)
}

/// There is one promotion for each key.
pub proof fn lemma_promoted_len(
    daily: Seq<ChunkView>,
    scores: Seq<Score>,
    kept: Seq<ChunkView>,
    ks: Seq<Seq<char>>,
    m: int,
)
    requires
        0 <= m,
    ensures
        promoted(daily, scores, kept, ks, m).len() == m,
    decreases m,
{
    if m > 0 {
        lemma_promoted_len(daily, scores, kept, ks, m - 1);
    }
}

/// The promotion of a key is the best daily chunk of it.
pub proof fn lemma_promoted_prefix(
    daily: Seq<ChunkView>,
    scores: Seq<Score>,
    kept: Seq<ChunkView>,
    ks: Seq<Seq<char>>,
    i: int,
    m: int,
)
    requires
        0 <= i < m <= ks.len(),
    ensures
        promoted(daily, scores, kept, ks, m).len() == m,
        promoted(daily, scores, kept, ks, m)[i] == as_curated(
            daily[best(daily, scores, kept, daily.len() as int, ks[i])->0],
        ),
    decreases m,
{
    lemma_promoted_len(daily, scores, kept, ks, m);
    lemma_promoted_len(daily, scores, kept, ks, m - 1);
    if i < m - 1 {
        lemma_promoted_prefix(daily, scores, kept, ks, i, m - 1);
    }
}

/// Evicts the least salient chunks, one by one, until the file fits the budget
/// or one chunk is left; the texts of the evicted come with it.
pub fn demote(curated: Vec<MemoryChunk>, scores: Vec<Score>, budget: usize) -> (r: (
    Vec<MemoryChunk>,
    Vec<String>,
))
    requires
        scores@.len() == curated@.len(),
    ensures
        chunk::chunk_views(r.0@) == survivors(
            chunk::chunk_views(curated@),
            scores@,
            budget as int,
        ),
        text::views(r.1@) == evictions(chunk::chunk_views(curated@), scores@, budget as int),
{
    let ghost c0 = chunk::chunk_views(curated@);
    let ghost s0 = scores@;
    let mut cs: Vec<MemoryChunk> = curated;
    let mut ss: Vec<Score> = scores;
    let mut out: Vec<String> = Vec::new();
    let mut over: bool = cs.len() > 1 && byte_len(render_curated(&cs).as_str()) > budget;
    proof {
        assert(text::views(out@) + evictions(c0, s0, budget as int) =~= evictions(
            c0,
            s0,
            budget as int,
        ));
    }
    while over
        invariant
            ss@.len() == cs@.len(),
            over == over_budget(chunk::chunk_views(cs@), budget as int),
            survivors(c0, s0, budget as int) == survivors(
                chunk::chunk_views(cs@),
                ss@,
                budget as int,
            ),
            evictions(c0, s0, budget as int) == text::views(out@) + evictions(
                chunk::chunk_views(cs@),
                ss@,
                budget as int,
            ),
        decreases cs@.len(),
    {
        let ghost cv = chunk::chunk_views(cs@);
        let ghost sv = ss@;
        let ghost before = text::views(out@);
        let w: usize = least_index(&ss);
        proof {
            lemma_least(sv, cv.len() as int);
            assert(cv[w as int] == cs@[w as int]@);
        }
        let gone: MemoryChunk = cs.remove(w);
        let _score: Score = ss.remove(w);
        out.push(gone.text);
        proof {
            assert(chunk::chunk_views(cs@) =~= cv.remove(w as int));
            assert(ss@ =~= sv.remove(w as int));
            assert(text::views(out@) =~= before.push(cv[w as int].text));
            assert(text::views(out@) + evictions(cv.remove(w as int), sv.remove(w as int), budget as int)
                =~= before + evictions(cv, sv, budget as int));
        }
        over = cs.len() > 1 && byte_len(render_curated(&cs).as_str()) > budget;
    }
    proof {
        assert(text::views(out@) =~= evictions(c0, s0, budget as int));
    }
    (cs, out)
}

/// The first place of the least score.
fn least_index(scores: &Vec<Score>) -> (r: usize)
    requires
        scores@.len() > 0,
    ensures
        r == least(scores@, scores@.len() as int),
        r < scores@.len(),
{
    let mut w: usize = 0;
    let mut i: usize = 1;
    while i < scores.len()
        invariant
            1 <= i <= scores@.len(),
            w < i,
            w == least(scores@, i as int),
        decreases scores@.len() - i,
    {
        if scores[i] < scores[w] {
            w = i;
        }
        i = i + 1;
    }
    w
}

// ---------------------------------------------------------------------------
// The pass
// ---------------------------------------------------------------------------

/// What a pass did.
#[derive(Debug, PartialEq, Eq)]
pub struct ConsolidationReport {
    /// Whether anything changed, so that the curated file is rewritten.
    pub ran: bool,
    /// Curated duplicates that were dropped.
    pub merged: usize,
    /// Daily facts that became curated.
    pub promoted: usize,
    /// Curated facts that went to the daily log.
    pub demoted: usize,
    /// The size of the curated file before.
    pub bytes_before: usize,
    /// The size of the curated file after.
    pub bytes_after: usize,
    /// Facts that a promotion superseded.
    pub superseded: Vec<Supersession>,
}

/// A pass, ready to be carried out: each evicted text is appended to today's
/// log in order, and the curated file is rewritten where the report says so.
#[derive(Debug, PartialEq, Eq)]
pub struct ConsolidationPlan {
    /// What the pass does.
    pub report: ConsolidationReport,
    /// The chunks of the curated file after it.
    pub curated: Vec<MemoryChunk>,
    /// The texts that go to today's log.
    pub evicted: Vec<String>,
    /// The curated file after it.
    pub rendered: String,
}

/// What a pass comes to, given the scores of the daily chunks and of the
/// curated ones.
pub struct PassView {
    /// The curated chunks without duplicates.
    pub kept: Seq<ChunkView>,
    /// The promotions.
    pub added: Seq<ChunkView>,
    /// What they supersede.
    pub edges: Seq<(Seq<char>, Seq<char>)>,
    /// The curated chunks in the end.
    pub curated: Seq<ChunkView>,
    /// The texts that go to the daily log.
    pub evicted: Seq<Seq<char>>,
    /// The number of duplicates.
    pub merged: int,
}

/// The chunks of all files with their windows joined.
pub open spec fn whole(cs: Seq<ChunkView>) -> Seq<ChunkView> {
    coalesce::coalesced(cs, cs.len() as int)
}

/// The curated chunks of a pass, without duplicates.
pub open spec fn kept_of(cs: Seq<ChunkView>) -> Seq<ChunkView> {
    let cur = curated_only(whole(cs), whole(cs).len() as int);
    distinct(cur, cur.len() as int)
}

/// The daily chunks of a pass.
pub open spec fn daily_of(cs: Seq<ChunkView>) -> Seq<ChunkView> {
    daily_only(whole(cs), whole(cs).len() as int)
}

/// The promotions of a pass.
pub open spec fn added_of(cs: Seq<ChunkView>, daily_scores: Seq<Score>) -> Seq<ChunkView> {
    let ks = promoted_keys(
        daily_of(cs),
        daily_scores,
        kept_of(cs),
        daily_of(cs).len() as int,
    );
    promoted(daily_of(cs), daily_scores, kept_of(cs), ks, ks.len() as int)
}

/// What a pass over those chunks comes to.
pub open spec fn pass(
    cs: Seq<ChunkView>,
    index: Seq<ChunkView>,
    daily_scores: Seq<Score>,
    curated_scores: Seq<Score>,
    evict: bool,
    budget: int,
) -> PassView {
    let kept = kept_of(cs);
    let added = added_of(cs, daily_scores);
    PassView {
        kept,
        added,
        edges: superseded(kept + index, added, added.len() as int),
        curated: if evict {
            survivors(kept + added, curated_scores, budget)
        } else {
            kept + added
        },
        evicted: if evict {
            evictions(kept + added, curated_scores, budget)
        } else {
            Seq::empty()
        },
        merged: curated_only(whole(cs), whole(cs).len() as int).len() - kept.len(),
    }
}

/// Whether `v` is what `s` scores a chunk that was seen that often.
pub open spec fn scored_by<S: Salience<MemoryChunk>>(
    s: &S,
    c: ChunkView,
    seen: nat,
    v: Score,
) -> bool {
    exists|m: MemoryChunk| m@ == c && #[trigger] call_ensures(S::score, (s, &m, seen as u32), v)
}

/// Whether `scores` are the scores of those chunks, each with the number of
/// days on which its content was recorded.
pub open spec fn all_scored_by<S: Salience<MemoryChunk>>(
    s: &S,
    cs: Seq<ChunkView>,
    daily: Seq<ChunkView>,
    scores: Seq<Score>,
) -> bool {
    &&& scores.len() == cs.len()
    &&& forall|i: int|
        0 <= i < cs.len() ==> scored_by(
            s,
            #[trigger] cs[i],
            occurrences(daily, ckey(cs[i])),
            scores[i],
        )
}

/// The score of each chunk.
fn score_all<S: Salience<MemoryChunk>>(
    salience: &S,
    cs: &Vec<MemoryChunk>,
    daily: &Vec<MemoryChunk>,
) -> (r: Vec<Score>)
    requires
        daily@.len() <= u32::MAX,
    ensures
        all_scored_by(salience, chunk::chunk_views(cs@), chunk::chunk_views(daily@), r@),
{
    let ghost cv = chunk::chunk_views(cs@);
    let ghost dv = chunk::chunk_views(daily@);
    let mut out: Vec<Score> = Vec::new();
    let mut i: usize = 0;
    while i < cs.len()
        invariant
            i <= cs@.len(),
            out@.len() == i,
            daily@.len() <= u32::MAX,
            cv == chunk::chunk_views(cs@),
            dv == chunk::chunk_views(daily@),
            forall|j: int|
                0 <= j < i ==> scored_by(
                    salience,
                    #[trigger] cv[j],
                    occurrences(dv, ckey(cv[j])),
                    out@[j],
                ),
        decreases cs@.len() - i,
    {
        let k: String = content_key(&cs[i]);
        let seen: u32 = count_occurrences(daily, k.as_str());
        let v: Score = salience.score(&cs[i], seen);
        proof {
            assert(cv[i as int] == cs@[i as int]@);
            assert(call_ensures(S::score, (salience, &cs@[i as int], seen), v));
            assert(scored_by(salience, cv[i as int], occurrences(dv, ckey(cv[i as int])), v));
        }
        out.push(v);
        i = i + 1;
    }
    out
}

impl Memory {
    /// Plans a consolidation pass over the chunks of all files. `existing` is the
    /// text of the curated file as it stands and `size` the size of that file,
    /// which is another where the file cannot be read; `index` holds the curated chunks of the recall
    /// index, where one is consulted for superseded facts. Nothing is done when
    /// memory is off.
    pub fn consolidate<S: Salience<MemoryChunk>>(
        &self,
        existing: &str,
        size: usize,
        chunks: &Vec<MemoryChunk>,
        salience: &S,
        index: Option<&Vec<MemoryChunk>>,
    ) -> (r: ConsolidationPlan)
        requires
            chunks@.len() <= u32::MAX,
        ensures
            r.report.bytes_before == size,
            !self.config.enabled ==> !r.report.ran && r.report.merged == 0 && r.report.promoted == 0
                && r.report.demoted == 0 && r.report.superseded@.len() == 0 && r.report.bytes_after
                == r.report.bytes_before && r.evicted@.len() == 0 && r.curated@.len() == 0
                && r.rendered@ == existing@,
            self.config.enabled ==> exists|ds: Seq<Score>, ks: Seq<Score>|
                #![trigger pass(
                    chunk::chunk_views(chunks@),
                    index_views(index),
                    ds,
                    ks,
                    self.config.evict_to_budget,
                    self.config.injection_budget_bytes as int,
                )]
                ({
                    let cs = chunk::chunk_views(chunks@);
                    let p = pass(
                        cs,
                        index_views(index),
                        ds,
                        ks,
                        self.config.evict_to_budget,
                        self.config.injection_budget_bytes as int,
                    );
                    &&& all_scored_by(salience, daily_of(cs), daily_of(cs), ds)
                    &&& self.config.evict_to_budget ==> all_scored_by(
                        salience,
                        p.kept + p.added,
                        daily_of(cs),
                        ks,
                    )
                    &&& carries_out(r, p, existing@)
                }),
    {
        let bytes_before: usize = size;
        if !self.config.enabled {
            return ConsolidationPlan {
                report: ConsolidationReport {
                    ran: false,
                    merged: 0,
                    promoted: 0,
                    demoted: 0,
                    bytes_before,
                    bytes_after: bytes_before,
                    superseded: Vec::new(),
                },
                curated: Vec::new(),
                evicted: Vec::new(),
                rendered: existing.to_owned(),
            };
        }
        let ghost cs = chunk::chunk_views(chunks@);
        let joined: Vec<MemoryChunk> = coalesce_windows(chunks);
        let (curated, daily) = split_sources(&joined);
        let kept: Vec<MemoryChunk> = merge_duplicates(&curated);
        proof {
            assert(chunk::chunk_views(joined@).len() == joined@.len());
            assert(chunk::chunk_views(curated@).len() == curated@.len());
            assert(chunk::chunk_views(daily@).len() == daily@.len());
        }
        let merged: usize = curated.len() - kept.len();
        let daily_scores: Vec<Score> = score_all(salience, &daily, &daily);
        let (added, edges) = promote(&kept, &daily, &daily_scores, index);
        let promoted_count: usize = added.len();
        let all: Vec<MemoryChunk> = concat_chunks(kept, added);
        let ghost before = chunk::chunk_views(all@);
        let mut evicted: Vec<String> = Vec::new();
        let mut scores: Vec<Score> = Vec::new();
        let after: Vec<MemoryChunk> = if self.config.evict_to_budget {
            scores = score_all(salience, &all, &daily);
            let budget: usize = self.config.injection_budget_bytes;
            let copies: Vec<Score> = copy_scores(&scores);
            let (a, e) = demote(all, copies, budget);
            evicted = e;
            a
        } else {
            all
        };
        let rendered: String = render_curated(&after);
        let regrouped: bool = !same_text(rendered.as_str(), existing);
        let demoted: usize = evicted.len();
        let ran: bool = merged > 0 || promoted_count > 0 || demoted > 0 || regrouped;
        let bytes_after: usize = if ran {
            byte_len(rendered.as_str())
        } else {
            bytes_before
        };
        let r = ConsolidationPlan {
            report: ConsolidationReport {
                ran,
                merged,
                promoted: promoted_count,
                demoted,
                bytes_before,
                bytes_after,
                superseded: edges,
            },
            curated: after,
            evicted,
            rendered,
        };
        proof {
            let p = pass(
                cs,
                index_views(index),
                daily_scores@,
                scores@,
                self.config.evict_to_budget,
                self.config.injection_budget_bytes as int,
            );
            assert(text::views(r.evicted@).len() == r.evicted@.len());
            assert(text::views(r.evicted@) =~= p.evicted);
            assert(carries_out(r, p, existing@));
        }
        r
    }
}

/// Whether a plan carries out a pass over a curated file that holds `existing`.
pub open spec fn carries_out(r: ConsolidationPlan, p: PassView, existing: Seq<char>) -> bool {
    &&& chunk::chunk_views(r.curated@) == p.curated
    &&& text::views(r.evicted@) == p.evicted
    &&& edge_views(r.report.superseded@) == p.edges
    &&& r.rendered@ == render::rendered(p.curated)
    &&& r.report.merged == p.merged
    &&& r.report.promoted == p.added.len()
    &&& r.report.demoted == p.evicted.len()
    &&& r.report.ran == (p.merged > 0 || p.added.len() > 0 || p.evicted.len() > 0
        || render::rendered(p.curated) != existing)
    &&& r.report.bytes_after == (if r.report.ran {
        text::utf8_len(render::rendered(p.curated))
    } else {
        r.report.bytes_before as nat
    })
}

/// Two lists of chunks, one after the other.
fn concat_chunks(a: Vec<MemoryChunk>, b: Vec<MemoryChunk>) -> (r: Vec<MemoryChunk>)
    ensures
        chunk::chunk_views(r@) == chunk::chunk_views(a@) + chunk::chunk_views(b@),
{
    let mut out: Vec<MemoryChunk> = a;
    let mut rest: Vec<MemoryChunk> = b;
    out.append(&mut rest);
    proof {
        assert(chunk::chunk_views(out@) =~= chunk::chunk_views(a@) + chunk::chunk_views(b@));
    }
    out
}

/// A copy of the scores.
fn copy_scores(s: &Vec<Score>) -> (r: Vec<Score>)
    ensures
        r@ == s@,
{
    let mut out: Vec<Score> = Vec::new();
    let mut i: usize = 0;
    while i < s.len()
        invariant
            i <= s@.len(),
            out@ == s@.take(i as int),
        decreases s@.len() - i,
    {
        out.push(s[i]);
        i = i + 1;
        assert(out@ =~= s@.take(i as int));
    }
    assert(s@.take(i as int) =~= s@);
    out
}

// ---------------------------------------------------------------------------
// Laws
// ---------------------------------------------------------------------------

/// The texts of chunks.
pub open spec fn texts(cs: Seq<ChunkView>) -> Seq<Seq<char>> {
    Seq::new(cs.len(), |i: int| cs[i].text)
}

/// Eviction loses nothing: the texts of the chunks that stay and the evicted
/// texts are together, each as often, the texts that were there.
pub proof fn law_eviction_loses_nothing(cs: Seq<ChunkView>, scores: Seq<Score>, budget: int)
    requires
        scores.len() == cs.len(),
    ensures
        texts(survivors(cs, scores, budget)).to_multiset().add(
            evictions(cs, scores, budget).to_multiset(),
        ) =~= texts(cs).to_multiset(),
    decreases cs.len(),
{
    broadcast use vstd::seq_lib::group_to_multiset_ensures;

    let stay = texts(survivors(cs, scores, budget)).to_multiset();
    let gone = evictions(cs, scores, budget);
    if over_budget(cs, budget) {
        let w = least(scores, cs.len() as int);
        lemma_least(scores, cs.len() as int);
        law_eviction_loses_nothing(cs.remove(w), scores.remove(w), budget);
        let t = cs[w].text;
        let rest = evictions(cs.remove(w), scores.remove(w), budget);
        let had = texts(cs).to_multiset();
        assert(texts(cs.remove(w)) =~= texts(cs).remove(w));
        assert(texts(cs).remove(w).to_multiset() =~= had.remove(texts(cs)[w]));
        assert(texts(cs)[w] == t);
        assert(stay.add(rest.to_multiset()) =~= had.remove(t));
        vstd::seq_lib::lemma_multiset_commutative(seq![t], rest);
        assert(seq![t].to_multiset() =~= vstd::multiset::Multiset::singleton(t)) by {
            assert(seq![t] =~= Seq::empty().push(t));
        }
        assert(gone == seq![t] + rest);
        assert(gone.to_multiset() =~= vstd::multiset::Multiset::singleton(t).add(
            rest.to_multiset(),
        ));
        assert(had.count(t) > 0) by {
            assert(texts(cs).contains(texts(cs)[w]));
        }
        assert(stay.add(gone.to_multiset()) =~= had.remove(t).add(
            vstd::multiset::Multiset::singleton(t),
        ));
        assert(had.remove(t).add(vstd::multiset::Multiset::singleton(t)) =~= had);
    } else {
        assert(gone =~= Seq::<Seq<char>>::empty());
        assert(gone.to_multiset() =~= vstd::multiset::Multiset::empty());
        assert(stay.add(gone.to_multiset()) =~= stay);
    }
}

/// After eviction the curated file fits the budget, or a single chunk is left;
/// and nothing is evicted from a file that fits.
pub proof fn law_eviction_reaches_the_budget(cs: Seq<ChunkView>, scores: Seq<Score>, budget: int)
    requires
        scores.len() == cs.len(),
    ensures
        text::utf8_len(render::rendered(survivors(cs, scores, budget))) <= budget || survivors(
            cs,
            scores,
            budget,
        ).len() <= 1,
        cs.len() > 0 ==> survivors(cs, scores, budget).len() > 0,
        text::utf8_len(render::rendered(cs)) <= budget ==> survivors(cs, scores, budget) == cs
            && evictions(cs, scores, budget).len() == 0,
    decreases cs.len(),
{
    if over_budget(cs, budget) {
        lemma_least(scores, cs.len() as int);
        let w = least(scores, cs.len() as int);
        law_eviction_reaches_the_budget(cs.remove(w), scores.remove(w), budget);
    }
}

/// The first chunk to be evicted has the least score, and of equal ones it is
/// the first.
pub proof fn law_least_salient_goes_first(cs: Seq<ChunkView>, scores: Seq<Score>, budget: int)
    requires
        scores.len() == cs.len(),
        over_budget(cs, budget),
    ensures
        exists|w: int|
            0 <= w < cs.len() && evictions(cs, scores, budget)[0] == #[trigger] cs[w].text && (
            forall|i: int| 0 <= i < cs.len() ==> scores[w] <= #[trigger] scores[i]) && (forall|
                i: int,
            |
                0 <= i < w ==> scores[w] < #[trigger] scores[i]),
{
    let w = least(scores, cs.len() as int);
    lemma_least(scores, cs.len() as int);
    assert(evictions(cs, scores, budget)[0] == cs[w].text);
}

/// Merging keeps one chunk of every content, the first, and no two of one.
pub proof fn law_merge_keeps_one_of_each(cs: Seq<ChunkView>, n: int)
    requires
        0 <= n <= cs.len(),
    ensures
        forall|i: int| 0 <= i < n ==> has_key(distinct(cs, n), ckey(#[trigger] cs[i])),
        forall|i: int, j: int|
            0 <= i < j < distinct(cs, n).len() ==> ckey(#[trigger] distinct(cs, n)[i]) != ckey(
                #[trigger] distinct(cs, n)[j],
            ),
        forall|i: int|
            0 <= i < distinct(cs, n).len() ==> cs.contains(#[trigger] distinct(cs, n)[i]),
    decreases n,
{
    if n > 0 {
        law_merge_keeps_one_of_each(cs, n - 1);
        let prev = distinct(cs, n - 1);
        let out = distinct(cs, n);
        assert forall|i: int| 0 <= i < n implies has_key(out, ckey(#[trigger] cs[i])) by {
            if i == n - 1 {
                if !has_key(prev, ckey(cs[i])) {
                    assert(out[out.len() - 1] == cs[i]);
                }
            } else {
                let j = choose|j: int| 0 <= j < prev.len() && ckey(#[trigger] prev[j]) == ckey(cs[i]);
                assert(out[j] == prev[j]);
            }
        }
        assert forall|i: int| 0 <= i < out.len() implies cs.contains(#[trigger] out[i]) by {
            if i < prev.len() {
                assert(out[i] == prev[i]);
            } else {
                assert(out[i] == cs[n - 1]);
            }
        }
    }
}

/// Merging again changes nothing.
pub proof fn law_merge_is_idempotent(cs: Seq<ChunkView>)
    ensures
        distinct(distinct(cs, cs.len() as int), distinct(cs, cs.len() as int).len() as int)
            == distinct(cs, cs.len() as int),
{
    let d = distinct(cs, cs.len() as int);
    law_merge_keeps_one_of_each(cs, cs.len() as int);
    lemma_distinct_of_distinct(d, d.len() as int);
    assert(d.take(d.len() as int) =~= d);
}

/// Chunks of different contents are all kept.
pub proof fn lemma_distinct_of_distinct(d: Seq<ChunkView>, n: int)
    requires
        0 <= n <= d.len(),
        forall|i: int, j: int|
            0 <= i < j < d.len() ==> ckey(#[trigger] d[i]) != ckey(#[trigger] d[j]),
    ensures
        distinct(d, n) == d.take(n),
    decreases n,
{
    if n > 0 {
        lemma_distinct_of_distinct(d, n - 1);
        let prev = d.take(n - 1);
        assert(!has_key(prev, ckey(d[n - 1]))) by {
            assert forall|i: int| 0 <= i < prev.len() implies ckey(#[trigger] prev[i]) != ckey(
                d[n - 1],
            ) by {
                assert(prev[i] == d[i]);
            }
        }
        assert(prev.push(d[n - 1]) =~= d.take(n));
    } else {
        assert(d.take(0) =~= Seq::<ChunkView>::empty());
    }
}

/// A promotion is a daily fact whose content is not curated and whose score
/// reaches the cutoff; no other daily chunk of that content that reaches it
/// scores higher.
pub proof fn law_promotions_are_the_best_eligible(
    daily: Seq<ChunkView>,
    scores: Seq<Score>,
    kept: Seq<ChunkView>,
    n: int,
    k: Seq<char>,
)
    requires
        0 <= n <= daily.len(),
        scores.len() == daily.len(),
    ensures
        match best(daily, scores, kept, n, k) {
            Some(b) => 0 <= b < n && eligible(daily, scores, kept, b) && ckey(daily[b]) == k && (
            forall|i: int|
                0 <= i < n && eligible(daily, scores, kept, i) && ckey(#[trigger] daily[i]) == k
                    ==> scores[i] <= scores[b]),
            None => forall|i: int|
                0 <= i < n && ckey(#[trigger] daily[i]) == k ==> !eligible(daily, scores, kept, i),
        },
    decreases n,
{
    if n > 0 {
        law_promotions_are_the_best_eligible(daily, scores, kept, n - 1, k);
    }
}

/// What is already curated is never promoted.
pub proof fn law_curated_facts_are_not_promoted(
    daily: Seq<ChunkView>,
    scores: Seq<Score>,
    kept: Seq<ChunkView>,
    k: Seq<char>,
)
    requires
        has_key(kept, k),
        scores.len() == daily.len(),
    ensures
        !promoted_keys(daily, scores, kept, daily.len() as int).contains(k),
{
    let n = daily.len() as int;
    lemma_promoted_keys(daily, scores, kept, n, k);
    law_promotions_are_the_best_eligible(daily, scores, kept, n, k);
}

/// A suppressed fact, which scores 0, is never promoted.
pub proof fn law_suppressed_facts_are_not_promoted(
    daily: Seq<ChunkView>,
    scores: Seq<Score>,
    kept: Seq<ChunkView>,
    k: Seq<char>,
)
    requires
        scores.len() == daily.len(),
        forall|i: int|
            0 <= i < daily.len() && ckey(#[trigger] daily[i]) == k ==> scores[i] == SCORE_ZERO,
    ensures
        !promoted_keys(daily, scores, kept, daily.len() as int).contains(k),
{
    let n = daily.len() as int;
    lemma_promoted_keys(daily, scores, kept, n, k);
    law_promotions_are_the_best_eligible(daily, scores, kept, n, k);
}

} // verus!
