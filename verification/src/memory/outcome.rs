//! Settling a finished session against memory: which chunks it touched, and
//! what its outcome does to them.
use vstd::prelude::*;
use vstd::string::*;
use crate::memory::config::Score;
use crate::memory::keys;
use crate::memory::stats;
use crate::memory::stats::{ChunkStats, StatMap};
use crate::text;
use crate::text::holds_text;

verus! {

/// The chunk keys that a session touched, each once.
#[derive(Debug)]
pub struct TouchLog {
    keys: Vec<String>,
}

impl View for TouchLog {
    type V = Set<Seq<char>>;

    closed spec fn view(&self) -> Set<Seq<char>> {
        text::views(self.keys@).to_set()
    }
}

impl TouchLog {
    /// Whether no key is held twice.
    pub closed spec fn wf(&self) -> bool {
        text::views(self.keys@).no_duplicates()
    }

    /// An empty log.
    pub fn new() -> (r: Self)
        ensures
            r.wf(),
            r@ == Set::<Seq<char>>::empty(),
    {
        let r = TouchLog { keys: Vec::new() };
        assert(r@ =~= Set::<Seq<char>>::empty());
        r
    }

    /// Records a touched key. A key that is there already stays once.
    pub fn record(&mut self, key: String)
        requires
            old(self).wf(),
        ensures
            final(self).wf(),
            final(self)@ == old(self)@.insert(key@),
            old(self)@.finite() && final(self)@.finite(),
            final(self)@.len() == old(self)@.len() + (if old(self)@.contains(key@) {
                0int
            } else {
                1
            }),
    {
        proof {
            law_a_log_is_finite(self);
        }
        let ghost before = text::views(self.keys@);
        if !holds_text(&self.keys, key.as_str()) {
            let ghost k = key@;
            self.keys.push(key);
            proof {
                let now = text::views(self.keys@);
                assert(now =~= before.push(k));
                assert(now.to_set() =~= before.to_set().insert(k)) by {
                    assert forall|x: Seq<char>| #[trigger] now.to_set().contains(x)
                        <==> before.to_set().insert(k).contains(x) by {
                        if before.contains(x) {
                            let i = choose|i: int| 0 <= i < before.len() && before[i] == x;
                            assert(now[i] == x);
                        }
                        if x == k {
                            assert(now[before.len() as int] == x);
                        }
                        if now.contains(x) && x != k {
                            let i = choose|i: int| 0 <= i < now.len() && now[i] == x;
                            assert(before[i] == x);
                        }
                    }
                }
            }
        } else {
            proof {
                assert(before.to_set() =~= before.to_set().insert(key@));
            }
        }
    }

    /// Records several touched keys.
    pub fn extend(&mut self, keys: Vec<String>)
        requires
            old(self).wf(),
        ensures
            final(self).wf(),
            final(self)@ == old(self)@.union(text::views(keys@).to_set()),
    {
        let ghost kv = text::views(keys@);
        let ghost had = self@;
        let mut i: usize = 0;
        assert(had.union(kv.take(0).to_set()) =~= had);
        while i < keys.len()
            invariant
                i <= keys@.len(),
                self.wf(),
                kv == text::views(keys@),
                self@ == had.union(kv.take(i as int).to_set()),
            decreases keys@.len() - i,
        {
            let k: String = keys[i].clone();
            self.record(k);
            proof {
                let a = kv.take(i as int);
                let b = kv.take(i + 1);
                assert(b =~= a.push(kv[i as int]));
                assert(had.union(a.to_set()).insert(kv[i as int]) =~= had.union(b.to_set())) by {
                    assert forall|x: Seq<char>| #[trigger] b.to_set().contains(x)
                        <==> a.to_set().contains(x) || x == kv[i as int] by {
                        if a.contains(x) {
                            let j = choose|j: int| 0 <= j < a.len() && a[j] == x;
                            assert(b[j] == x);
                        }
                        if x == kv[i as int] {
                            assert(b[i as int] == x);
                        }
                        if b.contains(x) && x != kv[i as int] {
                            let j = choose|j: int| 0 <= j < b.len() && b[j] == x;
                            assert(a[j] == x);
                        }
                    }
                }
            }
            i = i + 1;
        }
        proof {
            assert(kv.take(i as int) =~= kv);
        }
    }

    /// Takes the recorded keys, each once, and leaves the log empty.
    pub fn drain(&mut self) -> (r: Vec<String>)
        requires
            old(self).wf(),
        ensures
            final(self).wf(),
            final(self)@ == Set::<Seq<char>>::empty(),
            text::views(r@).no_duplicates(),
            text::views(r@).to_set() == old(self)@,
    {
        let mut out: Vec<String> = Vec::new();
        std::mem::swap(&mut out, &mut self.keys);
        proof {
            assert(text::views(self.keys@) =~= Seq::<Seq<char>>::empty());
            assert(self@ =~= Set::<Seq<char>>::empty());
        }
        out
    }

    /// The number of recorded keys.
    pub fn len(&self) -> (r: usize)
        requires
            self.wf(),
        ensures
            self@.finite(),
            r == self@.len(),
    {
        proof {
            law_a_log_is_finite(self);
            text::views(self.keys@).unique_seq_to_set();
        }
        self.keys.len()
    }

    /// Whether no key has been recorded.
    pub fn is_empty(&self) -> (r: bool)
        requires
            self.wf(),
        ensures
            r == (self@ == Set::<Seq<char>>::empty()),
    {
        proof {
            let v = text::views(self.keys@);
            if v.len() > 0 {
                assert(v.contains(v[0]));
                assert(self@.contains(v[0]));
            } else {
                assert(self@ =~= Set::<Seq<char>>::empty());
            }
        }
        self.keys.len() == 0
    }
}

/// What the outcome of a session or goal says of the work.
#[derive(Debug, Clone, Copy, PartialEq, Eq)]
pub enum Verdict {
    /// It reached its end: the touched chunks are reinforced, and their
    /// suppression is lifted.
    Success,
    /// It did not: the touched chunks are kept from promotion.
    Failure,
    /// Nothing can be said: memory stays as it is.
    Undecided,
}

/// The statistics after the first `n` keys are kept from promotion.
pub open spec fn suppressed_all(m: StatMap, ks: Seq<Seq<char>>, n: int, now_ms: i64) -> StatMap
    decreases n,
{
    if n <= 0 {
        m
    } else {
        stats::suppression_set(suppressed_all(m, ks, n - 1, now_ms), ks[n - 1], true, now_ms)
    }
}

/// The statistics after a verdict on a session that touched those keys.
pub open spec fn settled(
    m: StatMap,
    enabled: bool,
    verdict: Verdict,
    ks: Seq<Seq<char>>,
    lifted: Seq<Score>,
    now_ms: i64,
) -> StatMap {
    if ks.len() == 0 {
        m
    } else {
        match verdict {
            Verdict::Success => stats::rewarded(m, enabled, ks, lifted, now_ms),
            Verdict::Failure => suppressed_all(m, ks, ks.len() as int, now_ms),
            Verdict::Undecided => m,
        }
    }
}

/// Applies outcomes to the statistics of memory.
pub struct MemoryOutcomeSink {
    /// The statistics.
    pub index: ChunkStats,
}

impl MemoryOutcomeSink {
    /// A sink for those statistics.
    pub fn new(index: ChunkStats) -> (r: Self)
        ensures
            r.index == index,
    {
        MemoryOutcomeSink { index }
    }

    /// Settles the touched keys against a verdict. Verdicts apply in the order
    /// of the calls: of two on the same content the later one decides whether it
    /// is kept from promotion. `lifted` gives the weights that a success lifts
    /// the touched chunks to.
    pub fn settle(
        &mut self,
        verdict: Verdict,
        touched: &Vec<String>,
        lifted: &Vec<Score>,
        now_ms: i64,
    )
        requires
            old(self).index.wf(),
            lifted@.len() == touched@.len(),
            stats::has_room(old(self).index@, touched@.len() as int),
        ensures
            final(self).index.wf(),
            final(self).index.decay == old(self).index.decay,
            final(self).index@ == settled(
                old(self).index@,
                old(self).index.decay.enabled,
                verdict,
                text::views(touched@),
                lifted@,
                now_ms,
            ),
    {
        let ghost m = self.index@;
        let ghost kv = text::views(touched@);
        proof {
            assert(kv.len() == touched@.len());
        }
        if touched.len() == 0 {
            return ;
        }
        match verdict {
            Verdict::Success => {
                self.index.reinforce_outcome_at(touched, lifted, now_ms);
            },
            Verdict::Failure => {
                let mut i: usize = 0;
                while i < touched.len()
                    invariant
                        i <= touched@.len(),
                        self.index.wf(),
                        self.index.decay == old(self).index.decay,
                        kv == text::views(touched@),
                        self.index@ == suppressed_all(m, kv, i as int, now_ms),
                    decreases touched@.len() - i,
                {
                    assert(kv[i as int] == touched@[i as int]@);
                    self.index.set_suppress_promotion_at(touched[i].as_str(), true, now_ms);
                    i = i + 1;
                }
            },
            Verdict::Undecided => {},
        }
    }
}

proof fn lemma_suppressed_all(m: StatMap, ks: Seq<Seq<char>>, n: int, now_ms: i64, k: Seq<char>)
    requires
        0 <= n <= ks.len(),
    ensures
        suppressed_all(m, ks, n, now_ms).dom().contains(k) <==> m.dom().contains(k) || ks.take(
            n,
        ).contains(k),
        ks.take(n).contains(k) ==> suppressed_all(m, ks, n, now_ms)[k].suppress_promotion,
        m.dom().contains(k) && !ks.take(n).contains(k) ==> suppressed_all(m, ks, n, now_ms)[k]
            == m[k],
    decreases n,
{
    if n > 0 {
        lemma_suppressed_all(m, ks, n - 1, now_ms, k);
        let a = ks.take(n - 1);
        let b = ks.take(n);
        if a.contains(k) {
            let j = choose|j: int| 0 <= j < a.len() && a[j] == k;
            assert(b[j] == k);
        }
        if b.contains(k) {
            let j = choose|j: int| 0 <= j < b.len() && b[j] == k;
            if j < n - 1 {
                assert(a[j] == k);
            }
        }
        assert(b[n - 1] == ks[n - 1]);
    } else {
        assert(!ks.take(0).contains(k));
    }
}

/// A log holds finitely many keys.
pub proof fn law_a_log_is_finite(log: &TouchLog)
    requires
        log.wf(),
    ensures
        log@.finite(),
{
    vstd::seq_lib::seq_to_set_is_finite(text::views(log.keys@));
}

/// Recording a key keeps every key that was recorded before, makes the log longer
/// by one unless the key was there, and recording it again changes nothing.
pub proof fn law_recording_again_changes_nothing(keys: Set<Seq<char>>, k: Seq<char>, x: Seq<char>)
    requires
        keys.finite(),
    ensures
        keys.insert(k).contains(k),
        keys.contains(x) ==> keys.insert(k).contains(x),
        keys.insert(k).len() == keys.len() + (if keys.contains(k) {
            0int
        } else {
            1
        }),
        keys.insert(k).insert(k) == keys.insert(k),
{
    assert(keys.insert(k).insert(k) =~= keys.insert(k));
}

/// A failure keeps every touched chunk from promotion, starts a row where there
/// is none, and changes nothing of other chunks.
pub proof fn law_failure_suppresses_every_touched_key(
    m: StatMap,
    enabled: bool,
    ks: Seq<Seq<char>>,
    lifted: Seq<Score>,
    now_ms: i64,
    k: Seq<char>,
)
    ensures
        ({
            let after = settled(m, enabled, Verdict::Failure, ks, lifted, now_ms);
            &&& ks.contains(k) ==> after.dom().contains(k) && after[k].suppress_promotion
            &&& !ks.contains(k) && m.dom().contains(k) ==> after.dom().contains(k) && after[k]
                == m[k]
            &&& !ks.contains(k) && !m.dom().contains(k) ==> !after.dom().contains(k)
        }),
{
    assert(ks.take(ks.len() as int) =~= ks);
    lemma_suppressed_all(m, ks, ks.len() as int, now_ms, k);
}

/// Of two verdicts on the same content the later decides: a success after a
/// failure lifts the suppression, under whatever day the content was flagged,
/// and a failure after a success sets it again.
pub proof fn law_last_verdict_wins(
    m: StatMap,
    enabled: bool,
    failed: Seq<Seq<char>>,
    passed: Seq<Seq<char>>,
    lifted1: Seq<Score>,
    lifted2: Seq<Score>,
    t1: i64,
    t2: i64,
    k: Seq<char>,
)
    requires
        failed.contains(k),
        stats::shares_content(passed, k),
    ensures
        ({
            let f = settled(m, enabled, Verdict::Failure, failed, lifted1, t1);
            let fs = settled(f, enabled, Verdict::Success, passed, lifted2, t2);
            let s = settled(m, enabled, Verdict::Success, passed, lifted2, t1);
            let sf = settled(s, enabled, Verdict::Failure, failed, lifted1, t2);
            &&& fs.dom().contains(k) && !fs[k].suppress_promotion
            &&& sf.dom().contains(k) && sf[k].suppress_promotion
        }),
{
    let f = settled(m, enabled, Verdict::Failure, failed, lifted1, t1);
    let s = settled(m, enabled, Verdict::Success, passed, lifted2, t1);
    law_failure_suppresses_every_touched_key(m, enabled, failed, lifted1, t1, k);
    stats::law_success_rehabilitates_by_content(f, enabled, passed, lifted2, t2, k);
    law_failure_suppresses_every_touched_key(s, enabled, failed, lifted1, t2, k);
}

/// A session that touched nothing, or whose outcome is undecided, changes
/// nothing.
pub proof fn law_nothing_to_settle(
    m: StatMap,
    enabled: bool,
    verdict: Verdict,
    ks: Seq<Seq<char>>,
    lifted: Seq<Score>,
    now_ms: i64,
)
    requires
        ks.len() == 0 || verdict == Verdict::Undecided,
    ensures
        settled(m, enabled, verdict, ks, lifted, now_ms) == m,
{
}

} // verus!
