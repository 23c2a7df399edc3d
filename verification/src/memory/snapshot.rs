//! The salience that consolidation uses, gathered from recorded usage.
use vstd::prelude::*;
use vstd::string::*;
use crate::memory::chunk;
use crate::memory::chunk::{ChunkView, MemoryChunk};
use crate::memory::config::{Memory, Score};
use crate::memory::consolidate::ChunkStatsSalience;
use crate::memory::keys;
use crate::memory::keys::chunk_key;
use crate::memory::stats;
use crate::memory::stats::{ChunkStats, EffectiveStat};
use crate::text;

verus! {

/// The keys of chunks.
pub open spec fn chunk_keys(c: Seq<ChunkView>) -> Seq<Seq<char>> {
    Seq::new(c.len(), |i: int| keys::chunk_key_spec(c[i]))
}

/// The keys of chunks.
pub fn keys_of(chunks: &Vec<MemoryChunk>) -> (r: Vec<String>)
    ensures
        text::views(r@) == chunk_keys(chunk::chunk_views(chunks@)),
{
    let ghost all = chunk_keys(chunk::chunk_views(chunks@));
    let mut out: Vec<String> = Vec::new();
    let mut i: usize = 0;
    while i < chunks.len()
        invariant
            i <= chunks@.len(),
            all == chunk_keys(chunk::chunk_views(chunks@)),
            text::views(out@) == all.take(i as int),
        decreases chunks@.len() - i,
    {
        let ghost before = text::views(out@);
        let k: String = chunk_key(&chunks[i]);
        out.push(k);
        proof {
            assert(chunk::chunk_views(chunks@)[i as int] == chunks@[i as int]@);
            assert(text::views(out@) =~= before.push(all[i as int]));
        }
        i = i + 1;
        proof {
            assert(text::views(out@) =~= all.take(i as int));
        }
    }
    proof {
        assert(all.take(i as int) =~= all);
    }
    out
}

/// The weights among statistics.
pub open spec fn weights_of(s: Seq<(Seq<char>, EffectiveStat)>) -> Seq<(Seq<char>, Score)> {
    Seq::new(s.len(), |i: int| (s[i].0, s[i].1.weight))
}

impl Memory {
    /// Salience from recorded usage: the weights of the curated chunks as of now,
    /// which `decayed` gives, and the facts whose promotion is suppressed.
    pub fn chunk_stats_salience<D>(
        &self,
        index: &ChunkStats,
        curated: &Vec<MemoryChunk>,
        decayed: &Vec<Score>,
        daily: D,
    ) -> (r: ChunkStatsSalience<D>)
        requires
            index.wf(),
            decayed@.len() == curated@.len(),
        ensures
            stats::keyed_views(r.weights@) == weights_of(
                if index.decay.enabled {
                    stats::effective(
                        index@,
                        chunk_keys(chunk::chunk_views(curated@)),
                        decayed@,
                        curated@.len() as int,
                    )
                } else {
                    Seq::empty()
                },
            ),
            forall|k: Seq<char>|
                #[trigger] index@.dom().contains(k) && index@[k].suppress_promotion ==> text::views(
                    r.suppressed@,
                ).contains(keys::content_part(k)),
            forall|p: Seq<char>| #[trigger]
                text::views(r.suppressed@).contains(p) ==> exists|k: Seq<char>|
                    #[trigger] index@.dom().contains(k) && index@[k].suppress_promotion
                        && keys::content_part(k) == p,
            r.daily == daily,
    {
        let ks: Vec<String> = keys_of(curated);
        assert(text::views(ks@).len() == curated@.len());
        let live: Vec<(String, EffectiveStat)> = index.effective_stats(&ks, decayed);
        let ghost lv = stats::keyed_views(live@);
        let mut weights: Vec<(String, Score)> = Vec::new();
        let mut i: usize = 0;
        while i < live.len()
            invariant
                i <= live@.len(),
                lv == stats::keyed_views(live@),
                stats::keyed_views(weights@) == weights_of(lv).take(i as int),
            decreases live@.len() - i,
        {
            let ghost before = stats::keyed_views(weights@);
            weights.push((live[i].0.clone(), live[i].1.weight));
            proof {
                assert(lv[i as int] == (live@[i as int].0@, live@[i as int].1));
                assert(stats::keyed_views(weights@) =~= before.push(weights_of(lv)[i as int]));
            }
            i = i + 1;
            proof {
                assert(stats::keyed_views(weights@) =~= weights_of(lv).take(i as int));
            }
        }
        proof {
            assert(weights_of(lv).take(i as int) =~= weights_of(lv));
        }
        let suppressed: Vec<String> = index.suppressed_promotion_keys();
        let ghost sv = text::views(suppressed@);
        let r: ChunkStatsSalience<D> = ChunkStatsSalience::with_suppressed(
            weights,
            &suppressed,
            daily,
        );
        proof {
            let parts = text::views(r.suppressed@);
            assert forall|k: Seq<char>|
                #[trigger] index@.dom().contains(k) && index@[k].suppress_promotion implies parts
                .contains(keys::content_part(k)) by {
                assert(sv.contains(k));
                let j = choose|j: int| 0 <= j < sv.len() && sv[j] == k;
                assert(suppressed@[j]@ == k);
                assert(parts[j] == keys::content_part(k));
            }
            assert forall|p: Seq<char>| #[trigger] parts.contains(p) implies exists|k: Seq<char>|
                #[trigger] index@.dom().contains(k) && index@[k].suppress_promotion
                    && keys::content_part(k) == p by {
                let j = choose|j: int| 0 <= j < parts.len() && parts[j] == p;
                let k = suppressed@[j]@;
                assert(sv[j] == k);
                assert(sv.contains(k));
                assert(index@.dom().contains(k));
            }
        }
        r
    }
}

} // verus!
