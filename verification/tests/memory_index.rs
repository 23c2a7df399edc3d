use flowforge::date::Date;
use flowforge::memory::chunk::{MemoryChunk, MemorySource};
use flowforge::memory::chunking::chunk_markdown;
use flowforge::memory::config::{DecayConfig, Memory, MemoryConfig};
use flowforge::memory::consolidate::{ConsolidationReport, Supersession};
use flowforge::memory::embed::{
    accept_vector, blob_to_vec, embeddings_endpoint, vec_to_blob, worth_asking, Embedder,
    NoopEmbedder,
};
use flowforge::memory::flush::{FlushLedger, FlushRecord};
use flowforge::memory::hits::{annotate, rerank, ScoredChunk};
use flowforge::memory::index::Fts5Index;
use flowforge::memory::keys::chunk_key;
use flowforge::memory::outcome::{MemoryOutcomeSink, TouchLog, Verdict};
use flowforge::memory::recall::{fts_query, fusion_pool, rank_by_score, vector_ranks};
use flowforge::memory::snapshot::keys_of;
use flowforge::memory::stats::{ChunkStat, ChunkStats};
use std::sync::{Arc, Mutex};

const DAY_MS: i64 = 86_400_000;
const T0: i64 = 1_700_000_000_000;

fn decayed_weight(weight: f32, last_ms: i64, now_ms: i64, factor: f32) -> f32 {
    let days = ((now_ms - last_ms) as f32 / DAY_MS as f32).max(0.0);
    weight * factor.powf(days)
}

fn reinforced_weight(weight: f32, gain: f32) -> f32 {
    weight + gain * (1.0 - weight)
}

fn chunks(md: &str, path: &str) -> Vec<MemoryChunk> {
    chunk_markdown(md, MemorySource::Curated, path)
}

fn day(y: i32, m: u32, d: u32) -> Date {
    Date::new(y, m, d).unwrap()
}

fn enabled_decay() -> DecayConfig {
    DecayConfig { enabled: true, ..DecayConfig::default() }
}

fn disabled_decay() -> DecayConfig {
    DecayConfig { enabled: false, ..DecayConfig::default() }
}

fn halving_decay() -> DecayConfig {
    DecayConfig { enabled: true, factor: 0.5_f32.to_bits(), ..DecayConfig::default() }
}

fn ambient_decay(gain: f32) -> DecayConfig {
    DecayConfig { enabled: true, ambient_gain: gain.to_bits(), ..DecayConfig::default() }
}

/// The tables of an index, with the weights worked out from the settings.
struct Index {
    state: Fts5Index,
}

impl Index {
    fn new(decay: DecayConfig) -> Index {
        Index { state: Fts5Index::new(decay) }
    }

    fn reindex(&mut self, cs: &Vec<MemoryChunk>) {
        self.state.reindex(cs);
    }

    fn decayed(&self, key: &str, now_ms: i64) -> f32 {
        match self.state.stats.get(key) {
            Some(s) => decayed_weight(
                f32::from_bits(s.weight),
                s.last_accessed_ms,
                now_ms,
                f32::from_bits(self.state.stats.decay.factor),
            ),
            None => 1.0,
        }
    }

    fn all_decayed(&self, keys: &Vec<String>, now_ms: i64) -> Vec<u32> {
        keys.iter().map(|k| self.decayed(k, now_ms).to_bits()).collect()
    }

    fn reinforce_at(&mut self, cs: &Vec<MemoryChunk>, now_ms: i64) {
        for c in cs {
            let key = chunk_key(c);
            let gain = f32::from_bits(self.state.stats.decay.reinforce_gain);
            let lifted = reinforced_weight(self.decayed(&key, now_ms), gain);
            self.state.stats.reinforce_at(&key, lifted.to_bits(), now_ms);
        }
    }

    fn reinforce_ambient_at(&mut self, key: &str, now_ms: i64) {
        let gain = f32::from_bits(self.state.stats.decay.ambient_gain);
        let lifted = reinforced_weight(self.decayed(key, now_ms), gain);
        self.state.stats.reinforce_ambient_at(key, lifted.to_bits(), now_ms);
    }

    fn reinforce_outcome_at(&mut self, keys: &Vec<String>, now_ms: i64) {
        let gain = f32::from_bits(self.state.stats.decay.reinforce_gain);
        let lifted = keys
            .iter()
            .map(|k| reinforced_weight(self.decayed(k, now_ms), gain).to_bits())
            .collect();
        self.state.stats.reinforce_outcome_at(keys, &lifted, now_ms);
    }

    fn read_stat(&self, key: &str) -> Option<(f32, i64, i64)> {
        self.state
            .stats
            .get(key)
            .map(|s| (f32::from_bits(s.weight), s.last_accessed_ms, s.access_count))
    }

    fn read_pinned(&self, key: &str) -> Option<bool> {
        self.state.stats.get(key).map(|s| s.pinned)
    }

    fn read_suppress(&self, key: &str) -> Option<bool> {
        self.state.stats.get(key).map(|s| s.suppress_promotion)
    }

    fn weights(&self, keys: &Vec<String>, now_ms: i64) -> Vec<(String, u32)> {
        self.state
            .stats
            .effective_stats(keys, &self.all_decayed(keys, now_ms))
            .into_iter()
            .map(|(k, s)| (k, s.weight))
            .collect()
    }

    fn snapshot(&self, key: &str, now_ms: i64) -> Option<(f32, u32, bool, bool)> {
        let keys = vec![key.to_string()];
        let all = self.state.stats.chunk_stats_snapshot(&keys, &self.all_decayed(&keys, now_ms));
        all.first()
            .map(|(_, s)| (f32::from_bits(s.weight), s.access_count, s.pinned, s.dormant))
    }
}

// --- keys and sources -------------------------------------------------------

#[test]
fn daily_source_round_trips_through_index() {
    let date = day(2026, 6, 18);
    let source = MemorySource::Daily { date };
    let cs = chunk_markdown("## Log\nshipped m5.1", source, "daily/2026-06-18.md");
    let mut idx = Index::new(DecayConfig::default());
    idx.reindex(&cs);
    assert!(matches!(&idx.state.chunks[0].source, MemorySource::Daily { date }
        if date.same(&day(2026, 6, 18))));
}

#[test]
fn reindex_is_a_full_replace() {
    let mut idx = Index::new(DecayConfig::default());
    idx.reindex(&chunks("## A\nalpha content", "MEMORY.md"));
    idx.reindex(&chunks("## B\nbeta content", "MEMORY.md"));
    assert_eq!(idx.state.chunks.len(), 1);
    assert!(idx.state.chunks[0].text.contains("beta"));
}

#[test]
fn reindex_path_replaces_only_that_file() {
    let mut idx = Index::new(DecayConfig::default());
    idx.state.reindex_path("a.md", &chunks("## A\napple", "a.md"));
    idx.state.reindex_path("b.md", &chunks("## B\nbanana", "b.md"));
    idx.state.reindex_path("a.md", &chunks("## A\navocado", "a.md"));
    let texts: Vec<&str> = idx.state.chunks.iter().map(|c| c.text.as_str()).collect();
    assert!(!texts.iter().any(|t| t.contains("apple")));
    assert_eq!(texts.iter().filter(|t| t.contains("avocado")).count(), 1);
    assert_eq!(texts.iter().filter(|t| t.contains("banana")).count(), 1);
}

#[test]
fn remove_path_drops_a_files_chunks() {
    let mut idx = Index::new(DecayConfig::default());
    idx.state.reindex_path("a.md", &chunks("## A\napple", "a.md"));
    idx.state.remove_path("a.md");
    assert!(idx.state.chunks.is_empty());
}

// --- queries ------------------------------------------------------------------

#[test]
fn empty_query_returns_nothing() {
    assert_eq!(fts_query("   "), None);
}

#[test]
fn special_chars_do_not_error() {
    assert_eq!(
        fts_query("origin: \"address\" - id").as_deref(),
        Some("\"origin\" \"address\" \"id\"")
    );
}

#[test]
fn the_pool_is_a_multiple_of_the_page() {
    assert_eq!(fusion_pool(10), 40);
    assert_eq!(fusion_pool(0), 0);
    assert_eq!(fusion_pool(usize::MAX), usize::MAX);
}

#[test]
fn ranks_follow_scores_and_keep_ties_in_order() {
    let s = |x: f32| x.to_bits();
    assert_eq!(rank_by_score(&vec![s(0.5), s(0.9), s(0.5)]), vec![1, 0, 2]);
    assert_eq!(vector_ranks(&vec![s(0.0), s(0.9), s(0.5)]), vec![None, Some(0), Some(1)]);
}

#[test]
fn the_best_hits_are_kept_in_order() {
    let hit = |text: &str| ScoredChunk {
        chunk: chunks(text, "MEMORY.md").remove(0),
        score: 0,
        weight: 1.0_f32.to_bits(),
        last_accessed_ms: None,
    };
    let hits = vec![hit("one"), hit("two"), hit("three")];
    let scores = vec![0.1_f32.to_bits(), 0.3_f32.to_bits(), 0.2_f32.to_bits()];
    let best = rerank(&hits, &scores, 2);
    let texts: Vec<&str> = best.iter().map(|h| h.chunk.text.as_str()).collect();
    assert_eq!(texts, vec!["two", "three"]);
    assert_eq!(best[0].score, 0.3_f32.to_bits());
}

#[test]
fn blob_round_trips_an_embedding() {
    let v: Vec<u32> = [0.5_f32, -1.25, 3.0, 0.0].iter().map(|x| x.to_bits()).collect();
    assert_eq!(blob_to_vec(&vec_to_blob(&v)), v);
    assert_eq!(vec_to_blob(&vec![1.0_f32.to_bits()]), 1.0_f32.to_le_bytes().to_vec());
    assert!(blob_to_vec(&vec![1, 2, 3]).is_empty());
}

// --- embeddings -----------------------------------------------------------------

#[test]
fn zero_vector_is_treated_as_no_vector() {
    let zero: Vec<u32> = vec![0.0_f32.to_bits(); 3];
    assert_eq!(accept_vector("hello", Some(zero)), None);
    assert_eq!(accept_vector("hello", Some(vec![(-0.0_f32).to_bits()])), None);
}

#[test]
fn non_2xx_falls_back_to_none() {
    assert_eq!(accept_vector("hello", None), None);
}

#[test]
fn embeds_text_from_an_openai_compatible_endpoint() {
    let v: Vec<u32> = [0.1_f32, 0.2, 0.3].iter().map(|x| x.to_bits()).collect();
    assert_eq!(accept_vector("hello", Some(v.clone())), Some(v));
    assert_eq!(embeddings_endpoint("http://h/v1"), "http://h/v1/embeddings");
    assert_eq!(embeddings_endpoint("http://h/v1/"), "http://h/v1/embeddings");
}

#[test]
fn empty_input_never_hits_the_network() {
    assert!(!worth_asking("   "));
    assert!(worth_asking("hello"));
    assert_eq!(accept_vector("   ", Some(vec![1])), None);
    assert_eq!(NoopEmbedder.embed_query("hello"), None);
}

// --- usage statistics -----------------------------------------------------------

#[test]
fn reinforce_records_new_chunk_at_full_weight() {
    let mut idx = Index::new(enabled_decay());
    let cs = chunks("## H\nalpha body", "MEMORY.md");
    idx.reindex(&cs);
    idx.reinforce_at(&cs, T0);
    let (w, _, count) = idx.read_stat(&chunk_key(&cs[0])).expect("stat row created");
    assert_eq!(w, 1.0);
    assert_eq!(count, 1);
}

#[test]
fn reinforce_decays_then_lifts_existing_weight() {
    let mut idx = Index::new(DecayConfig {
        enabled: true,
        factor: 0.5_f32.to_bits(),
        reinforce_gain: 0.3_f32.to_bits(),
        ..DecayConfig::default()
    });
    let cs = chunks("## H\nalpha body", "MEMORY.md");
    idx.reindex(&cs);
    idx.reinforce_at(&cs, 0);
    idx.reinforce_at(&cs, DAY_MS * 2);
    let (w, last, count) = idx.read_stat(&chunk_key(&cs[0])).unwrap();
    assert!((w - 0.475).abs() < 1e-4, "weight {w}");
    assert_eq!(last, DAY_MS * 2);
    assert_eq!(count, 2);
}

#[test]
fn disabled_records_stats_but_never_decays() {
    let mut idx = Index::new(disabled_decay());
    let cs = chunks("## H\nalpha body", "MEMORY.md");
    idx.reindex(&cs);
    idx.reinforce_at(&cs, 0);
    idx.reinforce_at(&cs, DAY_MS * 10);
    let (w, last, count) = idx.read_stat(&chunk_key(&cs[0])).unwrap();
    assert_eq!(w, 1.0, "weight must not decay when disabled");
    assert_eq!(last, DAY_MS * 10, "last_accessed is still recorded");
    assert_eq!(count, 2, "access_count is still recorded");
}

#[test]
fn stats_survive_edit_and_reindex_under_stable_key() {
    let mut idx = Index::new(enabled_decay());
    let cs = chunks("## H\nalpha body", "MEMORY.md");
    idx.reindex(&cs);
    idx.reinforce_at(&cs, T0);
    let key = chunk_key(&cs[0]);
    assert_eq!(idx.read_stat(&key).unwrap().2, 1);

    let edited = chunks("\n\n## H\nalpha body   \n\n", "MEMORY.md");
    assert_eq!(chunk_key(&edited[0]), key, "key must be stable across edits");
    idx.reindex(&edited);
    idx.reinforce_at(&edited, T0);
    let (_, _, count) = idx.read_stat(&key).expect("stat row survived reindex");
    assert_eq!(count, 2, "row persisted, so access_count accumulated");
}

#[test]
fn reindex_sweeps_orphaned_stats() {
    let mut idx = Index::new(enabled_decay());
    let cs = chunks("## H\nalpha body", "MEMORY.md");
    idx.reindex(&cs);
    idx.reinforce_at(&cs, T0);
    let stale_key = chunk_key(&cs[0]);
    assert!(idx.read_stat(&stale_key).is_some());

    idx.reindex(&chunks("## H\ncompletely different content", "MEMORY.md"));
    assert!(idx.read_stat(&stale_key).is_none(), "orphan must be swept");
}

#[test]
fn empty_reindex_sweeps_all_stats() {
    let mut idx = Index::new(enabled_decay());
    let cs = chunks("## H\nalpha body", "MEMORY.md");
    idx.reindex(&cs);
    idx.reinforce_at(&cs, T0);
    idx.reindex(&Vec::new());
    assert!(idx.read_stat(&chunk_key(&cs[0])).is_none());
}

#[test]
fn effective_stats_decays_at_read_time_without_persisting() {
    let mut idx = Index::new(halving_decay());
    let cs = chunks("## H\nalpha body", "MEMORY.md");
    idx.reindex(&cs);
    idx.reinforce_at(&cs, 0);
    let keys = keys_of(&cs);

    let decayed = idx.all_decayed(&keys, DAY_MS * 2);
    let stats = idx.state.stats.effective_stats(&keys, &decayed);
    assert_eq!(stats.len(), 1);
    let weight = f32::from_bits(stats[0].1.weight);
    assert!((weight - 0.25).abs() < 1e-4, "weight {weight}");
    assert_eq!(stats[0].1.last_accessed_ms, 0);
    assert_eq!(idx.read_stat(&keys[0]).unwrap().0, 1.0);
}

#[test]
fn effective_stats_omits_unknown_keys() {
    let idx = Index::new(enabled_decay());
    assert!(
        idx.weights(&vec!["nope".to_string()], 0).is_empty(),
        "unknown key absent -> caller treats as 1.0"
    );
}

#[test]
fn effective_stats_empty_when_decay_disabled() {
    let mut idx = Index::new(disabled_decay());
    let cs = chunks("## H\nalpha body", "MEMORY.md");
    idx.reindex(&cs);
    idx.reinforce_at(&cs, 0);
    assert!(
        idx.weights(&keys_of(&cs), DAY_MS * 100).is_empty(),
        "disabled -> nothing dormant"
    );
}

fn found(cs: &Vec<MemoryChunk>) -> Vec<ScoredChunk> {
    cs.iter()
        .map(|c| ScoredChunk {
            chunk: c.clone(),
            score: 0,
            weight: 1.0_f32.to_bits(),
            last_accessed_ms: None,
        })
        .collect()
}

#[test]
fn search_annotates_decayed_weight() {
    let mut idx = Index::new(halving_decay());
    let cs = chunks("## Prefs\nuser prefers rust", "MEMORY.md");
    idx.reindex(&cs);
    idx.reinforce_at(&cs, 0);
    let hits = annotate(&found(&cs), &idx.state.stats, &idx.all_decayed(&keys_of(&cs), T0));
    assert_eq!(hits.len(), 1);
    assert!(f32::from_bits(hits[0].weight) < 0.25);
    assert_eq!(hits[0].last_accessed_ms, Some(0));
}

#[test]
fn search_weight_stays_one_when_decay_disabled() {
    let mut idx = Index::new(disabled_decay());
    let cs = chunks("## Prefs\nuser prefers rust", "MEMORY.md");
    idx.reindex(&cs);
    idx.reinforce_at(&cs, 0);
    let hits = annotate(&found(&cs), &idx.state.stats, &idx.all_decayed(&keys_of(&cs), T0));
    assert_eq!(f32::from_bits(hits[0].weight), 1.0, "disabled decay -> weight neutral");
    assert_eq!(hits[0].last_accessed_ms, None);
}

#[test]
fn reinforce_ambient_bumps_existing_row_weaker_than_recall() {
    let mut idx = Index::new(ambient_decay(0.1));
    let cs = chunks("## H\nalpha body", "MEMORY.md");
    idx.reindex(&cs);
    idx.reinforce_at(&cs, 0);

    let later = DAY_MS * 100;
    let key = chunk_key(&cs[0]);
    idx.reinforce_ambient_at(&key, later);

    let decayed = decayed_weight(1.0, 0, later, 0.98);
    let recall_bump = reinforced_weight(decayed, 0.3);
    let (w, last, count) = idx.read_stat(&key).unwrap();
    assert!(w > decayed, "ambient gain must bump above pure decay");
    assert!(w < recall_bump, "ambient bump must be weaker than a recall bump");
    assert_eq!(last, later, "ambient touch refreshes last_accessed");
    assert_eq!(count, 2, "ambient touch counts as an access");
}

#[test]
fn reinforce_ambient_skips_never_recalled_chunk() {
    let mut idx = Index::new(ambient_decay(0.1));
    let cs = chunks("## H\nalpha body", "MEMORY.md");
    idx.reindex(&cs);
    idx.reinforce_ambient_at(&chunk_key(&cs[0]), DAY_MS);
    assert!(
        idx.read_stat(&chunk_key(&cs[0])).is_none(),
        "ambient injection must not start the age clock for a never-recalled chunk"
    );
}

#[test]
fn reinforce_ambient_noop_when_gain_zero() {
    let mut idx = Index::new(ambient_decay(0.0));
    let cs = chunks("## H\nalpha body", "MEMORY.md");
    idx.reindex(&cs);
    idx.reinforce_at(&cs, 0);
    idx.reinforce_ambient_at(&chunk_key(&cs[0]), DAY_MS * 100);
    assert_eq!(idx.read_stat(&chunk_key(&cs[0])), Some((1.0, 0, 1)), "gain 0 => complete no-op");
}

#[test]
fn reinforce_ambient_noop_when_decay_disabled() {
    let mut idx = Index::new(disabled_decay());
    let cs = chunks("## H\nalpha body", "MEMORY.md");
    idx.reindex(&cs);
    idx.reinforce_at(&cs, 0);
    idx.reinforce_ambient_at(&chunk_key(&cs[0]), DAY_MS * 100);
    assert_eq!(idx.read_stat(&chunk_key(&cs[0])), Some((1.0, 0, 1)), "decay off => complete no-op");
}

#[test]
fn pin_holds_weight_at_one_across_a_decay_pass() {
    let mut idx = Index::new(halving_decay());
    let cs = chunks("## H\nalpha body", "MEMORY.md");
    idx.reindex(&cs);
    idx.reinforce_at(&cs, 0);
    let key = chunk_key(&cs[0]);
    idx.state.stats.set_chunk_pinned_at(&key, true, 0);

    let later = DAY_MS * 10;
    let (weight, _, pinned, dormant) = idx.snapshot(&key, later).expect("row present");
    assert_eq!(weight, 1.0, "pinned weight held at 1.0");
    assert!(!dormant, "pinned chunk is never dormant");
    assert!(pinned);
    assert_eq!(idx.weights(&vec![key.clone()], later), vec![(key, 1.0_f32.to_bits())]);
}

#[test]
fn unpinned_chunk_below_threshold_is_dormant_in_snapshot() {
    let mut idx = Index::new(halving_decay());
    let cs = chunks("## H\nalpha body", "MEMORY.md");
    idx.reindex(&cs);
    idx.reinforce_at(&cs, 0);
    let (weight, count, pinned, dormant) =
        idx.snapshot(&chunk_key(&cs[0]), DAY_MS * 3).unwrap();
    assert!((weight - 0.125).abs() < 1e-4, "weight {weight}");
    assert!(dormant, "below threshold and unpinned => dormant");
    assert_eq!(count, 1);
    assert!(!pinned);
}

#[test]
fn snapshot_emitted_even_when_decay_disabled() {
    let mut idx = Index::new(disabled_decay());
    let cs = chunks("## H\nalpha body", "MEMORY.md");
    idx.reindex(&cs);
    idx.reinforce_at(&cs, 0);
    let (weight, count, _, dormant) =
        idx.snapshot(&chunk_key(&cs[0]), DAY_MS * 100).expect("row present despite decay off");
    assert_eq!(weight, 1.0, "decay off => stored weight, no decay");
    assert!(!dormant, "decay off => never dormant");
    assert_eq!(count, 1);
}

#[test]
fn snapshot_omits_unknown_keys() {
    let idx = Index::new(enabled_decay());
    assert!(idx.snapshot("nope", 0).is_none(), "no row => caller treats as never-recalled 1.0");
}

#[test]
fn reset_restores_weight_and_creates_row_if_absent() {
    let mut idx = Index::new(halving_decay());
    let cs = chunks("## H\nalpha body", "MEMORY.md");
    idx.reindex(&cs);
    let key = chunk_key(&cs[0]);
    assert!(idx.read_stat(&key).is_none());
    idx.state.stats.reset_chunk_at(&key, 5_000);
    assert_eq!(idx.read_stat(&key), Some((1.0, 5_000, 0)));

    idx.reinforce_at(&cs, 0);
    idx.state.stats.reset_chunk_at(&key, DAY_MS);
    let (w, last, _) = idx.read_stat(&key).unwrap();
    assert_eq!(w, 1.0, "reset restores neutral weight");
    assert_eq!(last, DAY_MS, "reset stamps last_accessed");
}

#[test]
fn sleep_forces_dormancy_and_wake_round_trips_it_back() {
    let mut idx = Index::new(enabled_decay());
    let cs = chunks("## H\nalpha body", "MEMORY.md");
    idx.reindex(&cs);
    let key = chunk_key(&cs[0]);

    idx.reinforce_at(&cs, 0);
    assert_eq!(idx.snapshot(&key, 0).map(|s| s.3), Some(false), "recalled chunk starts live");
    idx.state.stats.sleep_chunk_at(&key, 1_000);
    assert_eq!(idx.snapshot(&key, 1_000).map(|s| s.3), Some(true), "sleep forces dormancy now");
    idx.state.stats.reset_chunk_at(&key, 2_000);
    assert_eq!(idx.snapshot(&key, 2_000).map(|s| s.3), Some(false), "wake round-trips it back");
}

#[test]
fn sleep_creates_the_row_and_preserves_access_count_and_pin() {
    let mut idx = Index::new(enabled_decay());
    let cs = chunks("## H\nalpha body", "MEMORY.md");
    idx.reindex(&cs);
    let key = chunk_key(&cs[0]);
    assert!(idx.read_stat(&key).is_none());
    idx.state.stats.sleep_chunk_at(&key, 5_000);
    assert_eq!(idx.read_stat(&key), Some((0.0, 5_000, 0)));

    idx.state.stats.reset_chunk_at(&key, 6_000);
    idx.reinforce_at(&cs, 7_000);
    let (_, last_before, count_before) = idx.read_stat(&key).unwrap();
    idx.state.stats.sleep_chunk_at(&key, 9_999_999);
    let (w, last, count) = idx.read_stat(&key).unwrap();
    assert_eq!(w, 0.0, "sleep zeroes the weight");
    assert_eq!(last, last_before, "sleep does not stamp last_accessed");
    assert_eq!(count, count_before, "sleep preserves access_count");
}

#[test]
fn sleeping_a_pinned_chunk_writes_weight_but_pin_still_wins() {
    let mut idx = Index::new(enabled_decay());
    let cs = chunks("## H\nalpha body", "MEMORY.md");
    idx.reindex(&cs);
    let key = chunk_key(&cs[0]);
    idx.state.stats.set_chunk_pinned_at(&key, true, 1_000);
    idx.state.stats.sleep_chunk_at(&key, 2_000);

    assert_eq!(idx.read_stat(&key).unwrap().0, 0.0, "stored weight is 0");
    assert_eq!(idx.read_pinned(&key), Some(true), "pin survives sleep");
    let (weight, _, _, dormant) = idx.snapshot(&key, 2_000).unwrap();
    assert_eq!(weight, 1.0, "pin overrides the slept weight on read");
    assert!(!dormant, "a pinned chunk is never dormant");

    idx.state.stats.set_chunk_pinned_at(&key, false, 3_000);
    assert!(idx.snapshot(&key, 3_000).unwrap().3, "dormant once unpinned");
}

#[test]
fn set_pinned_round_trips_and_creates_row_if_absent() {
    let mut idx = Index::new(enabled_decay());
    let cs = chunks("## H\nalpha body", "MEMORY.md");
    idx.reindex(&cs);
    let key = chunk_key(&cs[0]);
    assert!(idx.read_stat(&key).is_none());
    idx.state.stats.set_chunk_pinned_at(&key, true, 7_000);
    assert_eq!(idx.read_pinned(&key), Some(true), "pin creates the row");
    assert_eq!(idx.read_stat(&key), Some((1.0, 7_000, 0)), "fresh pinned row defaults");

    idx.state.stats.set_chunk_pinned_at(&key, false, 9_000);
    assert_eq!(idx.read_pinned(&key), Some(false), "unpin round-trips");
}

// --- retrieves --------------------------------------------------------------------

#[test]
fn record_retrieve_counts_are_zero_until_recorded() {
    assert_eq!(Index::new(DecayConfig::default()).state.retrieve_count("abc123"), 0);
}

#[test]
fn record_retrieve_accumulates_per_key() {
    let mut idx = Index::new(DecayConfig::default());
    idx.state.record_retrieve_at("abc123", 100);
    idx.state.record_retrieve_at("abc123", 200);
    idx.state.record_retrieve_at("other", 250);
    assert_eq!(idx.state.retrieve_count("abc123"), 2);
    assert_eq!(idx.state.retrieve_count("other"), 1);
    assert_eq!(idx.state.retrieve_count("never"), 0);
}

#[test]
fn record_retrieve_stamps_last_ms() {
    let mut idx = Index::new(DecayConfig::default());
    idx.state.record_retrieve_at("k", 100);
    idx.state.record_retrieve_at("k", 999);
    let last = idx.state.retrieves.get("k").unwrap().last_ms;
    assert_eq!(last, 999, "last_ms tracks the most recent retrieve");
}

#[test]
fn record_retrieve_is_independent_of_decay_config() {
    let mut idx = Index::new(disabled_decay());
    idx.state.record_retrieve_at("k", 1);
    assert_eq!(idx.state.retrieve_count("k"), 1);
}

#[test]
fn map_retrieve_to_chunks_stores_mappings() {
    let mut idx = Index::new(DecayConfig::default());
    let mappings = vec![
        ("chunk:aaa".to_string(), 0.8_f32.to_bits()),
        ("chunk:bbb".to_string(), 0.5_f32.to_bits()),
    ];
    idx.state.map_retrieve_to_chunks_at("deadbeef", &mappings, 1000);
    let kept: Vec<_> = idx.state.mappings.iter().filter(|m| m.content_key == "deadbeef").collect();
    assert_eq!(kept.len(), 2);
    assert_eq!(kept[0].similarity, 0.8_f32.to_bits());
}

#[test]
fn chunk_retrieve_hits_returns_summed_counts() {
    let mut idx = Index::new(DecayConfig::default());
    idx.state.record_retrieve_at("key_a", 100);
    idx.state.record_retrieve_at("key_a", 200);
    idx.state.record_retrieve_at("key_b", 300);
    let near = |x: f32| vec![("chunk:xyz".to_string(), x.to_bits())];
    idx.state.map_retrieve_to_chunks_at("key_a", &near(0.9), 100);
    idx.state.map_retrieve_to_chunks_at("key_b", &near(0.7), 200);
    let hits = idx.state.chunk_retrieve_hits(&vec!["chunk:xyz".to_string()]);
    assert_eq!(hits, vec![("chunk:xyz".to_string(), 3)]);
}

#[test]
fn chunk_retrieve_hits_omits_unknown_keys() {
    let idx = Index::new(DecayConfig::default());
    assert!(idx.state.chunk_retrieve_hits(&vec!["chunk:never".to_string()]).is_empty());
}

#[test]
fn empty_mappings_are_a_noop() {
    let mut idx = Index::new(DecayConfig::default());
    idx.state.map_retrieve_to_chunks_at("k", &Vec::new(), 100);
    assert_eq!(idx.state.mappings.len(), 0);
}

// --- suppression --------------------------------------------------------------------

#[test]
fn set_suppress_promotion_upserts_and_toggles() {
    let mut idx = Index::new(DecayConfig::default());
    let cs = chunks("## H\nalpha body", "MEMORY.md");
    idx.reindex(&cs);
    let key = chunk_key(&cs[0]);
    assert_eq!(idx.read_suppress(&key), None);
    idx.state.stats.set_suppress_promotion_at(&key, true, T0);
    assert_eq!(idx.read_suppress(&key), Some(true));
    assert_eq!(idx.read_stat(&key).unwrap().0, 1.0);
    idx.state.stats.set_suppress_promotion_at(&key, false, T0);
    assert_eq!(idx.read_suppress(&key), Some(false));
}

#[test]
fn suppressed_promotion_keys_lists_only_flagged() {
    let mut idx = Index::new(DecayConfig::default());
    let cs = chunks("## A\nalpha\n\n## B\nbeta\n\n## C\ngamma", "MEMORY.md");
    idx.reindex(&cs);
    idx.state.stats.set_suppress_promotion_at(&chunk_key(&cs[0]), true, T0);
    idx.state.stats.set_suppress_promotion_at(&chunk_key(&cs[2]), true, T0);
    let flagged = idx.state.stats.suppressed_promotion_keys();
    assert_eq!(flagged.len(), 2);
    assert!(flagged.contains(&chunk_key(&cs[0])));
    assert!(flagged.contains(&chunk_key(&cs[2])));
    assert!(!flagged.contains(&chunk_key(&cs[1])));
}

#[test]
fn reinforce_outcome_clears_suppress_and_bumps_weight() {
    let mut idx = Index::new(enabled_decay());
    let cs = chunks("## H\nalpha body", "MEMORY.md");
    idx.reindex(&cs);
    let key = chunk_key(&cs[0]);
    idx.reinforce_at(&cs, 0);
    idx.state.stats.set_suppress_promotion_at(&key, true, 0);

    let later = DAY_MS * 100;
    idx.reinforce_outcome_at(&vec![key.clone()], later);
    assert_eq!(idx.read_suppress(&key), Some(false));
    let decayed = decayed_weight(1.0, 0, later, 0.98);
    let (w, last, _) = idx.read_stat(&key).unwrap();
    assert!(w > decayed, "success reinforcement must bump above decay");
    assert_eq!(last, later);
}

#[test]
fn reinforce_outcome_leaves_freshly_written_chunk_untracked() {
    let mut idx = Index::new(enabled_decay());
    let cs = chunks("## H\nalpha body", "MEMORY.md");
    idx.reindex(&cs);
    let key = chunk_key(&cs[0]);
    assert_eq!(idx.read_stat(&key), None);
    idx.reinforce_outcome_at(&vec![key.clone()], 1000);
    assert_eq!(
        idx.read_stat(&key),
        None,
        "success on a freshly written chunk must not create a decaying row"
    );
}

#[test]
fn reinforce_outcome_rehabilitates_across_daily_dates() {
    let mut idx = Index::new(DecayConfig::default());
    let day1 = chunk_markdown(
        "## Note\nremember this fact",
        MemorySource::Daily { date: day(2026, 8, 26) },
        "daily/2026-08-26.md",
    );
    let day2 = chunk_markdown(
        "## Note\nremember this fact",
        MemorySource::Daily { date: day(2026, 8, 27) },
        "daily/2026-08-27.md",
    );
    let key1 = chunk_key(&day1[0]);
    let key2 = chunk_key(&day2[0]);
    assert_ne!(key1, key2, "different daily dates -> different chunk_keys");

    idx.reindex(&day1);
    idx.state.stats.set_suppress_promotion_at(&key1, true, T0);
    assert_eq!(idx.read_suppress(&key1), Some(true));
    idx.reinforce_outcome_at(&vec![key2], 1000);
    assert!(
        idx.state.stats.suppressed_promotion_keys().is_empty(),
        "a later success rehabilitates the same content suppressed earlier"
    );
}

#[test]
fn reinforce_outcome_clears_suppress_even_with_decay_disabled() {
    let mut idx = Index::new(disabled_decay());
    let cs = chunks("## H\nalpha body", "MEMORY.md");
    idx.reindex(&cs);
    let key = chunk_key(&cs[0]);
    idx.reinforce_at(&cs, 0);
    idx.state.stats.set_suppress_promotion_at(&key, true, 0);
    let before = idx.read_stat(&key).unwrap().0;
    idx.reinforce_outcome_at(&vec![key.clone()], 5000);
    assert_eq!(idx.read_suppress(&key), Some(false));
    assert_eq!(idx.read_stat(&key).unwrap().0, before, "weight frozen with decay off");
}

// --- edges ------------------------------------------------------------------------------

#[test]
fn record_link_and_query_by_direction() {
    let mut idx = Index::new(DecayConfig::default());
    idx.state.record_link_at("curated:old", "curated:new", "supersession", T0);

    let from = idx.state.links_from("curated:old");
    assert_eq!(from.len(), 1);
    assert_eq!(from[0].to_key, "curated:new");
    assert_eq!(from[0].kind, "supersession");

    let to = idx.state.links_to("curated:new");
    assert_eq!(to.len(), 1);
    assert_eq!(to[0].from_key, "curated:old");
    assert!(idx.state.links_to("curated:old").is_empty());
    assert!(idx.state.links_from("curated:new").is_empty());
}

#[test]
fn record_link_is_idempotent_on_triple() {
    let mut idx = Index::new(DecayConfig::default());
    idx.state.record_link_at("a", "b", "supersession", 100);
    idx.state.record_link_at("a", "b", "supersession", 200);
    let links = idx.state.links_from("a");
    assert_eq!(links.len(), 1, "same (from,to,kind) upserts, not duplicates");
    assert_eq!(links[0].created_at, 200, "repeat refreshes created_at");
    idx.state.record_link_at("a", "b", "cooccur", 300);
    assert_eq!(idx.state.links_from("a").len(), 2);
}

#[test]
fn links_survive_reindex() {
    let mut idx = Index::new(DecayConfig::default());
    idx.reindex(&chunks("## A\nalpha", "MEMORY.md"));
    idx.state.record_link_at("curated:old", "curated:new", "supersession", T0);
    idx.reindex(&chunks("## B\nbeta", "MEMORY.md"));
    let links = idx.state.links_from("curated:old");
    assert_eq!(links.len(), 1, "edges survive reindex");
    assert_eq!(links[0].to_key, "curated:new");
}

#[test]
fn supersessions_become_edges() {
    let mut idx = Index::new(DecayConfig::default());
    let report = ConsolidationReport {
        ran: true,
        merged: 0,
        promoted: 1,
        demoted: 0,
        bytes_before: 0,
        bytes_after: 0,
        superseded: vec![Supersession {
            superseded_key: "curated:old".to_string(),
            superseded_by: "curated:new".to_string(),
        }],
    };
    assert_eq!(idx.state.record_supersession_edges(&report, T0), 1);
    let links = idx.state.links_from("curated:old");
    assert_eq!(links[0].to_key, "curated:new");
    assert_eq!(links[0].kind, "supersession");
}

// --- outcomes ------------------------------------------------------------------------------

fn touched_index(md: &str) -> (MemoryOutcomeSink, Vec<String>) {
    let cs = chunks(md, "MEMORY.md");
    let mut idx = Index::new(DecayConfig::default());
    idx.reindex(&cs);
    idx.reinforce_at(&cs, T0);
    (MemoryOutcomeSink::new(idx.state.stats), keys_of(&cs))
}

fn full(keys: &Vec<String>) -> Vec<u32> {
    vec![1.0_f32.to_bits(); keys.len()]
}

#[test]
fn success_reinforces_and_clears_suppression() {
    let (mut sink, keys) = touched_index("## A\nalpha\n\n## B\nbeta");
    for k in &keys {
        sink.index.set_suppress_promotion_at(k, true, T0);
    }
    sink.settle(Verdict::Success, &keys, &full(&keys), T0 + 1);
    assert!(sink.index.suppressed_promotion_keys().is_empty(), "success clears all suppression");
    assert_eq!(sink.index.get(&keys[0]).unwrap().access_count, 2);
}

#[test]
fn failure_suppresses_every_touched_key() {
    let (mut sink, keys) = touched_index("## A\nalpha\n\n## B\nbeta");
    sink.settle(Verdict::Failure, &keys, &full(&keys), T0 + 1);
    let flagged = sink.index.suppressed_promotion_keys();
    assert_eq!(flagged.len(), keys.len(), "failure suppresses all touched");
    for k in &keys {
        assert!(flagged.contains(k));
    }
}

#[test]
fn undecided_is_a_noop() {
    let (mut sink, keys) = touched_index("## A\nalpha\n\n## B\nbeta");
    sink.index.set_suppress_promotion_at(&keys[0], true, T0);
    sink.settle(Verdict::Undecided, &keys, &full(&keys), T0 + 1);
    let flagged = sink.index.suppressed_promotion_keys();
    assert_eq!(flagged.len(), 1);
    assert!(flagged.contains(&keys[0]));
}

#[test]
fn empty_touched_is_a_noop_for_every_verdict() {
    let (mut sink, _) = touched_index("## A\nalpha");
    for v in [Verdict::Success, Verdict::Failure, Verdict::Undecided] {
        sink.settle(v, &Vec::new(), &Vec::new(), T0 + 1);
    }
    assert!(sink.index.suppressed_promotion_keys().is_empty());
}

#[test]
fn identical_daily_content_resolves_by_last_verdict() {
    let md = "## Note\nremember this fact";
    let on = |d: u32| {
        keys_of(&chunk_markdown(md, MemorySource::Daily { date: day(2026, 8, d) }, "x"))
    };
    let earlier_keys = on(26);
    let later_keys = on(27);
    let mut sink = MemoryOutcomeSink::new(ChunkStats::new(DecayConfig::default()));
    sink.settle(Verdict::Success, &earlier_keys, &full(&earlier_keys), T0);
    sink.settle(Verdict::Failure, &later_keys, &full(&later_keys), T0);
    assert!(
        !sink.index.suppressed_promotion_keys().is_empty(),
        "a Failure settling last suppresses the shared content"
    );
    sink.settle(Verdict::Success, &later_keys, &full(&later_keys), T0);
    assert!(
        sink.index.suppressed_promotion_keys().is_empty(),
        "a later Success rehabilitates content an earlier Failure suppressed"
    );
}

#[test]
fn touch_log_dedups_and_drains_once() {
    let mut log = TouchLog::new();
    assert!(log.is_empty());
    log.record("daily:2026-08-26:abc".to_string());
    log.record("daily:2026-08-26:abc".to_string());
    log.extend(vec!["daily:2026-08-26:def".to_string(), "daily:2026-08-26:ghi".to_string()]);
    assert_eq!(log.len(), 3);

    let mut drained = log.drain();
    drained.sort();
    assert_eq!(
        drained,
        vec![
            "daily:2026-08-26:abc".to_string(),
            "daily:2026-08-26:def".to_string(),
            "daily:2026-08-26:ghi".to_string(),
        ]
    );
    assert!(log.drain().is_empty());
    assert!(log.is_empty());
}

#[test]
fn shared_touch_log_clones_see_the_same_buffer() {
    let producer = Arc::new(Mutex::new(TouchLog::new()));
    let consumer = producer.clone();
    producer.lock().unwrap().record("daily:2026-08-26:xyz".to_string());
    assert_eq!(consumer.lock().unwrap().len(), 1);
    assert_eq!(consumer.lock().unwrap().drain(), vec!["daily:2026-08-26:xyz".to_string()]);
    assert!(producer.lock().unwrap().is_empty());
}

#[test]
fn unflushed_session_has_no_record() {
    assert_eq!(FlushLedger::new().last_flush("s1"), None);
}

#[test]
fn record_then_read_round_trips_and_overwrites() {
    let mut ledger = FlushLedger::new();
    ledger.record_flush("s1", 10, 1_000);
    assert_eq!(
        ledger.last_flush("s1"),
        Some(FlushRecord { message_count: 10, flushed_at_ms: 1_000 })
    );
    ledger.record_flush("s1", 25, 2_000);
    assert_eq!(
        ledger.last_flush("s1"),
        Some(FlushRecord { message_count: 25, flushed_at_ms: 2_000 })
    );
    assert_eq!(ledger.last_flush("s2"), None);
}

// --- dormant chunks stay out of the ambient block ------------------------------------------

const LIKES: &str = "## Likes\nuser prefers rust\n\n## Dislikes\nuser dislikes verbose logs\n";

fn mem() -> Memory {
    Memory::new("/m", MemoryConfig::default())
}

fn with_needle(cs: &Vec<MemoryChunk>, needle: &str) -> Vec<MemoryChunk> {
    cs.iter().filter(|c| c.text.contains(needle)).cloned().collect()
}

fn recalled(decay: DecayConfig, curated: &str, needle: &str) -> (Index, Vec<MemoryChunk>) {
    let cs = chunks(curated, &mem().curated_path());
    let mut idx = Index::new(decay);
    idx.reindex(&cs);
    let hits = with_needle(&cs, needle);
    idx.reinforce_at(&hits, T0);
    (idx, cs)
}

fn filtered(
    idx: &Index,
    cs: &Vec<MemoryChunk>,
    curated: &str,
    today_log: &str,
    now: i64,
) -> (Option<String>, Vec<String>) {
    let stats = idx.weights(&keys_of(cs), now);
    let m = mem();
    let (path, today) = (m.curated_path(), day(2026, 6, 22));
    let keyed = m.ambient_block_filtered_keyed_for(curated, &path, &stats, &today, "", today_log);
    let alone = m.ambient_block_filtered_for(curated, &path, &stats, &today, "", today_log);
    assert_eq!(keyed.0, alone);
    keyed
}

fn skips_dormant() {
    let (idx, cs) = recalled(enabled_decay(), LIKES, "rust");
    let block = filtered(&idx, &cs, LIKES, "", T0 + 500 * DAY_MS).0.unwrap();
    assert!(!block.contains("user prefers rust"), "dormant body excised: {block}");
    assert!(!block.contains("## Likes"), "dormant heading excised: {block}");
    assert!(block.contains("## Dislikes"), "live heading kept: {block}");
    assert!(block.contains("user dislikes verbose logs"), "live body kept: {block}");
}

#[test]
fn lib_ambient_skips_dormant_curated_chunk_keeps_live() {
    skips_dormant();
}

#[test]
fn tests_ambient_skips_dormant_curated_chunk_keeps_live() {
    skips_dormant();
}

fn keeps_pinned() {
    let (mut idx, cs) = recalled(enabled_decay(), LIKES, "rust");
    let likes_key = chunk_key(&with_needle(&cs, "rust")[0]);
    idx.state.stats.set_chunk_pinned_at(&likes_key, true, T0);
    let block = filtered(&idx, &cs, LIKES, "", T0 + 500 * DAY_MS).0.unwrap();
    assert!(
        block.contains("user prefers rust"),
        "pinned chunk retained in ambient despite long decay: {block}"
    );
    assert!(block.contains("## Likes"), "pinned heading kept: {block}");
}

#[test]
fn lib_ambient_keeps_pinned_curated_chunk_even_when_decayed() {
    keeps_pinned();
}

#[test]
fn tests_ambient_keeps_pinned_curated_chunk_even_when_decayed() {
    keeps_pinned();
}

fn unchanged_without_decay() {
    let (idx, cs) = recalled(disabled_decay(), LIKES, "rust");
    let log = "shipped the dormant skip";
    assert_eq!(
        filtered(&idx, &cs, LIKES, log, T0 + 500 * DAY_MS).0,
        mem().ambient_block_for(LIKES, &day(2026, 6, 22), "", log),
        "decay-disabled filtered ambient must be byte-identical to unfiltered",
    );
}

#[test]
fn lib_ambient_filtered_byte_identical_when_decay_disabled() {
    unchanged_without_decay();
}

#[test]
fn tests_ambient_filtered_byte_identical_when_decay_disabled() {
    unchanged_without_decay();
}

fn surroundings_stay() {
    let curated = "## Alpha\nfirst section keep me\n\n## Beta\nmiddle section rust drop\n\n## Gamma\nlast section keep me too\n";
    let (idx, cs) = recalled(enabled_decay(), curated, "rust");
    let block = filtered(&idx, &cs, curated, "", T0 + 500 * DAY_MS).0.unwrap();
    assert!(!block.contains("## Beta"));
    assert!(!block.contains("middle section rust drop"));
    assert!(block.contains("## Alpha\nfirst section keep me"));
    assert!(block.contains("## Gamma\nlast section keep me too"));
    let a = block.find("## Alpha").unwrap();
    let g = block.find("## Gamma").unwrap();
    assert!(a < g, "section order preserved: {block}");
}

#[test]
fn lib_ambient_excision_keeps_surrounding_text_verbatim() {
    surroundings_stay();
}

#[test]
fn tests_ambient_excision_keeps_surrounding_text_verbatim() {
    surroundings_stay();
}

fn daily_stays() {
    let curated = "## Likes\nuser prefers rust\n";
    let (idx, cs) = recalled(enabled_decay(), curated, "rust");
    let block =
        filtered(&idx, &cs, curated, "today I shipped dormancy", T0 + 500 * DAY_MS).0.unwrap();
    assert!(!block.contains("user prefers rust"));
    assert!(block.contains("Recent daily log"));
    assert!(block.contains("today I shipped dormancy"));
}

#[test]
fn lib_ambient_filter_leaves_daily_section_untouched() {
    daily_stays();
}

#[test]
fn tests_ambient_filter_leaves_daily_section_untouched() {
    daily_stays();
}

fn recall_wakes() {
    let curated = "## Pinned\nanchor stays\n\n## Likes\nuser prefers rust\n";
    let (mut idx, cs) = recalled(enabled_decay(), curated, "rust");
    let future = T0 + 500 * DAY_MS;
    let before = filtered(&idx, &cs, curated, "", future).0.unwrap();
    assert!(!before.contains("user prefers rust"), "dormant before recall: {before}");
    let hits = with_needle(&cs, "rust");
    idx.reinforce_at(&hits, future);
    let after = filtered(&idx, &cs, curated, "", future).0.unwrap();
    assert!(after.contains("user prefers rust"), "woken by recall: {after}");
}

#[test]
fn lib_ambient_wake_via_recall_restores_dormant_chunk() {
    recall_wakes();
}

#[test]
fn tests_ambient_wake_via_recall_restores_dormant_chunk() {
    recall_wakes();
}

fn only_live_keys() {
    let (idx, cs) = recalled(enabled_decay(), LIKES, "rust");
    let (block, keys) =
        filtered(&idx, &cs, LIKES, "shipped reinforcement", T0 + 500 * DAY_MS);
    assert!(!block.unwrap().contains("user prefers rust"), "dormant excised");
    let likes_key = chunk_key(&with_needle(&cs, "rust")[0]);
    let dislikes_key = chunk_key(&with_needle(&cs, "verbose")[0]);
    assert_eq!(keys, vec![dislikes_key], "only the live curated chunk key");
    assert!(!keys.contains(&likes_key), "dormant key excluded");
}

#[test]
fn lib_keyed_ambient_returns_live_curated_keys_only() {
    only_live_keys();
}

#[test]
fn tests_keyed_ambient_returns_live_curated_keys_only() {
    only_live_keys();
}

fn injected_keys_are_reinforced() {
    let curated = "## Likes\nuser prefers rust\n";
    let (mut idx, cs) = recalled(ambient_decay(0.3), curated, "rust");
    let future = T0 + 60 * DAY_MS;
    let keys = filtered(&idx, &cs, curated, "", future).1;
    let key = keys.into_iter().next().expect("a live curated key");
    let before = f32::from_bits(idx.weights(&vec![key.clone()], future)[0].1);
    idx.reinforce_ambient_at(&key, future);
    let after = f32::from_bits(idx.weights(&vec![key], future)[0].1);
    assert!(
        after > before,
        "ambient reinforcement of the injected key lifted its weight ({before} -> {after})"
    );
}

#[test]
fn lib_keyed_ambient_keys_feed_reinforcement_end_to_end() {
    injected_keys_are_reinforced();
}

#[test]
fn tests_keyed_ambient_keys_feed_reinforcement_end_to_end() {
    injected_keys_are_reinforced();
}

#[test]
fn rows_are_read_as_they_were_put() {
    let mut stats = ChunkStats::new(DecayConfig::default());
    let row = ChunkStat {
        weight: 0.5_f32.to_bits(),
        last_accessed_ms: 7,
        access_count: 3,
        pinned: true,
        suppress_promotion: false,
    };
    stats.put("k", row);
    assert_eq!(stats.get("k"), Some(row));
    assert_eq!(stats.get("other"), None);
    assert_eq!(stats.keys(), vec!["k".to_string()]);
}

#[test]
fn recording_again_leaves_the_length_of_a_log() {
    let mut log = TouchLog::new();
    log.record("a".to_string());
    assert_eq!(log.len(), 1);
    log.record("a".to_string());
    assert_eq!(log.len(), 1);
    log.record("b".to_string());
    assert_eq!(log.len(), 2);
}

#[test]
fn the_filtered_block_without_weights_is_the_plain_one() {
    let m = mem();
    let (path, today) = (m.curated_path(), day(2026, 6, 22));
    for curated in ["", "## A\none\n\n## B\ntwo\n", "loose\r\ntext  \n\n\n"] {
        assert_eq!(
            m.ambient_block_filtered_for(curated, &path, &vec![], &today, "old", "new"),
            m.ambient_block_for(curated, &today, "old", "new")
        );
    }
}
