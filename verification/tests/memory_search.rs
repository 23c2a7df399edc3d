use flowforge::memory::chunk::{MemoryChunk, MemorySource};
use flowforge::memory::chunking::chunk_markdown;
use flowforge::memory::config::DecayConfig;
use flowforge::memory::embed::{Embedder, NoopEmbedder};
use flowforge::memory::hits::ScoredChunk;
use flowforge::memory::index::Fts5Index;
use flowforge::memory::keys::{chunk_key, normalize_text};
use flowforge::memory::search::{
    begin, take_fused, take_lifted, take_matches, take_similarities, SearchStep,
};
use flowforge::session::search::search_query;
use rusqlite::Connection;

const T0: i64 = 1_700_000_000_000;

fn vectorize(text: &str) -> Vec<f32> {
    let l = text.to_lowercase();
    vec![
        f32::from(l.contains("rust")),
        f32::from(l.contains("python")),
        f32::from(l.contains("sqlite")),
    ]
}

fn bits(v: &[f32]) -> Vec<u32> {
    v.iter().map(|x| x.to_bits()).collect()
}

/// Embeds chunks by keyword and every query as one fixed vector.
struct FakeEmbedder {
    query: Vec<f32>,
}

impl Embedder for FakeEmbedder {
    fn embed_query(&self, _query: &str) -> Option<Vec<u32>> {
        Some(bits(&self.query))
    }

    fn embed_chunk(&self, text: &str) -> Option<Vec<u32>> {
        Some(bits(&vectorize(text)))
    }
}

fn cosine(a: &[u32], b: &[u32]) -> f32 {
    let float = |v: &[u32]| v.iter().map(|x| f32::from_bits(*x)).collect::<Vec<f32>>();
    let (a, b) = (float(a), float(b));
    let dot: f32 = a.iter().zip(&b).map(|(x, y)| x * y).sum();
    let na = a.iter().map(|x| x * x).sum::<f32>().sqrt();
    let nb = b.iter().map(|x| x * x).sum::<f32>().sqrt();
    if na == 0.0 || nb == 0.0 {
        0.0
    } else {
        dot / (na * nb)
    }
}

fn chunks(md: &str, path: &str) -> Vec<MemoryChunk> {
    chunk_markdown(md, MemorySource::Curated, path)
}

/// The tables in memory, and the texts in a full-text table.
struct Index<E: Embedder> {
    state: Fts5Index,
    conn: Connection,
    embedder: E,
}

impl<E: Embedder> Index<E> {
    fn new(embedder: E) -> Self {
        let conn = Connection::open_in_memory().unwrap();
        conn.execute_batch("CREATE VIRTUAL TABLE texts USING fts5(text);").unwrap();
        Index { state: Fts5Index::new(DecayConfig::default()), conn, embedder }
    }

    fn reindex(&mut self, cs: &Vec<MemoryChunk>) {
        self.state.reindex(cs);
        self.conn.execute("DELETE FROM texts", ()).unwrap();
        for (i, c) in cs.iter().enumerate() {
            self.conn
                .execute("INSERT INTO texts(rowid, text) VALUES (?1, ?2)", (i as i64, &c.text))
                .unwrap();
        }
    }

    fn find(&self, query: &str, limit: usize) -> Vec<ScoredChunk> {
        let mut stmt = self
            .conn
            .prepare(
                "SELECT rowid, bm25(texts) AS score FROM texts
                 WHERE texts MATCH ?1 ORDER BY score LIMIT ?2",
            )
            .unwrap();
        let rows = stmt
            .query_map((query, limit as i64), |r| Ok((r.get::<_, i64>(0)?, r.get::<_, f64>(1)?)))
            .unwrap();
        rows.map(|row| {
            let (i, distance) = row.unwrap();
            ScoredChunk {
                chunk: self.state.chunks[i as usize].clone(),
                score: (-distance as f32).to_bits(),
                weight: 1.0_f32.to_bits(),
                last_accessed_ms: None,
            }
        })
        .collect()
    }

    fn search(&self, query: &str, k: usize) -> Vec<ScoredChunk> {
        let vector = self.embedder.embed_query(query);
        let mut step = begin(query, k, vector.is_some());
        loop {
            step = match step {
                SearchStep::Match { query, limit } => {
                    let found = self.find(&query, limit);
                    let decayed = vec![1.0_f32.to_bits(); found.len()];
                    take_matches(&found, &self.state, &decayed, vector.is_some())
                }
                SearchStep::Compare { found } => {
                    let q = vector.clone().unwrap();
                    let similarity: Vec<u32> = found
                        .iter()
                        .map(|h| match self.embedder.embed_chunk(&h.chunk.text) {
                            Some(v) => cosine(&q, &v).max(0.0).to_bits(),
                            None => 0,
                        })
                        .collect();
                    take_similarities(found, &similarity)
                }
                SearchStep::Fuse { found, ranks } => {
                    let scores: Vec<u32> = ranks
                        .iter()
                        .enumerate()
                        .map(|(i, rank)| {
                            let by_words = 1.0 / (60.0 + (i as f32 + 1.0));
                            let by_vector = match rank {
                                Some(r) => 1.0 / (60.0 + (*r as f32 + 1.0)),
                                None => 0.0,
                            };
                            (by_words + by_vector).to_bits()
                        })
                        .collect();
                    take_fused(&found, &scores, k, &self.state)
                }
                SearchStep::Lift { found, retrieves, best } => {
                    let scores: Vec<u32> = found
                        .iter()
                        .zip(&retrieves)
                        .map(|(h, n)| {
                            let lift = match n {
                                Some(n) => (*n as f32 / 10.0).sqrt().min(1.0),
                                None => 0.0,
                            };
                            (f32::from_bits(h.score) + 0.1 * f32::from_bits(best) * lift).to_bits()
                        })
                        .collect();
                    return take_lifted(&found, &scores);
                }
                SearchStep::Done { found } => return found,
            };
        }
    }
}

/// What can be seen of hits.
fn seen(hits: &[ScoredChunk]) -> Vec<(String, u32, u32, Option<i64>)> {
    hits.iter()
        .map(|h| (h.chunk.text.clone(), h.score, h.weight, h.last_accessed_ms))
        .collect()
}

#[test]
fn search_ranks_and_returns_chunks() {
    let mut idx = Index::new(NoopEmbedder);
    idx.reindex(&chunks(
        "## Prefs\nuser prefers rust over python\n\n## Tools\nuse sqlite for storage",
        "MEMORY.md",
    ));
    let hits = idx.search("rust", 10);
    assert_eq!(hits.len(), 1);
    assert!(hits[0].chunk.text.contains("rust"));
    assert_eq!(hits[0].chunk.heading.as_deref(), Some("Prefs"));
}

#[test]
fn hybrid_with_noop_is_byte_identical_to_fts5() {
    let md = "## Prefs\nuser prefers rust over python\n\n## Tools\nuse sqlite for storage";
    let mut hybrid = Index::new(NoopEmbedder);
    hybrid.reindex(&chunks(md, "MEMORY.md"));
    for q in ["rust", "sqlite", "python prefers", "storage", "   "] {
        let bare = match begin(q, 10, false) {
            SearchStep::Match { query, limit } => hybrid.find(&query, limit),
            _ => Vec::new(),
        };
        assert_eq!(seen(&hybrid.search(q, 10)), seen(&bare), "query {q:?}");
    }
}

#[test]
fn fusion_promotes_the_semantic_match_over_bm25_order() {
    let md = "## P\npython topic\n\n## R\nrust topic\n\n## S\nsqlite topic";
    let mut bm25_only = Index::new(NoopEmbedder);
    bm25_only.reindex(&chunks(md, "MEMORY.md"));
    let baseline = bm25_only.search("topic", 10);
    assert!(baseline.len() >= 3);
    assert!(baseline[0].chunk.text.contains("python"));

    let mut hybrid = Index::new(FakeEmbedder { query: vec![1.0, 0.0, 0.0] });
    hybrid.reindex(&chunks(md, "MEMORY.md"));
    let fused = hybrid.search("topic", 10);
    assert!(fused[0].chunk.text.contains("rust"));
}

#[test]
fn fusion_falls_back_to_bm25_when_query_vector_is_absent() {
    let md = "## A\nrust topic\n\n## B\npython topic";
    let mut hybrid = Index::new(NoopEmbedder);
    hybrid.reindex(&chunks(md, "MEMORY.md"));
    let bare = hybrid.find("\"topic\"", 10);
    assert_eq!(bare.len(), 2);
    assert_eq!(seen(&hybrid.search("topic", 10)), seen(&bare));
}

#[test]
fn search_then_reinforce_lands_on_indexed_key() {
    let mut idx = Index::new(NoopEmbedder);
    let cs = chunks("## Prefs\nuser prefers rust", "MEMORY.md");
    idx.reindex(&cs);
    let hits = idx.search("rust", 10);
    assert_eq!(hits.len(), 1);
    idx.state.stats.reinforce_at(&chunk_key(&hits[0].chunk), 1.0_f32.to_bits(), T0);
    let indexed_key = chunk_key(&cs[0]);
    assert_eq!(idx.state.stats.get(&indexed_key).unwrap().access_count, 1);
    assert_eq!(chunk_key(&hits[0].chunk), indexed_key);
}

#[test]
fn retrieve_boost_raises_rank_of_mapped_chunk() {
    let mut idx = Index::new(NoopEmbedder);
    let cs = chunks("## Rust\nI like rust\n\n## Python\nI like python", "MEMORY.md");
    idx.reindex(&cs);
    let rust_key = chunk_key(&cs[0]);
    idx.state.record_retrieve_at("content_key_x", 100);
    idx.state.record_retrieve_at("content_key_x", 200);
    let found = vec![(rust_key.clone(), 0.9_f32.to_bits())];
    idx.state.map_retrieve_to_chunks_at("content_key_x", &found, 100);
    let hits = idx.search("rust", 5);
    assert!(!hits.is_empty());
    assert_eq!(chunk_key(&hits[0].chunk), rust_key);
}

#[test]
fn retrieve_boost_is_proportional_to_count() {
    let mut idx = Index::new(NoopEmbedder);
    let cs = chunks("## A\ncommon topic\n\n## B\ncommon topic", "MEMORY.md");
    idx.reindex(&cs);
    let key_a = chunk_key(&cs[0]);
    let key_b = chunk_key(&cs[1]);
    idx.state.record_retrieve_at("k_a", 100);
    for at in [100, 200, 300, 400, 500] {
        idx.state.record_retrieve_at("k_b", at);
    }
    let similarity = 0.9_f32.to_bits();
    idx.state.map_retrieve_to_chunks_at("k_a", &vec![(key_a.clone(), similarity)], 100);
    idx.state.map_retrieve_to_chunks_at("k_b", &vec![(key_b.clone(), similarity)], 100);
    let hits = idx.search("common topic", 5);
    assert_eq!(hits.len(), 2);
    let score = |key: &str| {
        f32::from_bits(hits.iter().find(|h| chunk_key(&h.chunk) == key).unwrap().score)
    };
    assert!(score(&key_b) > score(&key_a));
    assert_eq!(chunk_key(&hits[0].chunk), key_b);
}

#[test]
fn retrieve_boost_works_in_hybrid_mode() {
    let mut hybrid = Index::new(FakeEmbedder { query: vec![1.0, 0.0, 0.0] });
    let cs = chunks("## Rust\nrust language\n\n## Python\npython language", "MEMORY.md");
    hybrid.reindex(&cs);
    let rust_key = chunk_key(&cs[0]);
    let python_key = chunk_key(&cs[1]);
    for at in [100, 200, 300] {
        hybrid.state.record_retrieve_at("k_rust", at);
    }
    hybrid.state.record_retrieve_at("k_python", 100);
    let similarity = 0.9_f32.to_bits();
    hybrid.state.map_retrieve_to_chunks_at("k_rust", &vec![(rust_key.clone(), similarity)], 100);
    hybrid.state.map_retrieve_to_chunks_at("k_python", &vec![(python_key, similarity)], 100);
    let hits = hybrid.search("language", 5);
    assert!(!hits.is_empty());
    assert_eq!(chunk_key(&hits[0].chunk), rust_key);
}

#[test]
fn no_retrieve_mapping_means_no_boost() {
    let mut idx = Index::new(NoopEmbedder);
    let cs = chunks("## H\nsome content", "MEMORY.md");
    idx.reindex(&cs);
    let hits = idx.search("content", 5);
    assert_eq!(hits.len(), 1);
    assert_eq!(hits[0].score, idx.find("\"content\"", 5)[0].score);
}

#[test]
fn hybrid_index_delegates_retrieve_recording() {
    let mut hybrid = Index::new(NoopEmbedder);
    hybrid.state.record_retrieve_at("k", 1);
    hybrid.state.record_retrieve_at("k", 2);
    assert_eq!(hybrid.state.retrieve_count("k"), 2);
}

#[test]
fn a_search_asks_for_more_with_an_embedding_and_keeps_k() {
    assert!(matches!(begin("topic", 3, false), SearchStep::Match { limit: 3, .. }));
    assert!(matches!(begin("topic", 3, true), SearchStep::Match { limit: 12, .. }));
    assert!(matches!(begin(" \t", 3, true), SearchStep::Done { found } if found.is_empty()));
    let md = "## P\npython topic\n\n## R\nrust topic\n\n## S\nsqlite topic";
    let mut hybrid = Index::new(FakeEmbedder { query: vec![0.0, 0.0, 1.0] });
    hybrid.reindex(&chunks(md, "MEMORY.md"));
    let hits = hybrid.search("topic", 2);
    assert_eq!(hits.len(), 2);
    assert!(hits[0].chunk.text.contains("sqlite"));
    assert!(hybrid.search("topic", 0).is_empty());
    assert!(hybrid.search("absent", 2).is_empty());
}

#[test]
fn a_hit_without_a_positive_score_is_not_lifted() {
    let cs = chunks("## H\nsome content", "MEMORY.md");
    let mut state = Fts5Index::new(DecayConfig::default());
    state.reindex(&cs);
    let found = vec![ScoredChunk {
        chunk: cs[0].clone(),
        score: (-0.5_f32).to_bits(),
        weight: 1.0_f32.to_bits(),
        last_accessed_ms: None,
    }];
    let step = take_matches(&found, &state, &vec![1.0_f32.to_bits()], false);
    assert!(matches!(step, SearchStep::Done { found } if found.len() == 1));
}

#[test]
fn an_escaped_session_query_matches_literally() {
    let conn = Connection::open_in_memory().unwrap();
    conn.execute_batch("CREATE VIRTUAL TABLE texts USING fts5(text);").unwrap();
    for text in ["say \"hello\" to the NEAR* world", "nothing of the kind"] {
        conn.execute("INSERT INTO texts(text) VALUES (?1)", (text,)).unwrap();
    }
    for q in ["\"hello\"", "NEAR*", " world ", "hello AND-not"] {
        let query = search_query(q).unwrap();
        let n: i64 = conn
            .query_row("SELECT COUNT(*) FROM texts WHERE texts MATCH ?1", (&query,), |r| r.get(0))
            .unwrap();
        assert_eq!(n, i64::from(q != "hello AND-not"), "query {q:?}");
    }
    assert!(search_query("  ").is_none());
}

#[test]
fn normalising_again_changes_nothing() {
    let once = normalize_text("  a  \r\n\n\t b c \n   \nd");
    assert_eq!(once, "a\nb c\nd");
    assert_eq!(normalize_text(&once), once);
}

#[test]
fn inner_spacing_does_not_change_a_fact() {
    assert_eq!(normalize_text("likes   rust"), "likes rust");
    assert_eq!(normalize_text("likes \t rust"), normalize_text(" likes rust "));
    assert_ne!(normalize_text("likes\nrust"), normalize_text("likes rust"));
}

#[test]
fn lifted_hits_come_by_score_and_ties_stay() {
    let cs = chunks("## A\none\n\n## B\ntwo\n\n## C\nthree", "MEMORY.md");
    let found: Vec<ScoredChunk> = cs
        .iter()
        .map(|c| ScoredChunk {
            chunk: c.clone(),
            score: 1.0_f32.to_bits(),
            weight: 1.0_f32.to_bits(),
            last_accessed_ms: None,
        })
        .collect();
    let scores = |s: [f32; 3]| s.iter().map(|x| x.to_bits()).collect::<Vec<u32>>();
    let headings = |hits: &[ScoredChunk]| {
        hits.iter().map(|h| h.chunk.heading.clone().unwrap()).collect::<Vec<String>>()
    };
    assert_eq!(headings(&take_lifted(&found, &scores([1.0, 2.0, 1.0]))), ["B", "A", "C"]);
    assert_eq!(headings(&take_lifted(&found, &scores([2.0, 2.0, 1.0]))), ["A", "B", "C"]);
}
