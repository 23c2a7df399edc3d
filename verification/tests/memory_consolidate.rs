use flowforge::date::Date;
use flowforge::memory::chunk::{MemoryChunk, MemorySource};
use flowforge::memory::chunking::chunk_markdown;
use flowforge::memory::coalesce::coalesce_windows;
use flowforge::memory::config::{DecayConfig, Memory, MemoryConfig};
use flowforge::memory::consolidate::{
    count_occurrences, demote, merge_duplicates, ChunkStatsSalience, ConsolidationPlan, Salience,
};
use flowforge::memory::files::{all_chunks, DailyFile};
use flowforge::memory::index::Fts5Index;
use flowforge::memory::keys::{
    chunk_key, content_key, content_key_of, normalize_text, source_from_str, source_to_str,
};
use flowforge::memory::render::{body_without_heading, render_curated};

fn day(y: i32, m: u32, d: u32) -> Date {
    Date::new(y, m, d).unwrap()
}

/// Recency times frequency, as of the last day of August 2026.
struct RecencyFrequency;

impl Salience<MemoryChunk> for RecencyFrequency {
    fn score(&self, c: &MemoryChunk, occurrences: u32) -> u32 {
        let recency = match &c.source {
            MemorySource::Curated => 1.0_f32,
            MemorySource::Daily { date } => {
                let today = chrono::NaiveDate::from_ymd_opt(2026, 8, 31).unwrap();
                let then =
                    chrono::NaiveDate::from_ymd_opt(date.year(), date.month(), date.day()).unwrap();
                let age = (today - then).num_days().max(0) as f32;
                0.5_f32.powf(age / 14.0)
            }
        };
        (recency * (occurrences as f32 / 3.0).min(1.0)).to_bits()
    }
}

fn make_chunk(source: MemorySource, heading: Option<&str>, text: &str) -> MemoryChunk {
    MemoryChunk {
        id: 0,
        source,
        path: "MEMORY.md".to_string(),
        heading: heading.map(String::from),
        text: text.to_string(),
        line_start: 1,
        line_end: 1,
    }
}

fn curated_chunk(heading: Option<&str>, text: &str) -> MemoryChunk {
    make_chunk(MemorySource::Curated, heading, text)
}

fn mem_with(budget: usize, evict: bool) -> Memory {
    Memory::new(
        "/m",
        MemoryConfig {
            injection_budget_bytes: budget,
            evict_to_budget: evict,
            ..Default::default()
        },
    )
}

/// The same log on the last three days.
fn three_days(raw: &str) -> Vec<DailyFile> {
    ["2026-08-29.md", "2026-08-30.md", "2026-08-31.md"]
        .iter()
        .map(|n| DailyFile {
            name: n.to_string(),
            path: format!("/m/daily/{n}"),
            raw: raw.to_string(),
        })
        .collect()
}

fn run<S: Salience<MemoryChunk>>(
    m: &Memory,
    curated: &str,
    daily: &Vec<DailyFile>,
    salience: &S,
) -> ConsolidationPlan {
    let cs = all_chunks(curated, &m.curated_path(), daily);
    m.consolidate(curated, curated.len(), &cs, salience, None)
}

// --- keys -------------------------------------------------------------------

#[test]
fn chunk_key_stable_across_whitespace_changes() {
    let c1 = curated_chunk(Some("Prefs"), "likes rust\nhates yaml");
    let c2 = curated_chunk(Some("Prefs"), "  likes rust  \n  hates yaml  \n");
    assert_eq!(chunk_key(&c1), chunk_key(&c2));
}

#[test]
fn chunk_key_changes_on_content_change() {
    let c1 = curated_chunk(Some("Prefs"), "likes rust");
    let c2 = curated_chunk(Some("Prefs"), "likes python");
    assert_ne!(chunk_key(&c1), chunk_key(&c2));
}

#[test]
fn chunk_key_differs_by_source() {
    let c1 = curated_chunk(Some("A"), "same text");
    let c2 = make_chunk(MemorySource::Daily { date: day(2026, 6, 19) }, Some("A"), "same text");
    assert_ne!(chunk_key(&c1), chunk_key(&c2));
}

#[test]
fn chunk_key_differs_by_heading() {
    let c1 = curated_chunk(Some("A"), "same text");
    let c2 = curated_chunk(Some("B"), "same text");
    assert_ne!(chunk_key(&c1), chunk_key(&c2));
}

#[test]
fn chunk_key_stable_across_line_number_shifts() {
    let mut c1 = curated_chunk(Some("Prefs"), "likes rust");
    c1.line_start = 1;
    c1.line_end = 1;
    let mut c2 = curated_chunk(Some("Prefs"), "likes rust");
    c2.line_start = 42;
    c2.line_end = 42;
    assert_eq!(chunk_key(&c1), chunk_key(&c2));
}

#[test]
fn keys_hold_the_source_and_a_digest() {
    let daily = make_chunk(MemorySource::Daily { date: day(2026, 8, 20) }, None, "x");
    let key = chunk_key(&daily);
    assert!(key.starts_with("daily:2026-08-20:"), "{key}");
    assert_eq!(content_key_of(&key), content_key(&daily));
    assert_eq!(content_key(&daily), ":2d711642b726b044");
    assert_eq!(chunk_key(&curated_chunk(Some("H"), " x ")), "curated:H:2d711642b726b044");
}

#[test]
fn sources_are_read_back() {
    let d = MemorySource::Daily { date: day(2026, 8, 20) };
    assert_eq!(source_to_str(&d), "daily:2026-08-20");
    assert!(source_from_str("daily:2026-08-20").same(&d));
    assert!(source_from_str("curated").same(&MemorySource::Curated));
    assert!(source_from_str("daily:nonsense").same(&MemorySource::Curated));
}

#[test]
fn normalizing_trims_lines_and_drops_blank_ones() {
    assert_eq!(normalize_text("  a  \n\n \t\n b"), "a\nb");
    assert_eq!(normalize_text("a\nb"), "a\nb");
}

// --- the rendered file --------------------------------------------------------

#[test]
fn render_curated_groups_canonical_strata_in_fixed_order() {
    let chunks = vec![
        curated_chunk(Some("Focus"), "## Focus\nmaps work"),
        curated_chunk(Some("Identity"), "## Identity\nL5 SDE"),
        curated_chunk(Some("Patterns"), "## Patterns\nprefers Python"),
    ];
    assert_eq!(
        render_curated(&chunks),
        "## Identity\nL5 SDE\n\n## Patterns\nprefers Python\n\n## Focus\nmaps work\n"
    );
}

#[test]
fn render_curated_collapses_duplicate_heading_sections() {
    let chunks = vec![
        curated_chunk(Some("Identity"), "## Identity\nL5 SDE"),
        curated_chunk(Some("Identity"), "## Identity\nbased in Austin"),
    ];
    let out = render_curated(&chunks);
    assert_eq!(out, "## Identity\nL5 SDE\nbased in Austin\n");
    assert_eq!(out.matches("## Identity").count(), 1, "no duplicate heading");
}

#[test]
fn render_curated_preserves_freeform_headings_after_canonical() {
    let chunks = vec![
        curated_chunk(Some("Projects"), "## Projects\nflowforge"),
        curated_chunk(Some("Identity"), "## Identity\nL5 SDE"),
    ];
    assert_eq!(
        render_curated(&chunks),
        "## Identity\nL5 SDE\n\n## Projects\nflowforge\n"
    );
}

#[test]
fn render_curated_keeps_preamble_first() {
    let chunks = vec![
        curated_chunk(None, "intro line"),
        curated_chunk(Some("Identity"), "## Identity\nL5 SDE"),
    ];
    assert_eq!(render_curated(&chunks), "intro line\n\n## Identity\nL5 SDE\n");
}

#[test]
fn render_curated_is_a_fixpoint() {
    let chunks = vec![
        curated_chunk(Some("Focus"), "## Focus\nmaps work"),
        curated_chunk(Some("Identity"), "## Identity\nL5 SDE"),
        curated_chunk(Some("Identity"), "## Identity\nbased in Austin"),
    ];
    let once = render_curated(&chunks);
    let rechunked = chunk_markdown(&once, MemorySource::Curated, "MEMORY.md");
    assert_eq!(render_curated(&rechunked), once, "regroup must be stable");
}

#[test]
fn a_body_stands_without_its_heading() {
    assert_eq!(body_without_heading(&curated_chunk(Some("H"), "## H\nbody\n")), "body");
    assert_eq!(body_without_heading(&curated_chunk(Some("H"), "second window")), "second window");
    assert_eq!(body_without_heading(&curated_chunk(None, " loose ")), "loose");
}

#[test]
fn windows_of_a_section_are_joined_again() {
    let mut body = String::from("## Patterns\n");
    for i in 0..120 {
        body.push_str(&format!("- fact number {i:03} with enough text to grow the section\n"));
    }
    let cs = chunk_markdown(&body, MemorySource::Curated, "MEMORY.md");
    assert!(cs.len() > 1);
    let whole = coalesce_windows(&cs);
    assert_eq!(whole.len(), 1);
    assert_eq!(format!("{}\n", whole[0].text), body);
}

// --- the pass -------------------------------------------------------------------

#[test]
fn consolidate_merges_duplicate_curated_facts() {
    let m = mem_with(4096, true);
    let curated = "# Prefs\nlikes rust\n\n# Prefs\nlikes rust\n";
    let plan = run(&m, curated, &Vec::new(), &RecencyFrequency);
    assert_eq!(plan.report.merged, 1, "the duplicate section should collapse");
    assert!(plan.report.ran);
    assert_eq!(plan.rendered.matches("likes rust").count(), 1, "only one copy left");
}

#[test]
fn consolidate_promotes_recurring_daily_fact() {
    let m = mem_with(4096, true);
    let plan = run(&m, "", &three_days("# Project\nuses tauri\n"), &RecencyFrequency);
    assert_eq!(plan.report.promoted, 1, "recurring daily fact should be promoted");
    assert!(plan.report.ran);
    assert!(plan.rendered.contains("uses tauri"), "promoted into curated: {}", plan.rendered);
}

#[test]
fn consolidate_skips_one_off_daily_fact() {
    let m = mem_with(4096, true);
    let one = vec![three_days("# One\nseen once\n").remove(2)];
    let plan = run(&m, "", &one, &RecencyFrequency);
    assert_eq!(plan.report.promoted, 0, "a one-off fact stays in the daily log");
    assert!(!plan.report.ran);
}

#[test]
fn consolidate_demotes_to_daily_when_over_budget() {
    let m = mem_with(40, true);
    let curated = "# A\nalpha fact\n\n# B\nbeta fact\n\n# C\ngamma fact\n";
    let plan = run(&m, curated, &Vec::new(), &RecencyFrequency);
    assert!(plan.report.demoted >= 1, "over-budget curated should demote");
    assert!(plan.report.ran);
    assert!(plan.evicted.iter().any(|t| t.contains("fact")), "evicted text lands in daily");
    assert!(plan.report.bytes_after < plan.report.bytes_before, "curated shrank");
}

#[test]
fn consolidate_demote_gated_off_by_config() {
    let m = mem_with(40, false);
    let curated = "# A\nalpha fact\n\n# B\nbeta fact\n\n# C\ngamma fact\n";
    let plan = run(&m, curated, &Vec::new(), &RecencyFrequency);
    assert_eq!(plan.report.demoted, 0, "eviction is disabled");
    assert!(!plan.report.ran, "nothing to do when eviction is off and no merge/promote");
    assert_eq!(plan.report.bytes_after, plan.report.bytes_before);
}

#[test]
fn consolidate_is_idempotent() {
    let m = mem_with(4096, true);
    let curated = "# Prefs\nlikes rust\n\n# Prefs\nlikes rust\n";
    let first = run(&m, curated, &Vec::new(), &RecencyFrequency);
    assert!(first.report.ran);
    let second = run(&m, &first.rendered, &Vec::new(), &RecencyFrequency);
    assert!(!second.report.ran, "re-run must be a no-op");
    assert_eq!(second.report.merged + second.report.promoted + second.report.demoted, 0);
}

#[test]
fn consolidate_groups_scattered_strata_into_canonical_shape() {
    let m = mem_with(4096, false);
    let curated = "## Focus\nmaps work\n\n## Identity\nL5 SDE\n\n## Identity\nbased in Austin\n";
    let plan = run(&m, curated, &Vec::new(), &RecencyFrequency);
    assert!(plan.report.ran, "a scattered curated file should regroup");
    assert_eq!(
        plan.rendered,
        "## Identity\nL5 SDE\nbased in Austin\n\n## Focus\nmaps work\n"
    );
    assert_eq!(plan.rendered.matches("## Identity").count(), 1);
    let second = run(&m, &plan.rendered, &Vec::new(), &RecencyFrequency);
    assert!(!second.report.ran, "re-run on grouped file must be a no-op");
}

#[test]
fn consolidate_disabled_is_noop() {
    let m = Memory::new("/m", MemoryConfig { enabled: false, ..Default::default() });
    let curated = "# Prefs\nlikes rust\n\n# Prefs\nlikes rust\n";
    let plan = run(&m, curated, &Vec::new(), &RecencyFrequency);
    assert!(!plan.report.ran);
    assert_eq!(plan.rendered, curated);
}

#[test]
fn consolidate_coalesces_windowed_section_without_duplication() {
    let m = mem_with(8192, false);
    let mut body = String::from("## Patterns\n");
    for i in 0..120 {
        body.push_str(&format!(
            "- fact number {i:03} with enough descriptive text to grow the section\n"
        ));
    }
    assert!(
        body.len() > 2048 && body.len() < 8192,
        "section must be windowed (>2KB) yet under budget, got {}",
        body.len()
    );
    let plan = run(&m, &body, &Vec::new(), &RecencyFrequency);
    assert!(
        !plan.report.ran,
        "a whole, already-grouped section must be a no-op even when windowed"
    );
    assert_eq!(plan.rendered, body, "file must be byte-identical (no overlap re-emitted)");
    let second = run(&m, &plan.rendered, &Vec::new(), &RecencyFrequency);
    assert!(!second.report.ran, "re-run on the windowed section must stay a no-op");
}

#[test]
fn duplicates_keep_the_first_and_days_are_counted_once() {
    let cs = vec![
        curated_chunk(Some("A"), "same"),
        curated_chunk(Some("B"), "other"),
        curated_chunk(Some("A"), " same "),
    ];
    let kept = merge_duplicates(&cs);
    assert_eq!(kept.len(), 2);
    assert_eq!(kept[0].text, "same");

    let on = |d: u32| make_chunk(MemorySource::Daily { date: day(2026, 8, d) }, None, "fact");
    let daily = vec![on(1), on(1), on(2)];
    assert_eq!(count_occurrences(&daily, &content_key(&daily[0])), 2);
    assert_eq!(count_occurrences(&daily, "none"), 0);
}

#[test]
fn the_lowest_score_leaves_first() {
    let cs = vec![
        curated_chunk(Some("A"), "# A\nalpha"),
        curated_chunk(Some("B"), "# B\nbeta"),
    ];
    let (kept, gone) = demote(cs, vec![0.9_f32.to_bits(), 0.1_f32.to_bits()], 12);
    assert_eq!(kept.len(), 1);
    assert_eq!(kept[0].heading.as_deref(), Some("A"));
    assert_eq!(gone.len(), 1);
    assert!(gone[0].contains("beta"));
}

// --- salience from usage ----------------------------------------------------------

#[test]
fn demote_evicts_dormant_curated_with_chunk_stats_salience() {
    let m = mem_with(44, true);
    let curated = "# A\nalpha fact\n\n# B\nbeta fact\n\n# C\ngamma fact\n";
    let cs = chunk_markdown(curated, MemorySource::Curated, &m.curated_path());
    let mut idx = Fts5Index::new(DecayConfig { enabled: true, ..Default::default() });
    idx.reindex(&cs);
    let now_ms: i64 = 10_000_000_000_000;
    let dormant = cs.iter().find(|c| c.text.contains("gamma fact")).unwrap();
    idx.stats.reinforce_at(&chunk_key(dormant), 1.0_f32.to_bits(), now_ms - 150 * 86_400_000);

    let decayed: Vec<u32> = cs
        .iter()
        .map(|c| match idx.stats.get(&chunk_key(c)) {
            Some(s) => {
                let days = (now_ms - s.last_accessed_ms) as f32 / 86_400_000.0;
                (f32::from_bits(s.weight) * 0.98_f32.powf(days)).to_bits()
            }
            None => 1.0_f32.to_bits(),
        })
        .collect();
    let salience = m.chunk_stats_salience(&idx.stats, &cs, &decayed, RecencyFrequency);
    let plan = run(&m, curated, &Vec::new(), &salience);
    assert_eq!(plan.report.demoted, 1, "exactly one over-budget chunk demoted");
    assert!(
        !plan.rendered.contains("gamma fact"),
        "dormant C must be evicted, got:\n{}",
        plan.rendered
    );
    assert!(
        plan.rendered.contains("alpha fact") && plan.rendered.contains("beta fact"),
        "recently-relevant A and B must be retained, got:\n{}",
        plan.rendered
    );
}

#[test]
fn demote_with_mechanical_salience_evicts_array_first_not_dormant() {
    let m = mem_with(44, true);
    let curated = "# A\nalpha fact\n\n# B\nbeta fact\n\n# C\ngamma fact\n";
    let plan = run(&m, curated, &Vec::new(), &RecencyFrequency);
    assert_eq!(plan.report.demoted, 1);
    assert!(
        !plan.rendered.contains("alpha fact"),
        "mechanical salience evicts the array-first chunk A, got:\n{}",
        plan.rendered
    );
}

#[test]
fn suppression_follows_content_across_daily_dates() {
    let old = make_chunk(MemorySource::Daily { date: day(2026, 8, 20) }, Some("H"), "dead end");
    let new = make_chunk(MemorySource::Daily { date: day(2026, 8, 31) }, Some("H"), "dead end");
    assert_ne!(chunk_key(&old), chunk_key(&new), "different dates -> different chunk_key");
    let flagged = vec![chunk_key(&old)];
    let s = ChunkStatsSalience::with_suppressed(Vec::new(), &flagged, RecencyFrequency);
    assert_eq!(
        s.score(&new, 3),
        0.0_f32.to_bits(),
        "the same fact under a newer date is still recognised as suppressed"
    );
    assert!(s.is_suppressed(&new));
}

#[test]
fn suppressed_daily_chunk_scores_zero() {
    let today = day(2026, 8, 31);
    let suppressed = make_chunk(MemorySource::Daily { date: today }, Some("H"), "dead end");
    let live =
        make_chunk(MemorySource::Daily { date: day(2026, 8, 31) }, Some("H"), "good lead");
    let flagged = vec![chunk_key(&suppressed)];
    let s = ChunkStatsSalience::with_suppressed(Vec::new(), &flagged, RecencyFrequency);
    assert_eq!(s.score(&suppressed, 3), 0.0_f32.to_bits(), "suppressed daily must score 0");
    assert!(
        f32::from_bits(s.score(&live, 3)) > 0.5,
        "unsuppressed daily keeps its recency x frequency score"
    );
}

#[test]
fn suppression_does_not_affect_curated_demotion() {
    let c = curated_chunk(Some("H"), "curated fact");
    let flagged = vec![chunk_key(&c)];
    let weights = vec![(chunk_key(&c), 0.8_f32.to_bits())];
    let s = ChunkStatsSalience::with_suppressed(weights, &flagged, RecencyFrequency);
    assert_eq!(
        s.score(&c, 1),
        0.8_f32.to_bits(),
        "curated (demote) scoring ignores the promote-side suppress flag"
    );
    assert_eq!(s.curated_weight(&curated_chunk(None, "unknown")), 1.0_f32.to_bits());
}

// --- supersession -------------------------------------------------------------------

#[test]
fn consolidate_records_supersession_when_heading_uniquely_matches() {
    let m = mem_with(4096, false);
    let plan = run(
        &m,
        "# Project\nold approach\n",
        &three_days("# Project\nnew approach\n"),
        &RecencyFrequency,
    );
    assert_eq!(plan.report.promoted, 1);
    assert_eq!(
        plan.report.superseded.len(),
        1,
        "the promotion supersedes the one same-heading curated fact"
    );
    let old_key = plan.report.superseded[0].superseded_key.clone();
    let new_key = plan.report.superseded[0].superseded_by.clone();
    assert_ne!(old_key, new_key);
    assert!(old_key.starts_with("curated:"), "from key: {old_key}");
    assert!(new_key.starts_with("curated:"), "to key: {new_key}");

    let mut idx = Fts5Index::new(DecayConfig::default());
    assert_eq!(idx.record_supersession_edges(&plan.report, 1), 1);
    assert_eq!(idx.links_from(&old_key)[0].to_key, new_key);
    assert_eq!(idx.links_to(&new_key)[0].from_key, old_key);
}

#[test]
fn consolidate_supersedes_chunk_present_in_index_but_absent_from_batch() {
    let m = mem_with(4096, false);
    let mut idx = Fts5Index::new(DecayConfig::default());
    let mut old = curated_chunk(Some("Project"), "# Project\nold approach\n");
    old.path = m.curated_path();
    old.line_end = 2;
    let old_key = chunk_key(&old);
    idx.reindex(&vec![old]);

    let daily = three_days("# Project\nnew approach\n");
    let batch_only = run(&m, "", &daily, &RecencyFrequency);
    assert_eq!(batch_only.report.promoted, 1);
    assert!(
        batch_only.report.superseded.is_empty(),
        "batch-local detection cannot see the index-only fact"
    );

    let cs = all_chunks("", &m.curated_path(), &daily);
    let indexed = idx.curated_chunks();
    let plan = m.consolidate("", 0, &cs, &RecencyFrequency, Some(&indexed));
    assert_eq!(plan.report.superseded.len(), 1, "index-wide match yields the edge");
    let edge = &plan.report.superseded[0];
    assert_eq!(edge.superseded_key, old_key);
    assert_ne!(edge.superseded_by, old_key);
}

#[test]
fn consolidate_skips_supersession_when_heading_is_ambiguous() {
    let m = mem_with(4096, false);
    let plan = run(
        &m,
        "# Notes\nfirst note\n\n# Notes\nsecond note\n",
        &three_days("# Notes\nthird note\n"),
        &RecencyFrequency,
    );
    assert_eq!(plan.report.promoted, 1);
    assert!(
        plan.report.superseded.is_empty(),
        "ambiguous heading (>1 curated chunk) must not mis-record a supersession"
    );
}

#[test]
fn consolidate_skips_supersession_for_stratum_container_heading() {
    let m = mem_with(4096, false);
    let plan = run(
        &m,
        "## Focus\n- shipping C1\n",
        &three_days("## Focus\n- shipping C2\n"),
        &RecencyFrequency,
    );
    assert_eq!(plan.report.promoted, 1);
    assert!(
        plan.report.superseded.is_empty(),
        "stratum container heading is not a supersession signal"
    );
}

#[test]
fn the_size_of_an_unreadable_file_is_reported() {
    let m = Memory::new("/m", MemoryConfig::default());
    let plan = m.consolidate("", 12, &Vec::new(), &RecencyFrequency, None);
    assert_eq!(plan.report.bytes_before, 12);
    assert_eq!(plan.report.bytes_after, 12);
    assert!(!plan.report.ran);
}

#[test]
fn a_rendered_file_is_rendered_the_same_again() {
    let raw = "loose\n\n\n# Notes\none\n## Focus\nship\n## notes\ntwo\n# Notes\nthree\n\n## identity \nme\n\n\n";
    let out = render_curated(&chunk_markdown(raw, MemorySource::Curated, "MEMORY.md"));
    let again = chunk_markdown(&out, MemorySource::Curated, "MEMORY.md");
    assert_eq!(render_curated(&again), out);
    for (i, c) in again.iter().enumerate() {
        assert!(again[..i].iter().all(|d| d.heading != c.heading));
    }
    assert!(out.ends_with('\n') && !out.ends_with("\n\n"));
    assert_eq!(render_curated(&chunk_markdown(" \n\n", MemorySource::Curated, "MEMORY.md")), "");
}
