use flowforge::date::Date;
use flowforge::memory::ambient::daily_section;
use flowforge::memory::chunk::{MemoryChunk, MemorySource};
use flowforge::memory::chunking::chunk_markdown;
use flowforge::memory::config::{EmbeddingProvider, Memory, MemoryConfig};
use flowforge::memory::edit::{append_body, insert_under_heading, write_curated_stratum};
use flowforge::memory::files::{
    daily_source, has_markdown_name, is_markdown, list_files, slice_lines, sort_daily, DailyFile,
    MemoryFile, MemoryFileKind,
};
use flowforge::memory::links::{
    backtick_spans, extract_identifiers, is_identifier, parse_wikilinks, tokenize,
};
use flowforge::memory::markdown::{head_within, window_line_ranges};
use flowforge::memory::strata::{stratum_for_heading, Stratum};

fn texts(items: &[&str]) -> Vec<String> {
    items.iter().map(|s| s.to_string()).collect()
}

fn mem(root: &str) -> Memory {
    Memory::new(root, MemoryConfig::default())
}

fn file(rel: &str, kind: MemoryFileKind, size: u64) -> MemoryFile {
    MemoryFile {
        name: rel.rsplit('/').next().unwrap().to_string(),
        rel_path: rel.to_string(),
        kind,
        size_bytes: size,
        modified_ms: 0,
    }
}

fn daily(name: &str, raw: &str) -> DailyFile {
    DailyFile { name: name.to_string(), path: format!("/m/daily/{name}"), raw: raw.to_string() }
}

fn chunks(md: &str, path: &str) -> Vec<MemoryChunk> {
    chunk_markdown(md, MemorySource::Curated, path)
}

// --- sections -------------------------------------------------------------

#[test]
fn lib_insert_under_heading_creates_section_when_absent() {
    assert_eq!(
        insert_under_heading("", "## Identity", "L5 SDE"),
        "## Identity\nL5 SDE\n"
    );
    assert_eq!(
        insert_under_heading("## Patterns\nuses Python\n", "## Identity", "L5 SDE"),
        "## Patterns\nuses Python\n\n## Identity\nL5 SDE\n"
    );
}

#[test]
fn tests_insert_under_heading_creates_section_when_absent() {
    assert_eq!(
        insert_under_heading("", "## Identity", "L5 SDE"),
        "## Identity\nL5 SDE\n"
    );
    assert_eq!(
        insert_under_heading("## Patterns\nuses Python\n", "## Identity", "L5 SDE"),
        "## Patterns\nuses Python\n\n## Identity\nL5 SDE\n"
    );
}

#[test]
fn lib_insert_under_heading_appends_to_existing_section() {
    let out = insert_under_heading("## Identity\nL5 SDE\n", "## Identity", "based in Austin");
    assert_eq!(out, "## Identity\nL5 SDE\nbased in Austin\n");
}

#[test]
fn tests_insert_under_heading_appends_to_existing_section() {
    let out = insert_under_heading("## Identity\nL5 SDE\n", "## Identity", "based in Austin");
    assert_eq!(out, "## Identity\nL5 SDE\nbased in Austin\n");
}

#[test]
fn lib_insert_under_heading_inserts_before_next_sibling() {
    let content = "## Identity\nL5 SDE\n\n## Focus\nmaps work\n";
    let out = insert_under_heading(content, "## Identity", "based in Austin");
    assert_eq!(
        out,
        "## Identity\nL5 SDE\nbased in Austin\n\n## Focus\nmaps work\n"
    );
}

#[test]
fn tests_insert_under_heading_inserts_before_next_sibling() {
    let content = "## Identity\nL5 SDE\n\n## Focus\nmaps work\n";
    let out = insert_under_heading(content, "## Identity", "based in Austin");
    assert_eq!(
        out,
        "## Identity\nL5 SDE\nbased in Austin\n\n## Focus\nmaps work\n"
    );
}

fn stratum_writes() -> String {
    let one = write_curated_stratum("", "L5 SDE on Maps", Stratum::Identity);
    let two = write_curated_stratum(&one, "prefers Python", Stratum::Patterns);
    write_curated_stratum(&two, "based in Austin", Stratum::Identity)
}

#[test]
fn lib_write_curated_stratum_routes_to_heading() {
    assert_eq!(
        stratum_writes(),
        "## Identity\nL5 SDE on Maps\nbased in Austin\n\n## Patterns\nprefers Python\n"
    );
}

#[test]
fn tests_write_curated_stratum_routes_to_heading() {
    assert_eq!(
        stratum_writes(),
        "## Identity\nL5 SDE on Maps\nbased in Austin\n\n## Patterns\nprefers Python\n"
    );
}

#[test]
fn appended_entries_stand_on_their_own_lines() {
    assert_eq!(append_body("", "a fact"), "a fact\n");
    assert_eq!(append_body("a fact\n", "another  "), "another\n");
    assert_eq!(append_body("a fact", "another"), "\nanother\n");
}

#[test]
fn strata_are_named_by_their_headings() {
    assert_eq!(Stratum::Identity.heading(), "## Identity");
    assert_eq!(Stratum::Patterns.heading(), "## Patterns");
    assert_eq!(Stratum::Focus.heading(), "## Focus");
    assert!(matches!(Stratum::parse("identity"), Some(Stratum::Identity)));
    assert!(Stratum::parse("projects").is_none());
    assert!(matches!(stratum_for_heading(" Focus "), Some(Stratum::Focus)));
    assert!(stratum_for_heading("Projects").is_none());
}

// --- reading below the root -------------------------------------------------

fn traversal_is_rejected() {
    let m = mem("/home/u/memory");
    assert_eq!(m.get("/home/u/memory/../secret.txt", "TOP-SECRET", None, None), "");
    assert_eq!(m.get("/home/u/secret.txt", "TOP-SECRET", None, None), "");
}

#[test]
fn lib_get_rejects_path_traversal_and_absolute_escape() {
    traversal_is_rejected();
}

#[test]
fn tests_get_rejects_path_traversal_and_absolute_escape() {
    traversal_is_rejected();
}

fn files_are_ordered() {
    let listed = list_files(
        Some(file("MEMORY.md", MemoryFileKind::Curated, 15)),
        vec![
            file("daily/2026-06-16.md", MemoryFileKind::Daily, 5),
            file("daily/2026-06-18.md", MemoryFileKind::Daily, 5),
        ],
    );
    let names: Vec<&str> = listed.iter().map(|f| f.rel_path.as_str()).collect();
    assert_eq!(
        names,
        vec!["MEMORY.md", "daily/2026-06-18.md", "daily/2026-06-16.md"]
    );
    assert_eq!(listed[0].kind, MemoryFileKind::Curated);
    assert_eq!(listed[1].kind, MemoryFileKind::Daily);
    assert!(listed[0].size_bytes > 0);
    assert!(listed.iter().all(|f| f.modified_ms >= 0));
    assert!(has_markdown_name("2026-06-16.md"));
    assert!(!has_markdown_name("notes.txt"));
    assert!(!is_markdown("/m/index.db"));
    assert!(is_markdown("/m/MEMORY.md"));
}

#[test]
fn lib_list_files_orders_curated_then_daily_newest_first() {
    files_are_ordered();
}

#[test]
fn tests_list_files_orders_curated_then_daily_newest_first() {
    files_are_ordered();
}

#[test]
fn lib_list_files_empty_when_nothing_recorded() {
    assert!(list_files(None, Vec::new()).is_empty());
}

#[test]
fn tests_list_files_empty_when_nothing_recorded() {
    assert!(list_files(None, Vec::new()).is_empty());
}

fn reads_stay_below_the_root() {
    let m = mem("/home/u/memory");
    assert_eq!(
        m.read_file("/home/u/memory/MEMORY.md", "curated body").as_deref(),
        Some("curated body")
    );
    assert_eq!(
        m.read_file("/home/u/memory/daily/2026-06-18.md", "daily body").as_deref(),
        Some("daily body")
    );
    assert_eq!(m.read_file("/home/u/memory/daily/2099-01-01.md", "").as_deref(), Some(""));
    assert_eq!(m.read_file("/home/u/memory/../secret.txt", "TOP-SECRET"), None);
    assert_eq!(m.read_file("/home/u/memory/daily/../../secret.txt", "TOP-SECRET"), None);
}

#[test]
fn lib_read_file_round_trips_and_rejects_traversal() {
    reads_stay_below_the_root();
}

#[test]
fn tests_read_file_round_trips_and_rejects_traversal() {
    reads_stay_below_the_root();
}

#[test]
fn line_ranges_count_from_one() {
    let raw = "a\nb\nc\nd\n";
    assert_eq!(slice_lines(raw, None, None), raw);
    assert_eq!(slice_lines(raw, Some(2), Some(3)), "b\nc");
    assert_eq!(slice_lines(raw, Some(3), None), "c\nd");
    assert_eq!(slice_lines(raw, None, Some(1)), "a");
    assert_eq!(slice_lines(raw, Some(9), None), "");
}

#[test]
fn paths_stand_below_the_root() {
    let m = mem("/m");
    assert_eq!(m.root(), "/m");
    assert_eq!(m.curated_path(), "/m/MEMORY.md");
    assert_eq!(m.index_path(), "/m/index.db");
    assert_eq!(m.daily_path(&Date::new(2026, 6, 17).unwrap()), "/m/daily/2026-06-17.md");
    assert_eq!(m.config().injection_budget_bytes, 4096);
}

#[test]
fn daily_logs_sort_by_path_and_name_their_day() {
    let sorted = sort_daily(vec![daily("2026-06-18.md", "b"), daily("2026-06-16.md", "a")]);
    let names: Vec<&str> = sorted.iter().map(|f| f.name.as_str()).collect();
    assert_eq!(names, vec!["2026-06-16.md", "2026-06-18.md"]);
    assert!(matches!(daily_source("2026-06-18.md"), MemorySource::Daily { date }
        if date.same(&Date::new(2026, 6, 18).unwrap())));
    assert!(matches!(daily_source("notes.md"), MemorySource::Curated));
}

// --- the ambient block ------------------------------------------------------

fn day(y: i32, m: u32, d: u32) -> Date {
    Date::new(y, m, d).unwrap()
}

#[test]
fn lib_missing_root_yields_no_ambient_block() {
    assert_eq!(mem("/m").ambient_block_for("", &day(2026, 6, 17), "", ""), None);
}

#[test]
fn tests_missing_root_yields_no_ambient_block() {
    assert_eq!(mem("/m").ambient_block_for("", &day(2026, 6, 17), "", ""), None);
}

fn curated_alone() {
    let block = mem("/m")
        .ambient_block_for("User prefers Rust.\n", &day(2026, 6, 17), "", "")
        .unwrap();
    assert!(block.starts_with("## Memory\n"));
    assert!(block.contains("User prefers Rust."));
    assert!(!block.contains("Recent daily log"));
}

#[test]
fn lib_curated_only_block() {
    curated_alone();
}

#[test]
fn tests_curated_only_block() {
    curated_alone();
}

fn two_days_oldest_first() {
    let block = mem("/m")
        .ambient_block_for("", &day(2026, 6, 17), "filed M5 epic", "shipped the rename")
        .unwrap();
    let y = block.find("filed M5 epic").unwrap();
    let t = block.find("shipped the rename").unwrap();
    assert!(y < t, "yesterday should precede today: {block}");
    assert!(block.contains("Yesterday (2026-06-16)"));
    assert!(block.contains("Today (2026-06-17)"));
}

#[test]
fn lib_daily_today_and_yesterday_included_oldest_first() {
    two_days_oldest_first();
}

#[test]
fn tests_daily_today_and_yesterday_included_oldest_first() {
    two_days_oldest_first();
}

fn nothing_when_off() {
    let m = Memory::new("/m", MemoryConfig { enabled: false, ..Default::default() });
    assert_eq!(m.ambient_block_for("should not appear", &day(2026, 6, 17), "", ""), None);
}

#[test]
fn lib_disabled_config_yields_nothing_even_with_files() {
    nothing_when_off();
}

#[test]
fn tests_disabled_config_yields_nothing_even_with_files() {
    nothing_when_off();
}

fn curated_is_bounded() {
    let m = Memory::new(
        "/m",
        MemoryConfig { enabled: true, injection_budget_bytes: 40, ..Default::default() },
    );
    let body = (0..20)
        .map(|i| format!("line {i} with some text"))
        .collect::<Vec<_>>()
        .join("\n");
    let block = m.ambient_block_for(&body, &day(2026, 6, 17), "", "").unwrap();
    assert!(block.contains("memory truncated"));
    assert!(block.contains("memory_search"));
    assert!(block.contains("line 0"));
    assert!(!block.contains("line 19"));
}

#[test]
fn lib_oversized_curated_is_truncated_with_pointer() {
    curated_is_bounded();
}

#[test]
fn tests_oversized_curated_is_truncated_with_pointer() {
    curated_is_bounded();
}

#[test]
fn the_daily_section_crosses_a_month() {
    assert!(day(2026, 3, 1).pred_opt().unwrap().same(&day(2026, 2, 28)));
    let section = daily_section(&day(2026, 3, 1), "old", "new").unwrap();
    assert!(section.contains("Yesterday (2026-02-28)"));
    assert!(section.contains("Today (2026-03-01)"));
    assert!(daily_section(&day(2026, 3, 1), "", "").is_none());
}

// --- chunks -------------------------------------------------------------------

#[test]
fn lib_head_within_cuts_on_line_boundary() {
    let text = "aaaa\nbbbb\ncccc\ndddd";
    assert_eq!(head_within(text, 12), "aaaa\nbbbb");
}

#[test]
fn tests_head_within_cuts_on_line_boundary() {
    let text = "aaaa\nbbbb\ncccc\ndddd";
    assert_eq!(head_within(text, 12), "aaaa\nbbbb");
}

#[test]
fn lib_head_within_returns_all_when_under_budget() {
    let text = "short";
    assert_eq!(head_within(text, 999), "short");
}

#[test]
fn tests_head_within_returns_all_when_under_budget() {
    let text = "short";
    assert_eq!(head_within(text, 999), "short");
}

#[test]
fn head_within_cuts_a_long_line_between_characters() {
    assert_eq!(head_within("\u{e9}\u{e9}\u{e9}", 3), "\u{e9}");
    assert_eq!(head_within("abcdef", 0), "");
    assert_eq!(head_within("abcd\nef", 4), "abcd");
}

fn headings_split() {
    let md = "# Title\nintro line\n\n## Prefs\nlikes rust\nhates yaml\n\n## Decisions\nuse sqlite";
    let cs = chunks(md, "MEMORY.md");
    assert_eq!(cs.len(), 3);
    assert_eq!(cs[0].heading.as_deref(), Some("Title"));
    assert_eq!(cs[1].heading.as_deref(), Some("Prefs"));
    assert!(cs[1].text.contains("likes rust"));
    assert!(cs[1].text.contains("hates yaml"));
    assert_eq!(cs[2].heading.as_deref(), Some("Decisions"));
}

#[test]
fn lib_chunk_markdown_splits_on_headings() {
    headings_split();
}

#[test]
fn tests_chunk_markdown_splits_on_headings() {
    headings_split();
}

fn preamble_stands_first() {
    let md = "loose note\nanother\n# Heading\nbody";
    let cs = chunks(md, "MEMORY.md");
    assert_eq!(cs.len(), 2);
    assert_eq!(cs[0].heading, None);
    assert_eq!(cs[0].line_start, 1);
    assert_eq!(cs[0].line_end, 2);
    assert!(cs[0].text.contains("loose note"));
    assert_eq!(cs[1].heading.as_deref(), Some("Heading"));
    assert_eq!(cs[1].line_start, 3);
}

#[test]
fn lib_chunk_markdown_preamble_before_first_heading() {
    preamble_stands_first();
}

#[test]
fn tests_chunk_markdown_preamble_before_first_heading() {
    preamble_stands_first();
}

#[test]
fn lib_chunk_markdown_empty_input_yields_no_chunks() {
    assert!(chunks("", "x.md").is_empty());
    assert!(chunks("   \n  \n", "x.md").is_empty());
}

#[test]
fn tests_chunk_markdown_empty_input_yields_no_chunks() {
    assert!(chunks("", "x.md").is_empty());
    assert!(chunks("   \n  \n", "x.md").is_empty());
}

fn small_section_is_whole() {
    let md = "# h\nshort body line one\nshort body line two";
    let cs = chunks(md, "x.md");
    assert_eq!(cs.len(), 1);
    assert_eq!(cs[0].line_start, 1);
    assert_eq!(cs[0].line_end, 3);
    assert_eq!(cs[0].text, md);
}

#[test]
fn lib_small_section_is_a_single_chunk_unchanged() {
    small_section_is_whole();
}

#[test]
fn tests_small_section_is_a_single_chunk_unchanged() {
    small_section_is_whole();
}

fn big_section_windows() {
    let mut md = String::from("# big\n");
    for i in 0..200 {
        md.push_str(&format!("line {i:03} with enough text to add real bytes here\n"));
    }
    let cs = chunks(&md, "x.md");
    assert!(cs.len() > 1, "oversized section should window");
    for c in &cs {
        assert_eq!(c.heading.as_deref(), Some("big"));
        assert!(c.line_start >= 1 && c.line_end >= c.line_start);
    }
    let total_lines = md.lines().count() as u32;
    for pair in cs.windows(2) {
        assert!(pair[1].line_start <= pair[0].line_end + 1);
        assert!(pair[1].line_start > pair[0].line_start);
    }
    assert_eq!(cs.last().unwrap().line_end, total_lines);
    let lines: Vec<&str> = md.lines().collect();
    for c in &cs {
        let expected = lines[(c.line_start - 1) as usize..=(c.line_end - 1) as usize].join("\n");
        assert_eq!(c.text, expected);
    }
}

#[test]
fn lib_oversized_section_splits_into_overlapping_windows_with_exact_line_spans() {
    big_section_windows();
}

#[test]
fn tests_oversized_section_splits_into_overlapping_windows_with_exact_line_spans() {
    big_section_windows();
}

#[test]
fn lib_window_line_ranges_covers_all_lines_and_advances() {
    let lines: Vec<String> = vec!["aaaa".to_string(); 50];
    let ranges = window_line_ranges(&lines, 20, 6);
    assert!(ranges.len() > 1);
    assert_eq!(ranges.first().unwrap().0, 0);
    assert_eq!(ranges.last().unwrap().1, lines.len());
    for pair in ranges.windows(2) {
        assert!(pair[1].0 > pair[0].0, "must advance");
        assert!(pair[1].0 < pair[0].1, "must overlap");
    }
}

#[test]
fn tests_window_line_ranges_covers_all_lines_and_advances() {
    let lines: Vec<String> = vec!["aaaa".to_string(); 50];
    let ranges = window_line_ranges(&lines, 20, 6);
    assert!(ranges.len() > 1);
    assert_eq!(ranges.first().unwrap().0, 0);
    assert_eq!(ranges.last().unwrap().1, lines.len());
    for pair in ranges.windows(2) {
        assert!(pair[1].0 > pair[0].0, "must advance");
        assert!(pair[1].0 < pair[0].1, "must overlap");
    }
}

#[test]
fn windows_of_nothing_and_of_one_long_line() {
    assert!(window_line_ranges(&Vec::new(), 20, 6).is_empty());
    assert_eq!(window_line_ranges(&texts(&["a long line of its own"]), 4, 2), vec![(0, 1)]);
    assert_eq!(
        window_line_ranges(&texts(&["aaaa", "bbbb", "cccc"]), 10, 5),
        vec![(0, 2), (1, 3)]
    );
}

#[test]
fn a_fenced_hash_line_is_no_heading() {
    let cs = chunks("# H\n```\n# a comment\n```\ntail", "x.md");
    assert_eq!(cs.len(), 1);
    assert_eq!(cs[0].heading.as_deref(), Some("H"));
    assert_eq!(cs[0].line_end, 5);
}

#[test]
fn lib_memory_config_default_keeps_embeddings_off() {
    let cfg = MemoryConfig::default();
    assert!(cfg.enabled);
    assert_eq!(cfg.injection_budget_bytes, 4096);
    assert!(!cfg.embeddings.enabled);
    assert_eq!(cfg.embeddings.provider, EmbeddingProvider::Local);
}

#[test]
fn tests_memory_config_default_keeps_embeddings_off() {
    let cfg = MemoryConfig::default();
    assert!(cfg.enabled);
    assert_eq!(cfg.injection_budget_bytes, 4096);
    assert!(!cfg.embeddings.enabled);
    assert_eq!(cfg.embeddings.provider, EmbeddingProvider::Local);
}

#[test]
fn decay_defaults_are_the_documented_numbers() {
    let decay = MemoryConfig::default().decay;
    assert!(decay.enabled);
    assert_eq!(decay.factor, 0.98_f32.to_bits());
    assert_eq!(decay.reinforce_gain, 0.3_f32.to_bits());
    assert_eq!(decay.ambient_gain, 0.0_f32.to_bits());
    assert_eq!(decay.dormant_threshold, 0.25_f32.to_bits());
}

fn under_budget() {
    let m = Memory::new("/m", MemoryConfig { injection_budget_bytes: 1000, ..Default::default() });
    assert!(m.is_enabled());
    assert!(!m.needs_consolidation(0));
    assert!(!m.needs_consolidation("small".len()));
}

#[test]
fn lib_needs_consolidation_false_when_under_budget() {
    under_budget();
}

#[test]
fn tests_needs_consolidation_false_when_under_budget() {
    under_budget();
}

fn over_budget() {
    let m = Memory::new("/m", MemoryConfig { injection_budget_bytes: 100, ..Default::default() });
    assert!(!m.needs_consolidation(100));
    assert!(!m.needs_consolidation(110));
    assert!(m.needs_consolidation(111));
}

#[test]
fn lib_needs_consolidation_true_when_over_budget_with_hysteresis() {
    over_budget();
}

#[test]
fn tests_needs_consolidation_true_when_over_budget_with_hysteresis() {
    over_budget();
}

// --- links and identifiers ----------------------------------------------------

#[test]
fn wikilinks_parsed_in_order_deduped() {
    let t = "See [[Signal Store]] and [[Outcome Gate]], again [[Signal Store]].";
    assert_eq!(parse_wikilinks(t), vec!["Signal Store", "Outcome Gate"]);
}

#[test]
fn wikilink_piped_form_takes_target() {
    assert_eq!(parse_wikilinks("[[target|shown alias]]"), vec!["target"]);
}

#[test]
fn wikilink_empty_and_unclosed_ignored() {
    assert!(parse_wikilinks("[[]] and [[unclosed").is_empty());
}

#[test]
fn identifiers_from_backtick_span() {
    let ids = extract_identifiers("call `SignalStore::ingest` before flush");
    assert!(ids.contains(&"signalstore::ingest".to_string()));
}

#[test]
fn identifiers_camel_snake_path() {
    let ids = extract_identifiers("MemoryIndex and record_link and a::b::c here");
    assert!(ids.contains(&"memoryindex".to_string()));
    assert!(ids.contains(&"record_link".to_string()));
    assert!(ids.contains(&"a::b::c".to_string()));
}

#[test]
fn prose_words_are_not_identifiers() {
    let ids = extract_identifiers("the quick brown fox jumps over memory");
    assert!(
        ids.is_empty(),
        "bare lowercase prose must not become identifiers: {ids:?}"
    );
}

#[test]
fn extraction_is_case_insensitive_and_deterministic() {
    assert_eq!(
        extract_identifiers("`FooBar`"),
        extract_identifiers("foobar mention of FooBar")
            .into_iter()
            .filter(|s| s == "foobar")
            .collect::<Vec<String>>(),
    );
}

#[test]
fn spans_and_tokens_are_cut_as_written() {
    assert_eq!(backtick_spans("a `b c` d `e` f `open"), texts(&["b c", "e"]));
    assert!(tokenize("a_b, c::d.").contains(&"a_b".to_string()));
    assert!(is_identifier("a_b"));
    assert!(is_identifier("FooBar"));
    assert!(is_identifier("utf8"));
    assert!(!is_identifier("word"));
    assert!(!is_identifier("Word"));
}

#[test]
fn a_span_ends_at_a_run_as_long_as_its_first() {
    assert_eq!(backtick_spans("`a``b` c"), texts(&["a``b"]));
    assert_eq!(backtick_spans("``x`y`` `z`"), texts(&["x`y", "z"]));
    assert_eq!(backtick_spans("``` a `b` c"), texts(&["b"]));
    assert_eq!(backtick_spans("`a``"), texts(&[]));
    assert_eq!(backtick_spans("``"), texts(&[]));
}

#[test]
fn a_digit_counts_next_to_a_letter() {
    assert!(is_identifier("a1"));
    assert!(is_identifier("a:1b"));
    assert!(is_identifier("v12"));
    assert!(!is_identifier("a:1"));
    assert!(!is_identifier("ab:12"));
    assert!(!is_identifier("1a"));
    assert!(extract_identifiers("at a:1 and b2").contains(&"b2".to_string()));
    assert!(!extract_identifiers("at a:1 and b2").contains(&"a:1".to_string()));
}

#[test]
fn windows_overlap_and_end_in_order() {
    let lines: Vec<String> = (0..9).map(|i| format!("line {i}")).collect();
    let windows = window_line_ranges(&lines, 28, 14);
    assert_eq!(windows, vec![(0, 4), (2, 6), (4, 8), (6, 9)]);
    for pair in windows.windows(2) {
        assert!(pair[0].0 < pair[1].0 && pair[0].1 < pair[1].1);
        assert!(pair[1].0 < pair[0].1);
    }
}

#[test]
fn backticks_only_part_names() {
    let text = "call `SignalStore::ingest` then ``record_link``x9 and a`b_c`";
    let plain = text.replace('`', " ");
    assert_eq!(extract_identifiers(text), extract_identifiers(&plain));
    assert_eq!(
        extract_identifiers(text),
        texts(&["b_c", "record_link", "signalstore::ingest", "x9"])
    );
}

#[test]
fn two_texts_name_what_either_names() {
    let (a, b) = ("MemoryIndex and `record_link", "a::b` uses MemoryIndex");
    let forth = extract_identifiers(&format!("{a} {b}"));
    assert_eq!(forth, extract_identifiers(&format!("{b} {a}")));
    assert_eq!(forth, texts(&["a::b", "memoryindex", "record_link"]));
}

#[test]
fn two_inserts_are_one_insert_of_both() {
    for content in ["", "intro", "## Identity\nL5 SDE\n\n\n## Focus\nshipping\n", "## Focus\nx\n\n"] {
        for heading in ["## Identity", "## Patterns", "## Focus"] {
            let once = insert_under_heading(content, heading, "first\n\nline");
            let twice = insert_under_heading(&once, heading, "second \n");
            assert_eq!(twice, insert_under_heading(content, heading, "first\n\nline\nsecond \n"));
        }
    }
    assert_eq!(
        insert_under_heading(
            &insert_under_heading("## Identity\na\n\n## Focus\nz\n", "## Identity", "b"),
            "## Identity",
            "c",
        ),
        "## Identity\na\nb\nc\n\n## Focus\nz\n"
    );
}
