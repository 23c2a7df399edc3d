use flowforge::observer::event::{ObserverError, ObserverId};
use flowforge::observer::file::{
    classify, classify_node, make_event, ChangeFlags, FileSource, NodeChange, RawChange,
};
use flowforge::observer::http::{
    read_part, HttpSource, DEFAULT_INTERVAL_SECS, MAX_BODY_BYTES, MIN_INTERVAL_SECS,
    MIN_READY_INTERVAL_SECS, READY_INTERVAL_SECS,
};
use flowforge::observer::process::ProcessSource;
use flowforge::observer::source::{
    HttpMode, Instant, ObserverContext, ObserverEvent, ObserverKind, ObserverSpec,
};
use flowforge::observer::supervisor::{
    source_failure, stamp_event, Accepted, ObserverSupervisor, SourcePlan, MAX_PER_SESSION,
};
use flowforge::observer::tool::{
    finish_start, format_infos, id_arg, resolve_target, run_with_session, safety, started_text,
    IdArg, ToolArgs, ToolOutcome, ToolStep, NO_SESSION_TOOL,
};
use flowforge::scheduled::approver::Safety;

fn ctx() -> ObserverContext {
    ObserverContext { session_id: "s".to_string(), id: 1, label: "http".to_string() }
}

fn at() -> Instant {
    Instant::new(1_784_768_523, 0).unwrap()
}

fn request(label: &str, kind: ObserverKind, target: &str) -> ObserverSpec {
    ObserverSpec {
        label: label.to_string(),
        kind,
        target: target.to_string(),
        filter: None,
        interval_secs: None,
        http_mode: HttpMode::Change,
    }
}

fn start(sup: &mut ObserverSupervisor, label: &str, session: &str) -> u64 {
    let accepted = sup.start(request(label, ObserverKind::File, "/w"), session, false).unwrap();
    let id = accepted.ctx.id;
    assert!(finish_start(sup, accepted, HttpMode::Change, Ok(at())).success);
    id
}

fn bytes(s: &str) -> Vec<u8> {
    s.as_bytes().to_vec()
}

// --- what is listed -----------------------------------------------------------

#[test]
fn instants_are_written_as_in_rfc_3339() {
    assert_eq!(at().to_rfc3339(), "2026-07-23T01:02:03+00:00");
    assert!(Instant::new(0, 1_000_000_000).is_none());
    assert!(Instant::new(i64::MAX, 0).is_none());
}

#[test]
fn kinds_are_named_in_lower_case() {
    assert_eq!(ObserverKind::File.as_str(), "file");
    assert_eq!(ObserverKind::Http.as_str(), "http");
    assert_eq!(ObserverKind::Process.as_str(), "process");
    assert_eq!(ObserverId(7).to_text(), "obs#7");
}

#[test]
fn every_error_says_what_went_wrong() {
    let why = || "why".to_string();
    assert_eq!(ObserverError::UnknownKind(why()).message(), "unknown observer kind: why");
    assert_eq!(
        ObserverError::InvalidTarget { kind: "http", reason: why() }.message(),
        "invalid target for http: why"
    );
    assert_eq!(ObserverError::InvalidFilter(why()).message(), "invalid filter regex: why");
    assert_eq!(
        ObserverError::SessionCapReached(8).message(),
        "too many observers for this session (max 8)"
    );
    assert_eq!(ObserverError::NotFound(3).message(), "observer 3 not found");
    assert_eq!(ObserverError::Io(why()).message(), "io error: why");
    assert_eq!(ObserverError::Other(why()).message(), "why");
}

// --- files ------------------------------------------------------------------------

#[test]
fn make_event_renders_all_raw_change_shapes() {
    let target = "/tmp/watched";
    let c = ObserverContext { session_id: "test".to_string(), id: 1, label: "c".to_string() };
    let e = make_event(&c, target, false, &RawChange::Modified("a.txt".to_string()));
    assert_eq!(e.summary, "modified a.txt");
    let e = make_event(&c, target, false, &RawChange::Created("b.txt".to_string()));
    assert_eq!(e.summary, "created b.txt");
    let e = make_event(&c, target, false, &RawChange::Removed("c.txt".to_string()));
    assert_eq!(e.summary, "removed c.txt");
    let e = make_event(&c, target, false, &RawChange::RootChanged);
    assert!(e.summary.contains("deleted"), "{}", e.summary);
    let e = make_event(&c, target, true, &RawChange::RootChanged);
    assert!(e.summary.starts_with("changed "), "{}", e.summary);
    assert_eq!(e.session_id, c.session_id);
    assert_eq!(e.id, c.id);
    assert_eq!(e.label, c.label);
}

fn no_flags() -> ChangeFlags {
    ChangeFlags {
        create: false,
        moved_to: false,
        delete: false,
        moved_from: false,
        delete_self: false,
        move_self: false,
    }
}

#[test]
fn changes_are_understood_by_their_flags() {
    let path = || "/w/a".to_string();
    let f = no_flags();
    assert!(matches!(classify(ChangeFlags { create: true, ..f }, path()), RawChange::Created(_)));
    assert!(matches!(
        classify(ChangeFlags { moved_from: true, ..f }, path()),
        RawChange::Removed(_)
    ));
    assert!(matches!(
        classify(ChangeFlags { delete_self: true, ..f }, path()),
        RawChange::RootChanged
    ));
    assert!(matches!(classify(f, path()), RawChange::Modified(p) if p == "/w/a"));
    assert!(matches!(classify_node(NodeChange::Write, path()), RawChange::Modified(_)));
    assert!(matches!(classify_node(NodeChange::Rename, path()), RawChange::RootChanged));
}

fn file_plan(sup: &mut ObserverSupervisor, glob: Option<&str>) -> Result<FileSource, String> {
    let mut r = request("w", ObserverKind::File, "/w");
    r.filter = glob.map(String::from);
    let accepted = sup.start(r, "s", false)?;
    match accepted.plan {
        SourcePlan::File { target, names } => {
            Ok(FileSource { ctx: accepted.ctx, target, is_dir: true, filter: names })
        }
        _ => panic!("a file observer watches a file"),
    }
}

#[test]
fn a_glob_leaves_out_children_that_it_does_not_match() {
    let mut sup = ObserverSupervisor::new();
    let src = file_plan(&mut sup, Some("*.rs")).unwrap();
    let created = ChangeFlags { create: true, ..no_flags() };
    let e = src.observe(created, Some("main.rs".to_string())).unwrap();
    assert_eq!(e.summary, "created /w/main.rs");
    assert!(src.observe(created, Some("notes.txt".to_string())).is_none());
    let all = file_plan(&mut sup, None).unwrap();
    assert!(all.observe(created, Some("notes.txt".to_string())).is_some());
    assert!(file_plan(&mut sup, Some("a{b")).is_err());
}

// --- urls ---------------------------------------------------------------------------

fn watch(filter: Option<&str>, mode: HttpMode) -> HttpSource {
    HttpSource::new(ctx(), "https://example.com/", None, filter.map(String::from), mode).unwrap()
}

#[test]
fn new_rejects_non_http_schemes() {
    let err = HttpSource::new(ctx(), "file:///etc/passwd", None, None, HttpMode::Change)
        .expect_err("file:// must be rejected");
    assert!(err.contains("scheme"), "{err}");
    let err = HttpSource::new(ctx(), "ftp://example.com/", None, None, HttpMode::Change)
        .expect_err("ftp:// must be rejected");
    assert!(err.contains("scheme"), "{err}");
}

#[test]
fn new_rejects_unparseable_urls() {
    assert!(HttpSource::new(ctx(), "not a url", None, None, HttpMode::Change).is_err());
    assert!(HttpSource::new(ctx(), "", None, None, HttpMode::Change).is_err());
}

#[test]
fn new_clamps_sub_minimum_interval_and_defaults() {
    let every = |secs: Option<u64>, mode: HttpMode| {
        HttpSource::new(ctx(), "https://example.com/", secs, None, mode).unwrap().interval_secs
    };
    assert_eq!(every(Some(5), HttpMode::Change), MIN_INTERVAL_SECS);
    assert_eq!(every(None, HttpMode::Change), DEFAULT_INTERVAL_SECS);
    assert_eq!(every(Some(45), HttpMode::Change), 45);
    assert_eq!(every(None, HttpMode::Ready), READY_INTERVAL_SECS);
    assert_eq!(every(Some(0), HttpMode::Ready), MIN_READY_INTERVAL_SECS);
}

#[test]
fn unchanged_does_not_emit() {
    let mut src = watch(None, HttpMode::Change);
    for _ in 0..3 {
        assert!(src.poll_once(true, &bytes("hello")).is_none());
    }
}

#[test]
fn changed_emits_with_summary() {
    let mut src = watch(None, HttpMode::Change);
    assert!(src.poll_once(true, &bytes("v1")).is_none());
    let ev = src.poll_once(true, &bytes("v2")).unwrap();
    assert_eq!(ev.summary, "content changed");
    assert_eq!(ev.label, "http");
    assert_eq!(ev.session_id, "s");
    assert!(src.poll_once(true, &bytes("v2")).is_none());
}

#[test]
fn filter_substring_only_emits_on_match() {
    let mut src = watch(Some("ready"), HttpMode::Change);
    assert!(src.poll_once(true, &bytes("v1")).is_none());
    assert!(src.poll_once(true, &bytes("v2")).is_none());
    let ev = src.poll_once(true, &bytes("v3 ready")).unwrap();
    assert_eq!(ev.summary, "filtered match: \"ready\"");
}

#[test]
fn non_2xx_is_silent() {
    let mut src = watch(None, HttpMode::Change);
    for _ in 0..3 {
        assert!(src.poll_once(false, &bytes("")).is_none(), "500s must not fire");
    }
    assert!(src.last.is_none());
}

#[test]
fn body_over_one_mib_truncates_safely() {
    let mut src = watch(None, HttpMode::Change);
    assert!(src.poll_once(true, &vec![b'A'; 2 * MAX_BODY_BYTES]).is_none());
    assert!(src.poll_once(true, &vec![b'A'; MAX_BODY_BYTES]).is_none());
    let ev = src.poll_once(true, &vec![b'B'; 1024]).unwrap();
    assert_eq!(ev.summary, "content changed");
}

#[test]
fn parts_are_read_up_to_the_cap() {
    let mut body: Vec<u8> = Vec::new();
    assert!(read_part(&mut body, &bytes("ab")));
    assert!(read_part(&mut body, &bytes("cd")));
    assert_eq!(body, bytes("abcd"));
    assert!(!read_part(&mut body, &vec![b'x'; MAX_BODY_BYTES]));
    assert_eq!(body.len(), MAX_BODY_BYTES);
}

#[test]
fn readiness_is_reported_once() {
    let mut src = watch(None, HttpMode::Ready);
    assert!(src.poll_once(false, &bytes("")).is_none());
    assert_eq!(src.poll_once(true, &bytes("up")).unwrap().summary, "target is ready");
    assert!(src.finished);
    assert!(src.poll_once(true, &bytes("up")).is_none());
}

// --- processes ------------------------------------------------------------------------

fn listen(filter: Option<&str>) -> ProcessSource {
    ProcessSource::new(ctx(), 7, filter.map(String::from), true).unwrap()
}

#[test]
fn match_emits_with_summary() {
    let ev = listen(Some("error detected")).observe(&bytes("error detected\n")).unwrap();
    assert_eq!(ev.session_id, "s");
    assert_eq!(ev.id, 1);
    assert!(ev.summary.contains("error detected"), "{}", ev.summary);
    assert!(ev.summary.starts_with("matched:"), "{}", ev.summary);
}

#[test]
fn no_match_no_event() {
    assert!(listen(Some("error detected")).observe(&bytes("all good\n")).is_none());
}

#[test]
fn unknown_process_id_returns_none_at_source_new() {
    let err = ProcessSource::new(ctx(), 999, None, false).expect_err("unknown pid must error");
    assert!(err.contains("no such process"), "{err}");
}

#[test]
fn invalid_filter_regex_rejected() {
    let err = ProcessSource::new(ctx(), 1, Some("(unclosed".to_string()), true)
        .expect_err("bad regex must error");
    assert!(err.contains("invalid filter regex"), "{err}");
}

#[test]
fn multiline_match_across_chunks_emits() {
    let src = listen(Some("^.*-error$"));
    let ev1 = src.observe(&bytes("noise\nfirst-error\n")).unwrap();
    let ev2 = src.observe(&bytes("second-error\n")).unwrap();
    assert!(ev1.summary.contains("first-error"), "{}", ev1.summary);
    assert!(ev2.summary.contains("second-error"), "{}", ev2.summary);
}

#[test]
fn broken_utf8_is_read_leniently() {
    let ev = listen(Some("ok")).observe(&vec![0xff, b'o', b'k']).unwrap();
    assert!(ev.summary.contains("ok"), "{}", ev.summary);
}

// --- the supervisor -------------------------------------------------------------------

#[test]
fn start_rejects_past_cap() {
    let mut sup = ObserverSupervisor::new();
    for i in 0..MAX_PER_SESSION {
        start(&mut sup, &format!("watch-{i}"), "s1");
    }
    let err = sup
        .start(request("watch-overflow", ObserverKind::File, "/w"), "s1", false)
        .expect_err("start past cap must error");
    assert!(err.contains("too many"), "{err}");
    assert!(sup.start(request("other", ObserverKind::File, "/w"), "s2", false).is_ok());
}

#[test]
fn reap_session_stops_and_removes() {
    let mut sup = ObserverSupervisor::new();
    start(&mut sup, "a", "s1");
    start(&mut sup, "b", "s1");
    start(&mut sup, "c", "s2");
    assert_eq!(sup.list("s1").len(), 2);
    assert_eq!(sup.list("s2").len(), 1);
    assert_eq!(sup.reap_session("s1"), 2);
    assert!(sup.list("s1").is_empty());
    assert_eq!(sup.list("s2").len(), 1);
}

#[test]
fn cross_session_isolation() {
    let mut sup = ObserverSupervisor::new();
    let id = start(&mut sup, "a", "session-a");
    assert!(!sup.may_stop(id, "session-b"));
    assert!(sup.stop(id, "session-b").is_err());
    assert!(sup.list("session-b").is_empty());
    let infos = sup.list("session-a");
    assert_eq!(infos.len(), 1);
    assert_eq!(infos[0].id, id);
    assert!(sup.stop(id, "session-a").is_ok());
}

fn event(id: u64, summary: &str) -> ObserverEvent {
    ObserverEvent {
        session_id: "s1".to_string(),
        id,
        label: "watcher".to_string(),
        summary: summary.to_string(),
    }
}

#[test]
fn buffer_event_drain_round_trip() {
    let mut sup = ObserverSupervisor::new();
    sup.buffer_event("s1", event(42, "modified foo"));
    assert!(sup.has_buffered("s1"), "has_buffered true after first push");
    sup.buffer_event("s1", event(43, "modified bar"));
    let drained = sup.drain_buffer("s1");
    assert_eq!(drained.len(), 2);
    assert_eq!(drained[0].id, 42);
    assert_eq!(drained[1].id, 43);
    assert!(sup.drain_buffer("s1").is_empty());
    assert!(!sup.has_buffered("s1"), "has_buffered false after drain");
}

#[test]
fn has_buffered_false_for_unknown_or_empty_session() {
    assert!(!ObserverSupervisor::new().has_buffered("nobody"));
}

#[test]
fn unknown_observer_id_is_an_error() {
    assert!(ObserverSupervisor::new().stop(999, "s1").is_err());
}

#[test]
fn start_rejects_empty_label_and_target() {
    let mut sup = ObserverSupervisor::new();
    assert!(sup.start(request("", ObserverKind::File, "/w"), "s1", false).is_err());
    assert!(sup.start(request("ok", ObserverKind::File, ""), "s1", false).is_err());
}

#[test]
fn start_accepts_http_kind_with_valid_url() {
    let mut sup = ObserverSupervisor::new();
    let accepted = sup
        .start(request("x", ObserverKind::Http, "https://example.com/"), "s1", false)
        .expect("http start accepts a parseable URL");
    let id = accepted.ctx.id;
    finish_start(&mut sup, accepted, HttpMode::Change, Ok(at()));
    sup.stop(id, "s1").expect("stop");
}

#[test]
fn start_rejects_http_kind_with_invalid_url() {
    let err = ObserverSupervisor::new()
        .start(request("x", ObserverKind::Http, "not a url"), "s1", false)
        .expect_err("malformed URL must error");
    assert!(err.to_lowercase().contains("http"), "{err}");
}

#[test]
fn start_rejects_process_kind_without_supervisor() {
    let err = ObserverSupervisor::new()
        .start(request("x", ObserverKind::Process, "1"), "s1", false)
        .expect_err("process kind must error without supervisor");
    assert!(err.to_lowercase().contains("process"), "{err}");
}

#[test]
fn start_rejects_process_kind_with_unknown_pid() {
    let mut sup = ObserverSupervisor::new();
    let accepted = sup.start(request("x", ObserverKind::Process, "999"), "s1", true).unwrap();
    let why = match accepted.plan {
        SourcePlan::Process { pid, filter } => {
            ProcessSource::new(accepted.ctx, pid, filter, false).expect_err("unknown pid")
        }
        _ => panic!("a process observer listens to a process"),
    };
    assert!(why.contains("no such process"), "{why}");
    assert!(sup.start(request("x", ObserverKind::Process, "seven"), "s1", true).is_err());
}

#[test]
fn start_rejects_nonexistent_path() {
    let mut sup = ObserverSupervisor::new();
    let accepted = sup.start(request("x", ObserverKind::File, "/gone"), "s1", false).unwrap();
    let why = source_failure(ObserverKind::File, "path does not exist: /gone");
    let out = finish_start(&mut sup, accepted, HttpMode::Change, Err(why));
    assert!(!out.success);
    assert!(out.content.contains("does not exist"), "{}", out.content);
    assert!(sup.list("s1").is_empty());
}

#[test]
fn start_then_list_includes_label() {
    let mut sup = ObserverSupervisor::new();
    let id = start(&mut sup, "build-output", "s1");
    let infos = sup.list("s1");
    assert_eq!(infos.len(), 1);
    assert_eq!(infos[0].id, id);
    assert_eq!(infos[0].label, "build-output");
}

#[test]
fn events_are_stamped_where_they_lack_a_sender() {
    let mut bare = event(0, "x");
    bare.session_id = String::new();
    let e = stamp_event(bare, 9, "s9");
    assert_eq!((e.id, e.session_id.as_str()), (9, "s9"));
    let e = stamp_event(event(3, "x"), 9, "s9");
    assert_eq!((e.id, e.session_id.as_str()), (3, "s1"));
}

// --- the tool -----------------------------------------------------------------------------

fn args(action: Option<&str>) -> ToolArgs {
    ToolArgs {
        action: action.map(String::from),
        label: None,
        kind: None,
        target: None,
        filter: None,
        mode: None,
        interval_secs: None,
        observer_id: None,
    }
}

fn start_args(label: &str, kind: &str, target: &str) -> ToolArgs {
    ToolArgs {
        label: Some(label.to_string()),
        kind: Some(kind.to_string()),
        target: Some(target.to_string()),
        ..args(Some("start"))
    }
}

fn run(sup: &mut ObserverSupervisor, a: &ToolArgs, session: &str) -> ToolOutcome {
    match run_with_session(sup, a, "/root", session, false) {
        ToolStep::Done(out) => out,
        ToolStep::Open(accepted) => open(sup, accepted),
    }
}

fn open(sup: &mut ObserverSupervisor, accepted: Accepted) -> ToolOutcome {
    finish_start(sup, accepted, HttpMode::Change, Ok(at()))
}

#[test]
fn tool_validates_args_and_classifies_safety() {
    let mut sup = ObserverSupervisor::new();
    assert!(!run(&mut sup, &args(None), NO_SESSION_TOOL).success);
    assert!(!run(&mut sup, &args(Some("nope")), NO_SESSION_TOOL).success);
    let unlabelled = ToolArgs { label: None, ..start_args("", "file", "/w") };
    assert!(!run(&mut sup, &unlabelled, NO_SESSION_TOOL).success);
    assert!(!run(&mut sup, &start_args("x", "warp", "/w"), NO_SESSION_TOOL).success);
    assert!(run(&mut sup, &args(Some("list")), NO_SESSION_TOOL).success);
    assert!(!run(&mut sup, &args(Some("stop")), NO_SESSION_TOOL).success);
    assert_eq!(safety(&Some("list".to_string())), Safety::ReadOnly);
    assert_eq!(safety(&Some("start".to_string())), Safety::Write);
    assert_eq!(safety(&Some("stop".to_string())), Safety::Write);
}

#[test]
fn start_then_stop_round_trip() {
    let mut sup = ObserverSupervisor::new();
    let started = run(&mut sup, &start_args("watch", "file", "/w"), "s1");
    assert!(started.success, "{}", started.content);
    let id: u64 = started
        .content
        .split_whitespace()
        .find_map(|w| w.trim_end_matches(':').parse().ok())
        .expect("observer id in start output");
    let listed = run(&mut sup, &args(Some("list")), "s1");
    assert!(listed.success);
    assert!(listed.content.contains("watch"), "{}", listed.content);
    let stop = ToolArgs { observer_id: Some(IdArg::Number(id)), ..args(Some("stop")) };
    let stopped = run(&mut sup, &stop, "s1");
    assert!(stopped.success, "{}", stopped.content);
}

#[test]
fn tool_start_is_listed_under_the_callers_session() {
    let mut sup = ObserverSupervisor::new();
    let started = run(&mut sup, &start_args("watch", "file", "/w"), "session-a");
    assert!(started.success, "{}", started.content);
    let mine = sup.list("session-a");
    assert_eq!(mine.len(), 1, "observer must be listed for its own session");
    assert_eq!(mine[0].label, "watch");
    assert!(
        sup.list("session-b").is_empty(),
        "observer must not leak into another session's list"
    );
}

#[test]
fn start_unknown_source_errors() {
    let mut sup = ObserverSupervisor::new();
    let res = run(&mut sup, &start_args("x", "totally-not-a-kind", "1"), NO_SESSION_TOOL);
    assert!(!res.success, "{}", res.content);
    assert!(
        res.content.contains("unknown kind") || res.content.contains("expected one of"),
        "{}",
        res.content
    );
}

#[test]
fn start_http_kind_is_accepted() {
    let mut sup = ObserverSupervisor::new();
    let mut a = start_args("poll", "http", "https://example.com/");
    a.interval_secs = Some(60);
    let res = run(&mut sup, &a, NO_SESSION_TOOL);
    assert!(res.success, "{}", res.content);
    assert!(res.content.contains("first poll is silent"), "{}", res.content);
    assert!(started_text(1, ObserverKind::Http, "l", HttpMode::Ready).contains("fires once"));
}

#[test]
fn id_arg_accepts_string_and_number() {
    assert_eq!(id_arg(&Some(IdArg::Number(42))), Some(42));
    assert_eq!(id_arg(&Some(IdArg::Text("42".to_string()))), Some(42));
    assert_eq!(id_arg(&Some(IdArg::Text("x".to_string()))), None);
    assert_eq!(id_arg(&None), None);
    assert_eq!(id_arg(&Some(IdArg::Unusable)), None);
}

#[test]
fn targets_are_resolved_below_the_root() {
    let path = |t: Option<&str>| resolve_target(&t.map(String::from), "/root");
    assert_eq!(path(None), "/root");
    assert_eq!(path(Some("  ")), "/root");
    assert_eq!(path(Some("/abs")), "/abs");
    assert_eq!(path(Some("src")), "/root/src");
    assert_eq!(format_infos(&Vec::new()), "No observers.");
}

#[test]
fn an_ended_source_leaves_room_for_another() {
    let mut sup = ObserverSupervisor::new();
    for i in 0..MAX_PER_SESSION {
        start(&mut sup, &format!("watch-{i}"), "s1");
    }
    start(&mut sup, "other", "s2");
    let ended = sup.list("s1")[2].id;
    sup.source_ended(ended);
    assert_eq!(sup.list("s1").len(), MAX_PER_SESSION - 1);
    assert!(sup.list("s1").iter().all(|info| info.id != ended));
    assert_eq!(sup.list("s2").len(), 1);
    sup.source_ended(ended);
    assert_eq!(sup.list("s1").len(), MAX_PER_SESSION - 1);
    start(&mut sup, "again", "s1");
    assert_eq!(sup.list("s1").last().unwrap().label, "again");
}
