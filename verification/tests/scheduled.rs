use chrono::{Local, TimeZone};
use flowforge::scheduled::approver::{ApprovalOutcome, DenyReason, Safety, ScheduledApprover};
use flowforge::scheduled::cron::{
    cadence_label, daily, hourly, label_at, monthly, next_run, parse, pick_after, pick_up_to,
    prev_occurrence, second_after, weekly,
};
use flowforge::scheduled::store::{is_due, DeleteBuiltinError, ScheduledStore};
use flowforge::scheduled::task::{
    ceiling_to_text, decode_kind, encode_kind, status_to_text, text_to_ceiling, BuiltinAction,
    CreateScheduledTaskInput, RunOutcome, RunStatus, SafetyCeiling, TaskKind,
};
use flowforge::schema::pending_steps;

fn local(y: i32, m: u32, d: u32, h: u32, min: u32, s: u32) -> i64 {
    Local
        .with_ymd_and_hms(y, m, d, h, min, s)
        .single()
        .expect("valid local time")
        .timestamp_millis()
}

fn now() -> i64 {
    local(2026, 6, 26, 18, 15, 0)
}

fn prompt(name: &str, cron: &str) -> CreateScheduledTaskInput {
    CreateScheduledTaskInput {
        name: name.to_string(),
        cron: cron.to_string(),
        kind: TaskKind::Prompt("do the thing".into()),
        workspace: None,
        profile: None,
        safety_ceiling: SafetyCeiling::ReadOnly,
    }
}

// --- cron expressions -------------------------------------------------------

#[test]
fn rejects_five_field_and_garbage() {
    assert!(parse("0 17 * * *").is_err(), "5-field must be rejected");
    assert!(parse("not a cron").is_err());
    assert!(parse("0 0 17 * * *").is_ok());
}

#[test]
fn a_refused_expression_says_why() {
    let e = parse("not a cron").unwrap_err();
    assert!(e.starts_with("invalid cron expression: "), "{e}");
    assert!(e.len() > "invalid cron expression: ".len());
    assert_eq!(parse("0 0 17 * * *").unwrap().source(), "0 0 17 * * *");
}

#[test]
fn next_and_prev_bracket_now() {
    let sched = parse("0 0 17 * * *").unwrap();
    let next = next_run(&sched, now()).unwrap();
    let prev = prev_occurrence(&sched, now()).unwrap();
    assert_eq!(next, local(2026, 6, 27, 17, 0, 0));
    assert_eq!(prev, local(2026, 6, 26, 17, 0, 0));
}

#[test]
fn prev_occurrence_includes_exact_now() {
    let sched = parse("0 0 17 * * *").unwrap();
    let at = local(2026, 6, 26, 17, 0, 0);
    assert_eq!(prev_occurrence(&sched, at).unwrap(), at);
    assert_eq!(prev_occurrence(&sched, at + 250).unwrap(), at);
    assert_eq!(next_run(&sched, at).unwrap(), local(2026, 6, 27, 17, 0, 0));
}

#[test]
fn candidates_are_held_against_now() {
    assert_eq!(pick_after(10, Some(11), Some(12)), Some(11));
    assert_eq!(pick_after(10, Some(10), Some(12)), Some(12));
    assert_eq!(pick_after(10, Some(9), None), None);
    assert_eq!(pick_up_to(10, Some(10), Some(9)), Some(10));
    assert_eq!(pick_up_to(10, Some(11), Some(9)), Some(9));
    assert_eq!(pick_up_to(10, None, None), None);
    assert_eq!(second_after(5_000), 6_000);
    assert_eq!(second_after(5_250), 6_000);
    assert_eq!(second_after(-250), 0);
}

#[test]
fn cadence_labels_match_presets() {
    let label = |expr: &str| cadence_label(expr, now());
    assert_eq!(label(&daily(17, 0)), "Daily at 5:00 PM");
    assert_eq!(label(&daily(9, 0)), "Daily at 9:00 AM");
    assert_eq!(label(&weekly(9, 0, "Mon-Fri")), "Weekdays at 9:00 AM");
    assert_eq!(label(&weekly(10, 30, "Mon,Wed,Fri")), "Mon, Wed, Fri at 10:30 AM");
    assert_eq!(label(&monthly(17, 0, 17)), "Monthly on day 17 at 5:00 PM");
    assert_eq!(label(&hourly(0)), "Hourly");
    assert_ne!(label("0 * * * * *"), "Hourly");
}

#[test]
fn labels_read_from_the_clock() {
    assert_eq!(daily(17, 5), "0 5 17 * * *");
    assert_eq!(hourly(30), "0 30 * * * *");
    assert_eq!(monthly(8, 0, 3), "0 0 8 3 * *");
    assert_eq!(label_at("0 5 0 * * *", Some((0, 5))), "Daily at 12:05 AM");
    assert_eq!(label_at("0 0 12 * * *", Some((12, 0))), "Daily at 12:00 PM");
    assert_eq!(label_at("0 0 9 * * 6,0", Some((9, 0))), "Sat, Sun at 9:00 AM");
    assert_eq!(label_at("0 0 9 * * monday", Some((9, 0))), "Mon at 9:00 AM");
    for other in ["0 0 9 * * ?", "0 0 9 1 * Mon", "0 0 9 1,15 * *", "0 0 9 * * Fri-Mon"] {
        assert_eq!(label_at(other, Some((9, 0))), other);
    }
    assert_eq!(cadence_label("0 0 9 1,15 * *", now()), "0 0 9 1,15 * *");
    assert_eq!(label_at("0 0 9 1 * *", None), "0 0 9 1 * *");
    assert_eq!(cadence_label("gibberish", now()), "gibberish");
}

// --- the approver -------------------------------------------------------------

fn outcome(ceiling: SafetyCeiling, safety: Safety) -> ApprovalOutcome {
    ScheduledApprover::new(ceiling).approve("m", "c", "t", safety)
}

const DENIED: ApprovalOutcome = ApprovalOutcome::Denied(DenyReason::NoInteractiveTerminal);

#[test]
fn read_only_ceiling_allows_read_only_only() {
    let c = SafetyCeiling::ReadOnly;
    assert_eq!(outcome(c, Safety::ReadOnly), ApprovalOutcome::Allowed);
    assert_eq!(outcome(c, Safety::Write), DENIED);
    assert_eq!(outcome(c, Safety::Sensitive), DENIED);
    assert_eq!(outcome(c, Safety::Dangerous), DENIED);
}

#[test]
fn write_ceiling_allows_write_but_not_dangerous() {
    let c = SafetyCeiling::Write;
    assert_eq!(outcome(c, Safety::ReadOnly), ApprovalOutcome::Allowed);
    assert_eq!(outcome(c, Safety::Write), ApprovalOutcome::Allowed);
    assert_eq!(outcome(c, Safety::Sensitive), ApprovalOutcome::Allowed);
    assert_eq!(outcome(c, Safety::Dangerous), DENIED);
}

#[test]
fn publish_is_never_approved_at_any_ceiling() {
    for ceiling in [SafetyCeiling::ReadOnly, SafetyCeiling::Write] {
        assert_eq!(outcome(ceiling, Safety::Publish), DENIED);
    }
}

#[test]
fn dangerous_is_never_approved_at_any_ceiling() {
    for ceiling in [SafetyCeiling::ReadOnly, SafetyCeiling::Write] {
        assert_eq!(outcome(ceiling, Safety::Dangerous), DENIED);
    }
}

#[test]
fn ask_dismisses_and_latches_needs_attention() {
    let mut a = ScheduledApprover::new(SafetyCeiling::ReadOnly);
    assert!(!a.needs_attention());
    assert_eq!(a.ask("m", "c"), None);
    assert!(a.needs_attention());
}

#[test]
fn approving_a_call_does_not_set_needs_attention() {
    let a = ScheduledApprover::new(SafetyCeiling::Write);
    let _ = a.approve("m", "c", "t", Safety::Write);
    assert!(!a.needs_attention());
}

// --- the store -------------------------------------------------------------------

#[test]
fn create_rejects_bad_cron() {
    let mut s = ScheduledStore::new();
    assert!(s.create("a".to_string(), prompt("bad", "0 17 * * *"), now()).is_err());
    assert!(s.create("b".to_string(), prompt("ok", "0 0 17 * * *"), now()).is_ok());
    assert!(s.create("b".to_string(), prompt("again", "0 0 17 * * *"), now()).is_err());
    assert_eq!(s.tasks.len(), 1);
}

#[test]
fn list_derives_cadence_and_next_run() {
    let mut s = ScheduledStore::new();
    let t = s.create("t".to_string(), prompt("digest", &daily(17, 0)), now()).unwrap();
    assert_eq!(t.cadence_label, "Daily at 5:00 PM");
    assert!(t.next_run.is_some());
    assert!(t.last_run.is_none());
}

#[test]
fn delete_rejected_for_builtin() {
    let mut s = ScheduledStore::new();
    let mut input = prompt("organizer", &daily(17, 0));
    input.kind = TaskKind::Builtin(BuiltinAction::MemoryConsolidate);
    s.create("organizer".to_string(), input, now()).unwrap();
    assert!(matches!(s.delete("organizer"), Err(DeleteBuiltinError)));
    s.create("p".to_string(), prompt("p", &daily(9, 0)), now()).unwrap();
    assert!(matches!(s.delete("p"), Ok(true)));
    assert!(matches!(s.delete("p"), Ok(false)));
    assert!(!DeleteBuiltinError.message().is_empty());
}

#[test]
fn toggle_flips_paused() {
    let mut s = ScheduledStore::new();
    let t = s.create("p".to_string(), prompt("p", &daily(9, 0)), now()).unwrap();
    assert!(!t.paused);
    assert!(s.toggle_paused("p", now()).unwrap().paused);
    assert!(!s.toggle_paused("p", now()).unwrap().paused);
    assert!(s.toggle_paused("nope", now()).is_none());
}

#[test]
fn due_predicate_fires_once_then_not_again() {
    let mut s = ScheduledStore::new();
    s.create("t".to_string(), prompt("nightly", &daily(0, 0)), now()).unwrap();
    assert!(
        s.due_tasks(now()).iter().any(|x| x.id == "t"),
        "fresh past-slot task should be due"
    );
    s.stamp_last_run("t", now());
    assert!(
        !s.due_tasks(now()).iter().any(|x| x.id == "t"),
        "should not re-fire after stamping last_run"
    );
}

#[test]
fn paused_task_never_due() {
    let mut s = ScheduledStore::new();
    s.create("t".to_string(), prompt("nightly", &daily(0, 0)), now()).unwrap();
    s.toggle_paused("t", now());
    assert!(!s.due_tasks(now()).iter().any(|x| x.id == "t"));
    assert!(!is_due(&s.tasks[0], Some(5)));
}

#[test]
fn append_run_cascades_on_delete() {
    let mut s = ScheduledStore::new();
    s.create("p".to_string(), prompt("p", &daily(9, 0)), now()).unwrap();
    s.append_run("p", Some("sess-1".to_string()), RunStatus::Completed, now());
    assert_eq!(s.runs.len(), 1);
    assert!(matches!(s.delete("p"), Ok(true)));
    assert_eq!(s.runs.iter().filter(|r| r.task_id == "p").count(), 0);
}

#[test]
fn tasks_are_listed_newest_first() {
    let mut s = ScheduledStore::new();
    s.create("old".to_string(), prompt("old", &daily(9, 0)), now()).unwrap();
    s.create("new".to_string(), prompt("new", &daily(9, 0)), now() + 1).unwrap();
    let ids: Vec<String> = s.list(now()).into_iter().map(|t| t.id).collect();
    assert_eq!(ids, vec!["new".to_string(), "old".to_string()]);
    assert_eq!(s.get("old", now()).unwrap().name, "old");
    assert!(s.get("none", now()).is_none());
}

// --- firing ------------------------------------------------------------------------

fn every_minute() -> ScheduledStore {
    let mut s = ScheduledStore::new();
    s.create("t".to_string(), prompt("t", "0 * * * * *"), now()).unwrap();
    s
}

fn ended(status: RunStatus) -> Option<RunOutcome> {
    Some(RunOutcome { session_id: Some("sess-1".to_string()), status })
}

#[test]
fn due_task_fires_once_stamps_last_run_and_records_a_run() {
    let mut s = every_minute();
    assert_eq!(s.due_tasks(now()).len(), 1);
    let fired = s.settle_fire("t", ended(RunStatus::Completed), now(), now());
    assert_eq!(fired.status, RunStatus::Completed);
    assert_eq!(fired.session_id.as_deref(), Some("sess-1"));
    assert!(s.due_tasks(now()).is_empty(), "a stamped task must not re-fire within the minute");
    assert_eq!(s.list(now())[0].last_run, Some(now()));
}

#[test]
fn needs_attention_status_is_recorded() {
    let mut s = every_minute();
    s.settle_fire("t", ended(RunStatus::NeedsAttention), now(), now());
    assert_eq!(s.run_statuses("t"), vec!["needs_attention".to_string()]);
    assert!(s.list(now())[0].last_run.is_some());
}

#[test]
fn paused_task_does_not_fire() {
    let mut s = every_minute();
    s.toggle_paused("t", now());
    assert!(s.due_tasks(now()).is_empty());
}

#[test]
fn panicking_fire_is_isolated_recorded_and_stamped() {
    let mut s = every_minute();
    s.settle_fire("t", None, now(), now());
    assert!(
        s.list(now())[0].last_run.is_some(),
        "a fire without an outcome must still stamp last_run so the task does not hot-loop"
    );
    assert_eq!(s.run_statuses("t"), vec!["error".to_string()]);
}

// --- stored texts --------------------------------------------------------------------

#[test]
fn stored_fields_are_read_back() {
    let (tag, value) = encode_kind(&TaskKind::Prompt("p".to_string()));
    assert_eq!((tag, value.as_str()), ("prompt", "p"));
    assert!(matches!(decode_kind(tag, &value), TaskKind::Prompt(p) if p == "p"));
    let (tag, value) = encode_kind(&TaskKind::Builtin(BuiltinAction::MemoryConsolidate));
    assert_eq!((tag, value.as_str()), ("builtin", "memory_consolidate"));
    assert!(decode_kind(tag, &value).is_builtin());
    for c in [SafetyCeiling::ReadOnly, SafetyCeiling::Write] {
        assert_eq!(text_to_ceiling(ceiling_to_text(c)), c);
    }
    assert_eq!(text_to_ceiling("anything"), SafetyCeiling::ReadOnly);
    assert_eq!(status_to_text(RunStatus::Completed), "ok");
    assert_eq!(status_to_text(RunStatus::Error), "error");
    assert_eq!(status_to_text(RunStatus::Cancelled), "cancelled");
    assert_eq!(status_to_text(RunStatus::NeedsAttention), "needs_attention");
}

#[test]
fn a_store_lacks_the_steps_above_its_version() {
    assert_eq!(pending_steps(0, 3), vec![1, 2, 3]);
    assert_eq!(pending_steps(2, 3), vec![3]);
    assert!(pending_steps(3, 3).is_empty());
    assert!(pending_steps(9, 3).is_empty());
}
