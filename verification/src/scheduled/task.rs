//! Scheduled tasks, their runs, and the texts that their fields are stored as.
use vstd::prelude::*;
use vstd::string::*;
use crate::text::{copy_opt, same_text};

verus! {

/// Something that the application does by itself.
#[derive(Debug, Clone, Copy, PartialEq, Eq, Structural)]
pub enum BuiltinAction {
    /// Consolidate the memory.
    MemoryConsolidate,
}

/// What a task does when it fires.
#[derive(Debug)]
pub enum TaskKind {
    /// Hands a prompt to the agent.
    Prompt(String),
    /// Does a built-in action.
    Builtin(BuiltinAction),
}

impl Clone for TaskKind {
    fn clone(&self) -> (r: Self)
        ensures
            r == *self,
    {
        match self {
            TaskKind::Prompt(p) => TaskKind::Prompt(p.clone()),
            TaskKind::Builtin(a) => TaskKind::Builtin(*a),
        }
    }
}

impl TaskKind {
    /// Whether the task ships with the application.
    pub fn is_builtin(&self) -> (r: bool)
        ensures
            r == (self is Builtin),
    {
        match self {
            TaskKind::Prompt(_) => false,
            TaskKind::Builtin(_) => true,
        }
    }
}

/// The most that the tool calls of an unattended run may do.
#[derive(Debug, Clone, Copy, PartialEq, Eq, Structural)]
pub enum SafetyCeiling {
    /// Only read.
    ReadOnly,
    /// Also write.
    Write,
}

/// How a run ended.
#[derive(Debug, Clone, Copy, PartialEq, Eq, Structural)]
pub enum RunStatus {
    /// It completed.
    Completed,
    /// It failed.
    Error,
    /// It was cancelled.
    Cancelled,
    /// It stopped on a question that nobody was there to answer.
    NeedsAttention,
}

/// What a new task is made of.
#[derive(Debug)]
pub struct CreateScheduledTaskInput {
    pub name: String,
    pub cron: String,
    pub kind: TaskKind,
    pub workspace: Option<String>,
    pub profile: Option<String>,
    pub safety_ceiling: SafetyCeiling,
}

/// A task as it is stored.
#[derive(Debug)]
pub struct TaskRow {
    pub id: String,
    pub name: String,
    pub cron: String,
    pub kind: TaskKind,
    pub workspace: Option<String>,
    pub profile: Option<String>,
    pub safety_ceiling: SafetyCeiling,
    pub paused: bool,
    /// When it last fired, in milliseconds since 1970.
    pub last_run: Option<i64>,
    /// When it was created, in milliseconds since 1970.
    pub created_ms: i64,
}

/// A task as it is shown, with what is derived from its cron expression.
#[derive(Debug)]
pub struct ScheduledTask {
    pub id: String,
    pub name: String,
    /// How the cadence reads.
    pub cadence_label: String,
    pub cron: String,
    pub kind: TaskKind,
    pub workspace: Option<String>,
    pub profile: Option<String>,
    pub safety_ceiling: SafetyCeiling,
    pub paused: bool,
    /// The next occurrence, in milliseconds since 1970.
    pub next_run: Option<i64>,
    /// When it last fired, in milliseconds since 1970.
    pub last_run: Option<i64>,
}

/// One run of a task.
#[derive(Debug)]
pub struct RunRecord {
    pub id: i64,
    pub task_id: String,
    pub session_id: Option<String>,
    /// When it was recorded, in milliseconds since 1970.
    pub fired_ms: i64,
    pub status: RunStatus,
}

impl Clone for RunRecord {
    fn clone(&self) -> (r: Self)
        ensures
            r == *self,
    {
        RunRecord {
            id: self.id,
            task_id: self.task_id.clone(),
            session_id: copy_opt(&self.session_id),
            fired_ms: self.fired_ms,
            status: self.status,
        }
    }
}

/// What came of firing one task: the session that it ran in, when one was
/// created, and how it ended.
#[derive(Debug)]
pub struct RunOutcome {
    pub session_id: Option<String>,
    pub status: RunStatus,
}

// ---------------------------------------------------------------------------
// Stored texts
// ---------------------------------------------------------------------------

/// The tag and the value that a kind of task is stored as.
pub open spec fn kind_texts(kind: TaskKind) -> (Seq<char>, Seq<char>) {
    match kind {
        TaskKind::Prompt(p) => ("prompt"@, p@),
        TaskKind::Builtin(BuiltinAction::MemoryConsolidate) => ("builtin"@, "memory_consolidate"@),
    }
}

/// The tag and the value that a kind of task is stored as.
pub fn encode_kind(kind: &TaskKind) -> (r: (&'static str, String))
    ensures
        (r.0@, r.1@) == kind_texts(*kind),
{
    match kind {
        TaskKind::Prompt(p) => ("prompt", p.clone()),
        TaskKind::Builtin(a) => ("builtin", builtin_to_text(*a).to_owned()),
    }
}

/// The kind of task that a stored tag and value stand for: a built-in action
/// under its tag, a prompt under any other.
pub fn decode_kind(tag: &str, value: &str) -> (r: TaskKind)
    ensures
        tag@ == "builtin"@ ==> r == TaskKind::Builtin(BuiltinAction::MemoryConsolidate),
        tag@ != "builtin"@ ==> r is Prompt && r->Prompt_0@ == value@,
{
    if same_text(tag, "builtin") {
        TaskKind::Builtin(text_to_builtin(value))
    } else {
        TaskKind::Prompt(value.to_owned())
    }
}

/// The text that a built-in action is stored as.
fn builtin_to_text(a: BuiltinAction) -> (r: &'static str)
    ensures
        r@ == "memory_consolidate"@,
{
    match a {
        BuiltinAction::MemoryConsolidate => "memory_consolidate",
    }
}

/// The built-in action that a stored text stands for. There is only one.
fn text_to_builtin(_s: &str) -> (r: BuiltinAction)
    ensures
        r == BuiltinAction::MemoryConsolidate,
{
    BuiltinAction::MemoryConsolidate
}

/// The text that a ceiling is stored as.
pub open spec fn ceiling_text(c: SafetyCeiling) -> Seq<char> {
    match c {
        SafetyCeiling::ReadOnly => "read_only"@,
        SafetyCeiling::Write => "write"@,
    }
}

/// The text that a ceiling is stored as.
pub fn ceiling_to_text(c: SafetyCeiling) -> (r: &'static str)
    ensures
        r@ == ceiling_text(c),
{
    match c {
        SafetyCeiling::ReadOnly => "read_only",
        SafetyCeiling::Write => "write",
    }
}

/// The ceiling that a stored text stands for: read-only unless it says write.
pub open spec fn ceiling_of(s: Seq<char>) -> SafetyCeiling {
    if s == "write"@ {
        SafetyCeiling::Write
    } else {
        SafetyCeiling::ReadOnly
    }
}

/// The ceiling that a stored text stands for: read-only unless it says write.
pub fn text_to_ceiling(s: &str) -> (r: SafetyCeiling)
    ensures
        r == ceiling_of(s@),
{
    if same_text(s, "write") {
        SafetyCeiling::Write
    } else {
        SafetyCeiling::ReadOnly
    }
}

/// The text that the status of a run is stored as.
pub open spec fn status_text(s: RunStatus) -> Seq<char> {
    match s {
        RunStatus::Completed => "ok"@,
        RunStatus::Error => "error"@,
        RunStatus::Cancelled => "cancelled"@,
        RunStatus::NeedsAttention => "needs_attention"@,
    }
}

/// The text that the status of a run is stored as.
pub fn status_to_text(s: RunStatus) -> (r: &'static str)
    ensures
        r@ == status_text(s),
{
    match s {
        RunStatus::Completed => "ok",
        RunStatus::Error => "error",
        RunStatus::Cancelled => "cancelled",
        RunStatus::NeedsAttention => "needs_attention",
    }
}

/// A stored kind and a stored ceiling are read back as what was stored: a tag
/// tells a prompt from a built-in action, and each ceiling has its own text.
pub proof fn law_stored_task_is_read_back(kind: TaskKind, ceiling: SafetyCeiling)
    ensures
        kind_texts(kind).0 == "builtin"@ <==> kind is Builtin,
        kind is Prompt ==> kind_texts(kind).1 == kind->Prompt_0@,
        kind is Builtin ==> kind == TaskKind::Builtin(BuiltinAction::MemoryConsolidate),
        ceiling_of(ceiling_text(ceiling)) == ceiling,
{
    reveal_strlit("prompt");
    reveal_strlit("builtin");
    reveal_strlit("read_only");
    reveal_strlit("write");
    assert("prompt"@[0] != "builtin"@[0]);
    assert("read_only"@[0] != "write"@[0]);
    if kind is Builtin {
        assert(kind->Builtin_0 == BuiltinAction::MemoryConsolidate);
    }
}

} // verus!
