//! Sessions and the messages of their transcripts.
use vstd::prelude::*;
use vstd::string::*;
use crate::text;
use crate::text::copy_opt;

verus! {

/// Who a message comes from.
#[derive(Debug, Clone, Copy, PartialEq, Eq, Structural)]
pub enum Role {
    System,
    User,
    Assistant,
    Tool,
}

/// How much a session does by itself.
#[derive(Debug, Clone, Copy, PartialEq, Eq, Structural)]
pub enum Mode {
    Plan,
    Act,
    Auto,
}

/// Where a session stands.
#[derive(Debug, PartialEq, Eq)]
pub enum SessionStatus {
    /// It goes on.
    Active,
    /// Anything else, by the name that it is stored under.
    Other(String),
}

impl Clone for SessionStatus {
    fn clone(&self) -> (r: Self)
        ensures
            r == *self,
    {
        match self {
            SessionStatus::Active => SessionStatus::Active,
            SessionStatus::Other(s) => SessionStatus::Other(s.clone()),
        }
    }
}

/// Why a turn stopped without a usable answer.
#[derive(Debug, PartialEq, Eq)]
pub enum StopReason {
    /// The turn was cut off.
    Interrupted,
    /// The turn called too many tools.
    ToolLimit,
    /// The turn was cancelled.
    Cancelled,
    /// Anything else, by the name that it is stored under.
    Other(String),
}

impl Clone for StopReason {
    fn clone(&self) -> (r: Self)
        ensures
            r == *self,
    {
        match self {
            StopReason::Interrupted => StopReason::Interrupted,
            StopReason::ToolLimit => StopReason::ToolLimit,
            StopReason::Cancelled => StopReason::Cancelled,
            StopReason::Other(s) => StopReason::Other(s.clone()),
        }
    }
}

/// The model that a session runs on.
#[derive(Debug, PartialEq, Eq)]
pub struct ModelSelection {
    pub connection: String,
    pub model: String,
}

impl Clone for ModelSelection {
    fn clone(&self) -> (r: Self)
        ensures
            r == *self,
    {
        ModelSelection { connection: self.connection.clone(), model: self.model.clone() }
    }
}

/// A tool that a message calls.
#[derive(Debug, PartialEq, Eq)]
pub struct ToolCall {
    pub id: String,
    pub name: String,
    /// The arguments, as JSON.
    pub arguments: String,
}

impl Clone for ToolCall {
    fn clone(&self) -> (r: Self)
        ensures
            r == *self,
    {
        ToolCall {
            id: self.id.clone(),
            name: self.name.clone(),
            arguments: self.arguments.clone(),
        }
    }
}

/// What is attached to a message.
#[derive(Debug, Clone, Copy, PartialEq, Eq, Structural)]
pub enum AttachmentKind {
    Image,
    Document,
}

/// Where an attachment is.
#[derive(Debug, PartialEq, Eq)]
pub enum AttachmentSource {
    /// In the file at that path.
    Path(String),
    /// In that text, as base64.
    Inline(String),
}

impl Clone for AttachmentSource {
    fn clone(&self) -> (r: Self)
        ensures
            r == *self,
    {
        match self {
            AttachmentSource::Path(p) => AttachmentSource::Path(p.clone()),
            AttachmentSource::Inline(s) => AttachmentSource::Inline(s.clone()),
        }
    }
}

/// Something attached to a message.
#[derive(Debug, PartialEq, Eq)]
pub struct Attachment {
    pub kind: AttachmentKind,
    pub media_type: String,
    pub source: AttachmentSource,
    pub name: Option<String>,
    pub bytes: u64,
}

impl Clone for Attachment {
    fn clone(&self) -> (r: Self)
        ensures
            r == *self,
    {
        Attachment {
            kind: self.kind,
            media_type: self.media_type.clone(),
            source: self.source.clone(),
            name: copy_opt(&self.name),
            bytes: self.bytes,
        }
    }
}

/// A session.
#[derive(Debug, PartialEq, Eq)]
pub struct Session {
    pub id: String,
    pub goal: Option<String>,
    pub title: Option<String>,
    pub summary: Option<String>,
    pub status: SessionStatus,
    /// In milliseconds since 1970.
    pub created_at: i64,
    /// In milliseconds since 1970.
    pub updated_at: i64,
    pub phenotype: Option<String>,
    pub mode: Option<Mode>,
    pub workspace: Option<String>,
    pub model: Option<ModelSelection>,
    /// The tool servers of the session, as a JSON array.
    pub mcp_servers: Option<String>,
    /// The session that this one was copied from.
    pub parent_session_id: Option<String>,
    /// The place of the last message that was copied.
    pub fork_point_seq: Option<i64>,
}

/// A copy of an optional model selection.
fn copy_model(m: &Option<ModelSelection>) -> (r: Option<ModelSelection>)
    ensures
        r == *m,
{
    match m {
        Some(s) => Some(s.clone()),
        None => None,
    }
}

impl Clone for Session {
    fn clone(&self) -> (r: Self)
        ensures
            r == *self,
    {
        Session {
            id: self.id.clone(),
            goal: copy_opt(&self.goal),
            title: copy_opt(&self.title),
            summary: copy_opt(&self.summary),
            status: self.status.clone(),
            created_at: self.created_at,
            updated_at: self.updated_at,
            phenotype: copy_opt(&self.phenotype),
            mode: self.mode,
            workspace: copy_opt(&self.workspace),
            model: copy_model(&self.model),
            mcp_servers: copy_opt(&self.mcp_servers),
            parent_session_id: copy_opt(&self.parent_session_id),
            fork_point_seq: self.fork_point_seq,
        }
    }
}

/// A message of a transcript.
#[derive(Debug, PartialEq, Eq)]
pub struct Message {
    pub id: String,
    pub session_id: String,
    pub role: Role,
    pub content: String,
    pub tool_calls: Option<Vec<ToolCall>>,
    /// The call that this message is the result of.
    pub tool_call_id: Option<String>,
    pub attachments: Option<Vec<Attachment>>,
    pub reasoning: Option<String>,
    pub stop_reason: Option<StopReason>,
    pub author_name: Option<String>,
    /// In milliseconds since 1970.
    pub created_at: i64,
}

/// What a message holds.
pub struct MessageView {
    pub id: Seq<char>,
    pub session_id: Seq<char>,
    pub role: Role,
    pub content: Seq<char>,
    pub tool_calls: Option<Seq<ToolCall>>,
    pub tool_call_id: Option<Seq<char>>,
    pub attachments: Option<Seq<Attachment>>,
    pub reasoning: Option<Seq<char>>,
    pub stop_reason: Option<StopReason>,
    pub author_name: Option<Seq<char>>,
    pub created_at: i64,
}

/// An optional list, seen as a sequence.
pub open spec fn opt_seq<A>(v: Option<Vec<A>>) -> Option<Seq<A>> {
    match v {
        Some(x) => Some(x@),
        None => None,
    }
}

impl View for Message {
    type V = MessageView;

    open spec fn view(&self) -> MessageView {
        MessageView {
            id: self.id@,
            session_id: self.session_id@,
            role: self.role,
            content: self.content@,
            tool_calls: opt_seq(self.tool_calls),
            tool_call_id: text::opt_view(self.tool_call_id),
            attachments: opt_seq(self.attachments),
            reasoning: text::opt_view(self.reasoning),
            stop_reason: self.stop_reason,
            author_name: text::opt_view(self.author_name),
            created_at: self.created_at,
        }
    }
}

/// A copy of optional tool calls.
fn copy_calls(v: &Option<Vec<ToolCall>>) -> (r: Option<Vec<ToolCall>>)
    ensures
        opt_seq(r) == opt_seq(*v),
{
    match v {
        None => None,
        Some(calls) => {
            let mut out: Vec<ToolCall> = Vec::new();
            let mut i: usize = 0;
            while i < calls.len()
                invariant
                    i <= calls@.len(),
                    out@ == calls@.take(i as int),
                decreases calls@.len() - i,
            {
                out.push(calls[i].clone());
                i = i + 1;
                assert(out@ =~= calls@.take(i as int));
            }
            assert(calls@.take(i as int) =~= calls@);
            Some(out)
        },
    }
}

/// A copy of optional attachments.
fn copy_attachments(v: &Option<Vec<Attachment>>) -> (r: Option<Vec<Attachment>>)
    ensures
        opt_seq(r) == opt_seq(*v),
{
    match v {
        None => None,
        Some(list) => {
            let mut out: Vec<Attachment> = Vec::new();
            let mut i: usize = 0;
            while i < list.len()
                invariant
                    i <= list@.len(),
                    out@ == list@.take(i as int),
                decreases list@.len() - i,
            {
                out.push(list[i].clone());
                i = i + 1;
                assert(out@ =~= list@.take(i as int));
            }
            assert(list@.take(i as int) =~= list@);
            Some(out)
        },
    }
}

impl Clone for Message {
    fn clone(&self) -> (r: Self)
        ensures
            r@ == self@,
    {
        Message {
            id: self.id.clone(),
            session_id: self.session_id.clone(),
            role: self.role,
            content: self.content.clone(),
            tool_calls: copy_calls(&self.tool_calls),
            tool_call_id: copy_opt(&self.tool_call_id),
            attachments: copy_attachments(&self.attachments),
            reasoning: copy_opt(&self.reasoning),
            stop_reason: match &self.stop_reason {
                Some(s) => Some(s.clone()),
                None => None,
            },
            author_name: copy_opt(&self.author_name),
            created_at: self.created_at,
        }
    }
}

} // verus!
