//! A session and its transcript as Markdown, to be read in a viewer.
use vstd::prelude::*;
use vstd::string::*;
use crate::number;
use crate::session::store;
use crate::session::store::SessionStore;
use crate::session::transcript;
use crate::session::types::{Message, MessageView, Mode, Role, Session, ToolCall};
use crate::text;

verus! {

/// The most characters of tool output that are shown without folding them.
pub const TOOL_OUTPUT_FOLD_THRESHOLD: usize = 600;

/// A time of milliseconds since 1970, to the minute and in universal time;
/// `None` where it lies outside the calendar.
pub uninterp spec fn utc_minute(ms: int) -> Option<Seq<char>>;

/// Writes a time by `chrono::DateTime::from_timestamp_millis` and `format`, which
/// depend on the time alone.
#[verifier::external_body]
fn utc_minute_text(ms: i64) -> (r: Option<String>)
    ensures
        text::opt_view(r) == utc_minute(ms as int),
{
    chrono::DateTime::from_timestamp_millis(ms).map(
        |at| at.format("%Y-%m-%d %H:%M UTC").to_string(),
    )
}

/// A time as it is shown: to the minute, or as it is given where it lies outside
/// the calendar.
pub open spec fn time_text(ms: int) -> Seq<char> {
    match utc_minute(ms) {
        Some(t) => t,
        None => number::int_text(ms),
    }
}

/// A time as it is shown.
fn fmt_ts(ms: i64) -> (r: String)
    ensures
        r@ == time_text(ms as int),
{
    match utc_minute_text(ms) {
        Some(t) => t,
        None => number::i64_text(ms),
    }
}

/// The name of a mode.
pub open spec fn mode_name(mode: Mode) -> Seq<char> {
    match mode {
        Mode::Plan => "Plan"@,
        Mode::Act => "Act"@,
        Mode::Auto => "Auto"@,
    }
}

/// The name of a mode.
fn mode_label(mode: Mode) -> (r: &'static str)
    ensures
        r@ == mode_name(mode),
{
    match mode {
        Mode::Plan => "Plan",
        Mode::Act => "Act",
        Mode::Auto => "Auto",
    }
}

/// A line with a field of the session, where it is set.
pub open spec fn field_line(label: Seq<char>, value: Option<Seq<char>>) -> Seq<char> {
    match value {
        Some(v) => label + v + "\n"@,
        None => Seq::empty(),
    }
}

/// What stands above the transcript.
pub open spec fn header(s: Session) -> Seq<char> {
    "# "@ + (match s.title {
        Some(t) => t@,
        None => "Untitled session"@,
    }) + "\n\n"@ + "- **Created:** "@ + time_text(s.created_at as int) + "\n"@
        + "- **Updated:** "@ + time_text(s.updated_at as int) + "\n"@ + field_line(
        "- **Goal:** "@,
        text::opt_view(s.goal),
    ) + field_line("- **Phenotype:** "@, text::opt_view(s.phenotype)) + field_line(
        "- **Mode:** "@,
        match s.mode {
            Some(m) => Some(mode_name(m)),
            None => None,
        },
    ) + "\n"@
}

/// The heading of a message.
pub open spec fn heading(role: Role) -> Seq<char> {
    match role {
        Role::System => Seq::empty(),
        Role::User => "## You"@,
        Role::Assistant => "## Assistant"@,
        Role::Tool => "## Tool"@,
    }
}

/// The reasoning of an assistant's message, folded.
pub open spec fn thought(m: MessageView) -> Seq<char> {
    if m.role == Role::Assistant && m.reasoning is Some && !text::blank(m.reasoning->0) {
        "<details><summary>Thought</summary>\n\n"@ + text::trim(m.reasoning->0) + "\n\n"@
            + "</details>\n\n"@
    } else {
        Seq::empty()
    }
}

/// The text of a message; tool output that is too long is folded.
pub open spec fn body(m: MessageView) -> Seq<char> {
    let content = text::trim_end(m.content);
    if content.len() == 0 {
        Seq::empty()
    } else if m.role == Role::Tool && content.len() > TOOL_OUTPUT_FOLD_THRESHOLD {
        "<details><summary>Tool output ("@ + number::decimal(content.len()) + " chars)</summary>\n\n"@
            + "```\n"@ + content + "\n```\n\n"@ + "</details>\n\n"@
    } else {
        content + "\n\n"@
    }
}

/// The first `n` tool calls of a message.
pub open spec fn calls_text(calls: Seq<ToolCall>, n: int) -> Seq<char>
    decreases n,
{
    if n <= 0 {
        Seq::empty()
    } else {
        calls_text(calls, n - 1) + "**Tool call:** "@ + calls[n - 1].name@ + "("@ + calls[n
            - 1].arguments@ + ")\n\n"@
    }
}

/// The tool calls of a message.
pub open spec fn calls_of(m: MessageView) -> Seq<char> {
    match m.tool_calls {
        Some(calls) => calls_text(calls, calls.len() as int),
        None => Seq::empty(),
    }
}

/// A message as it is exported. A system message is left out.
pub open spec fn message_text(m: MessageView) -> Seq<char> {
    if m.role == Role::System {
        Seq::empty()
    } else {
        heading(m.role) + "\n\n"@ + thought(m) + body(m) + calls_of(m)
    }
}

/// The first `n` messages as they are exported.
pub open spec fn messages_text(v: Seq<MessageView>, n: int) -> Seq<char>
    decreases n,
{
    if n <= 0 {
        Seq::empty()
    } else {
        messages_text(v, n - 1) + message_text(v[n - 1])
    }
}

/// A session and its transcript as Markdown.
pub open spec fn exported(s: Session, v: Seq<MessageView>) -> Seq<char> {
    header(s) + messages_text(v, v.len() as int)
}

/// A line with a field of the session, where it is set.
fn add_field(out: &mut String, label: &str, value: Option<&str>)
    ensures
        final(out)@ == old(out)@ + field_line(
            label@,
            match value {
                Some(v) => Some(v@),
                None => None,
            },
        ),
{
    let ghost before = out@;
    match value {
        Some(v) => {
            out.append(label);
            out.append(v);
            out.append("\n");
            assert(out@ =~= before + (label@ + v@ + "\n"@));
        },
        None => {
            assert(out@ =~= before + Seq::<char>::empty());
        },
    }
}

/// What stands above the transcript.
fn header_text(s: &Session) -> (r: String)
    ensures
        r@ == header(*s),
{
    let mut out: String = "# ".to_owned();
    match &s.title {
        Some(t) => out.append(t.as_str()),
        None => out.append("Untitled session"),
    }
    out.append("\n\n");
    let created: String = fmt_ts(s.created_at);
    out.append("- **Created:** ");
    out.append(created.as_str());
    out.append("\n");
    let updated: String = fmt_ts(s.updated_at);
    out.append("- **Updated:** ");
    out.append(updated.as_str());
    out.append("\n");
    let goal: Option<&str> = match &s.goal {
        Some(g) => Some(g.as_str()),
        None => None,
    };
    add_field(&mut out, "- **Goal:** ", goal);
    let phenotype: Option<&str> = match &s.phenotype {
        Some(p) => Some(p.as_str()),
        None => None,
    };
    add_field(&mut out, "- **Phenotype:** ", phenotype);
    let mode: Option<&str> = match s.mode {
        Some(m) => Some(mode_label(m)),
        None => None,
    };
    add_field(&mut out, "- **Mode:** ", mode);
    out.append("\n");
    assert(out@ =~= header(*s));
    out
}

/// A message as it is exported.
fn message_markdown(m: &Message) -> (r: String)
    ensures
        r@ == message_text(m@),
{
    let mut out = String::new();
    match m.role {
        Role::System => {
            assert(out@ =~= message_text(m@));
            return out;
        },
        Role::User => out.append("## You"),
        Role::Assistant => out.append("## Assistant"),
        Role::Tool => out.append("## Tool"),
    }
    out.append("\n\n");
    assert(out@ =~= heading(m.role) + "\n\n"@);
    let ghost start = out@;
    if m.role == Role::Assistant {
        if let Some(reasoning) = &m.reasoning {
            if !text::is_blank(reasoning.as_str()) {
                let t: String = text::trim_text(reasoning.as_str());
                out.append("<details><summary>Thought</summary>\n\n");
                out.append(t.as_str());
                out.append("\n\n");
                out.append("</details>\n\n");
            }
        }
    }
    assert(out@ =~= start + thought(m@));
    let ghost thinking = out@;
    let content: String = text::trim_end_text(m.content.as_str());
    let chars: Vec<char> = text::chars_of(content.as_str());
    if chars.len() > 0 {
        if m.role == Role::Tool && chars.len() > TOOL_OUTPUT_FOLD_THRESHOLD {
            let n: String = number::u64_text(chars.len() as u64);
            out.append("<details><summary>Tool output (");
            out.append(n.as_str());
            out.append(" chars)</summary>\n\n");
            out.append("```\n");
            out.append(content.as_str());
            out.append("\n```\n\n");
            out.append("</details>\n\n");
        } else {
            out.append(content.as_str());
            out.append("\n\n");
        }
    }
    assert(out@ =~= thinking + body(m@));
    let ghost told = out@;
    if let Some(calls) = &m.tool_calls {
        let mut i: usize = 0;
        assert(out@ =~= told + calls_text(calls@, 0));
        while i < calls.len()
            invariant
                i <= calls@.len(),
                out@ == told + calls_text(calls@, i as int),
            decreases calls@.len() - i,
        {
            let ghost before = calls_text(calls@, i as int);
            out.append("**Tool call:** ");
            out.append(calls[i].name.as_str());
            out.append("(");
            out.append(calls[i].arguments.as_str());
            out.append(")\n\n");
            i = i + 1;
            assert(out@ =~= told + calls_text(calls@, i as int));
        }
    }
    assert(out@ =~= told + calls_of(m@));
    assert(out@ =~= message_text(m@));
    out
}

/// A session and its transcript as Markdown.
pub fn export_markdown(session: &Session, messages: &Vec<Message>) -> (r: String)
    ensures
        r@ == exported(*session, transcript::message_views(messages@)),
{
    let ghost v = transcript::message_views(messages@);
    let mut out: String = header_text(session);
    let ghost top = out@;
    let mut i: usize = 0;
    assert(out@ =~= top + messages_text(v, 0));
    while i < messages.len()
        invariant
            i <= messages@.len(),
            v == transcript::message_views(messages@),
            out@ == top + messages_text(v, i as int),
        decreases messages@.len() - i,
    {
        let t: String = message_markdown(&messages[i]);
        out.append(t.as_str());
        proof {
            assert(v[i as int] == messages@[i as int]@);
        }
        i = i + 1;
        assert(out@ =~= top + messages_text(v, i as int));
    }
    out
}

impl SessionStore {
    /// A session, a draft included, and its transcript as Markdown.
    pub fn export_session(&self, session_id: &str) -> (r: Option<String>)
        requires
            self.wf(),
        ensures
            text::opt_view(r) == if store::has_session(self.sessions@, session_id@) {
                Some(
                    exported(
                        store::session_of(self.sessions@, session_id@),
                        transcript::messages(transcript::transcript(self.rows(), session_id@)),
                    ),
                )
            } else if store::has_session(self.pending@, session_id@) {
                Some(
                    exported(
                        store::session_of(self.pending@, session_id@),
                        transcript::messages(transcript::transcript(self.rows(), session_id@)),
                    ),
                )
            } else {
                None
            },
    {
        match self.get_session(session_id) {
            Some(s) => {
                let messages: Vec<Message> = self.get_messages(session_id);
                Some(export_markdown(&s, &messages))
            },
            None => None,
        }
    }
}

/// A system message leaves no trace in the export.
pub proof fn law_system_messages_are_left_out(v: Seq<MessageView>, n: int)
    requires
        0 < n <= v.len(),
        v[n - 1].role == Role::System,
    ensures
        messages_text(v, n) == messages_text(v, n - 1),
{
    assert(messages_text(v, n) =~= messages_text(v, n - 1));
}

/// Folding tool output drops none of it: its text stands in the export whole.
pub proof fn law_folded_output_is_whole(m: MessageView)
    requires
        m.role == Role::Tool,
        text::trim_end(m.content).len() > 0,
    ensures
        text::contains_text(message_text(m), text::trim_end(m.content)),
{
    let content = text::trim_end(m.content);
    let t = message_text(m);
    let folded = content.len() > TOOL_OUTPUT_FOLD_THRESHOLD;
    let lead = if folded {
        heading(m.role) + "\n\n"@ + thought(m) + ("<details><summary>Tool output ("@
            + number::decimal(content.len()) + " chars)</summary>\n\n"@ + "```\n"@)
    } else {
        heading(m.role) + "\n\n"@ + thought(m)
    };
    let rest = if folded {
        "\n```\n\n"@ + "</details>\n\n"@ + calls_of(m)
    } else {
        "\n\n"@ + calls_of(m)
    };
    assert(t =~= lead + content + rest);
    assert(t.subrange(lead.len() as int, (lead.len() + content.len()) as int) =~= content);
    assert(text::stands_at(t, content, lead.len() as int));
}

} // verus!
