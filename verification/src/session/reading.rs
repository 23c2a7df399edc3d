//! What an exported session shows, in terms of the session and its messages.
use vstd::prelude::*;
use vstd::string::*;
use crate::number;
use crate::session::export;
use crate::session::types::{MessageView, Mode, Role, Session, ToolCall};
use crate::text;

verus! {

/// The text of a message, or nothing where it is blank.
pub open spec fn told(m: MessageView) -> Seq<char> {
    let content = text::trim_end(m.content);
    if content.len() == 0 {
        Seq::empty()
    } else {
        content + "\n\n"@
    }
}

/// A message is exported as its heading, the reasoning of an assistant, its text and
/// its tool calls. The text is whole, whoever it is of; the output of a tool that is
/// over six hundred characters long is folded away with its length, and is whole too.
pub proof fn law_a_message_is_exported_whole(m: MessageView)
    ensures
        ({
            let t = export::message_text(m);
            let content = text::trim_end(m.content);
            let thinks = m.reasoning is Some && !text::blank(m.reasoning->0);
            let folded = "<details><summary>Tool output ("@ + number::decimal(content.len())
                + " chars)</summary>\n\n"@ + "```\n"@ + content + "\n```\n\n"@ + "</details>\n\n"@;
            &&& m.role == Role::System ==> t.len() == 0
            &&& m.role == Role::User ==> t == "## You"@ + "\n\n"@ + told(m) + export::calls_of(m)
            &&& m.role == Role::Assistant && !thinks ==> t == "## Assistant"@ + "\n\n"@ + told(m)
                + export::calls_of(m)
            &&& m.role == Role::Assistant && thinks ==> t == "## Assistant"@ + "\n\n"@
                + "<details><summary>Thought</summary>\n\n"@ + text::trim(m.reasoning->0)
                + "\n\n"@ + "</details>\n\n"@ + told(m) + export::calls_of(m)
            &&& m.role == Role::Tool && content.len() <= 600 ==> t == "## Tool"@ + "\n\n"@ + told(
                m,
            ) + export::calls_of(m)
            &&& m.role == Role::Tool && content.len() > 600 ==> t == "## Tool"@ + "\n\n"@ + folded
                + export::calls_of(m)
        }),
{
    let t = export::message_text(m);
    let content = text::trim_end(m.content);
    let calls = export::calls_of(m);
    let none = Seq::<char>::empty();
    if m.role == Role::User {
        assert(t =~= "## You"@ + "\n\n"@ + told(m) + calls);
    } else if m.role == Role::Assistant {
        if m.reasoning is Some && !text::blank(m.reasoning->0) {
            assert(t =~= "## Assistant"@ + "\n\n"@ + "<details><summary>Thought</summary>\n\n"@
                + text::trim(m.reasoning->0) + "\n\n"@ + "</details>\n\n"@ + told(m) + calls);
        } else {
            assert(t =~= "## Assistant"@ + "\n\n"@ + told(m) + calls);
        }
    } else if m.role == Role::Tool {
        if content.len() <= 600 {
            assert(t =~= "## Tool"@ + "\n\n"@ + told(m) + calls);
        } else {
            let folded = "<details><summary>Tool output ("@ + number::decimal(content.len())
                + " chars)</summary>\n\n"@ + "```\n"@ + content + "\n```\n\n"@ + "</details>\n\n"@;
            assert(t =~= "## Tool"@ + "\n\n"@ + folded + calls);
        }
    }
}

/// The text of every message that is not the system's stands in the export of the
/// message, behind its heading.
pub proof fn law_the_text_of_a_message_is_in_its_export(m: MessageView)
    requires
        m.role != Role::System,
        text::trim_end(m.content).len() > 0,
    ensures
        exists|i: int|
            i >= export::heading(m.role).len() && #[trigger] text::stands_at(
                export::message_text(m),
                text::trim_end(m.content),
                i,
            ),
        export::heading(m.role).len() > 0,
        export::heading(m.role).is_prefix_of(export::message_text(m)),
{
    law_a_message_is_exported_whole(m);
    reveal_strlit("## You");
    reveal_strlit("## Assistant");
    reveal_strlit("## Tool");
    let t = export::message_text(m);
    let content = text::trim_end(m.content);
    let calls = export::calls_of(m);
    let head = export::heading(m.role);
    let thinks = m.reasoning is Some && !text::blank(m.reasoning->0);
    let lead = if m.role == Role::Assistant && thinks {
        head + "\n\n"@ + "<details><summary>Thought</summary>\n\n"@ + text::trim(m.reasoning->0)
            + "\n\n"@ + "</details>\n\n"@
    } else if m.role == Role::Tool && content.len() > 600 {
        head + "\n\n"@ + ("<details><summary>Tool output ("@ + number::decimal(content.len())
            + " chars)</summary>\n\n"@ + "```\n"@)
    } else {
        head + "\n\n"@
    };
    let rest = if m.role == Role::Tool && content.len() > 600 {
        "\n```\n\n"@ + "</details>\n\n"@ + calls
    } else {
        "\n\n"@ + calls
    };
    assert(t =~= lead + content + rest);
    let n = lead.len() as int;
    assert(t.subrange(n, n + content.len()) =~= content);
    assert(text::stands_at(t, content, n));
    assert(t.take(head.len() as int) =~= head);
}

/// Every tool call of a message is exported, in order, by its name and its arguments.
pub proof fn law_every_tool_call_is_exported(calls: Seq<ToolCall>, more: ToolCall)
    ensures
        export::calls_text(calls, 0).len() == 0,
        export::calls_text(calls.push(more), calls.len() as int + 1) == export::calls_text(
            calls,
            calls.len() as int,
        ) + "**Tool call:** "@ + more.name@ + "("@ + more.arguments@ + ")\n\n"@,
{
    lemma_calls_before(calls, more, calls.len() as int);
}

proof fn lemma_calls_before(calls: Seq<ToolCall>, more: ToolCall, n: int)
    requires
        0 <= n <= calls.len(),
    ensures
        export::calls_text(calls.push(more), n) == export::calls_text(calls, n),
    decreases n,
{
    if n > 0 {
        lemma_calls_before(calls, more, n - 1);
        assert(calls.push(more)[n - 1] == calls[n - 1]);
    }
}

/// The calls of a message are those that it has.
pub proof fn law_the_calls_of_a_message_are_exported(m: MessageView)
    ensures
        m.tool_calls is None ==> export::calls_of(m).len() == 0,
        m.tool_calls is Some ==> export::calls_of(m) == export::calls_text(
            m.tool_calls->0,
            m.tool_calls->0.len() as int,
        ),
{
}

/// An export is the header of the session and then its messages, each in its turn: one
/// more message adds its own text at the end and changes nothing before it.
pub proof fn law_messages_are_exported_in_turn(s: Session, v: Seq<MessageView>, m: MessageView)
    ensures
        export::exported(s, Seq::empty()) == export::header(s),
        export::exported(s, v.push(m)) == export::exported(s, v) + export::message_text(m),
{
    assert(export::exported(s, Seq::empty()) =~= export::header(s));
    lemma_messages_before(v, m, v.len() as int);
    assert(v.push(m)[v.len() as int] == m);
    assert(export::exported(s, v.push(m)) =~= export::exported(s, v) + export::message_text(m));
}

proof fn lemma_messages_before(v: Seq<MessageView>, m: MessageView, n: int)
    requires
        0 <= n <= v.len(),
    ensures
        export::messages_text(v.push(m), n) == export::messages_text(v, n),
    decreases n,
{
    if n > 0 {
        lemma_messages_before(v, m, n - 1);
        assert(v.push(m)[n - 1] == v[n - 1]);
    }
}

/// The export of a session holds the text of each of its messages but the system's,
/// and the text of an earlier message ahead of that of a later one.
pub proof fn law_the_export_holds_every_message_in_order(
    s: Session,
    v: Seq<MessageView>,
    i: int,
    j: int,
)
    requires
        0 <= i < j < v.len(),
        v[i].role != Role::System,
        v[j].role != Role::System,
        text::trim_end(v[i].content).len() > 0,
        text::trim_end(v[j].content).len() > 0,
    ensures
        exists|a: int, b: int|
            a + text::trim_end(v[i].content).len() <= b && #[trigger] text::stands_at(
                export::exported(s, v),
                text::trim_end(v[i].content),
                a,
            ) && #[trigger] text::stands_at(
                export::exported(s, v),
                text::trim_end(v[j].content),
                b,
            ),
{
    let out = export::exported(s, v);
    let top = export::header(s).len() as int;
    let (c, d) = (text::trim_end(v[i].content), text::trim_end(v[j].content));
    let (p, q) = (export::messages_text(v, i), export::messages_text(v, j));
    lemma_messages_part(v, i, v.len() as int);
    lemma_messages_part(v, j, v.len() as int);
    lemma_messages_part(v, i, j);
    law_the_text_of_a_message_is_in_its_export(v[i]);
    law_the_text_of_a_message_is_in_its_export(v[j]);
    let x = choose|x: int|
        x >= export::heading(v[i].role).len() && #[trigger] text::stands_at(
            export::message_text(v[i]),
            c,
            x,
        );
    let y = choose|y: int|
        y >= export::heading(v[j].role).len() && #[trigger] text::stands_at(
            export::message_text(v[j]),
            d,
            y,
        );
    lemma_stands_within(out, export::message_text(v[i]), top + p.len(), c, x);
    lemma_stands_within(out, export::message_text(v[j]), top + q.len(), d, y);
    let (a, b) = (top + p.len() + x, top + q.len() + y);
    assert(text::stands_at(out, c, a) && text::stands_at(out, d, b));
}

/// The text of a message lies between those of the messages before and after it.
proof fn lemma_messages_part(v: Seq<MessageView>, i: int, n: int)
    requires
        0 <= i < n <= v.len(),
    ensures
        ({
            let t = export::messages_text(v, n);
            let p = export::messages_text(v, i).len() as int;
            let m = export::message_text(v[i]);
            p + m.len() <= t.len() && t.subrange(p, p + m.len()) == m
        }),
    decreases n,
{
    let t = export::messages_text(v, n);
    let p = export::messages_text(v, i).len() as int;
    let m = export::message_text(v[i]);
    if i < n - 1 {
        lemma_messages_part(v, i, n - 1);
        let before = export::messages_text(v, n - 1);
        assert(t.subrange(p, p + m.len()) =~= before.subrange(p, p + m.len()));
    } else {
        assert(t.subrange(p, p + m.len()) =~= m);
    }
}

proof fn lemma_stands_within(out: Seq<char>, part: Seq<char>, at: int, c: Seq<char>, x: int)
    requires
        exists|head: Seq<char>, body: Seq<char>| #[trigger]
            (head + body) == out && at >= head.len() && at - head.len() + part.len() <= body.len()
                && body.subrange(at - head.len(), at - head.len() + part.len()) == part,
        text::stands_at(part, c, x),
    ensures
        text::stands_at(out, c, at + x),
{
    let (head, body) = choose|head: Seq<char>, body: Seq<char>| #[trigger]
        (head + body) == out && at >= head.len() && at - head.len() + part.len() <= body.len()
            && body.subrange(at - head.len(), at - head.len() + part.len()) == part;
    assert(out.subrange(at, at + part.len()) =~= part);
    assert(out.subrange(at + x, at + x + c.len()) =~= part.subrange(x, x + c.len()));
}

/// The header shows the title of the session, when it was made and last changed, and
/// its goal, its phenotype and its mode where it has them.
pub proof fn law_the_header_shows_the_session(s: Session)
    ensures
        ({
            let title = if s.title is Some {
                s.title->0@
            } else {
                "Untitled session"@
            };
            let goal = if s.goal is Some {
                "- **Goal:** "@ + s.goal->0@ + "\n"@
            } else {
                Seq::empty()
            };
            let phenotype = if s.phenotype is Some {
                "- **Phenotype:** "@ + s.phenotype->0@ + "\n"@
            } else {
                Seq::empty()
            };
            let mode = match s.mode {
                Some(Mode::Plan) => "- **Mode:** "@ + "Plan"@ + "\n"@,
                Some(Mode::Act) => "- **Mode:** "@ + "Act"@ + "\n"@,
                Some(Mode::Auto) => "- **Mode:** "@ + "Auto"@ + "\n"@,
                None => Seq::empty(),
            };
            export::header(s) == "# "@ + title + "\n\n"@ + "- **Created:** "@ + export::time_text(
                s.created_at as int,
            ) + "\n"@ + "- **Updated:** "@ + export::time_text(s.updated_at as int) + "\n"@ + goal
                + phenotype + mode + "\n"@
        }),
{
}

/// A time is shown to the minute where the calendar has it, and else as its number.
pub proof fn law_a_time_is_shown_to_the_minute(ms: int)
    ensures
        export::utc_minute(ms) is Some ==> export::time_text(ms) == export::utc_minute(ms)->0,
        export::utc_minute(ms) is None && ms >= 0 ==> export::time_text(ms) == number::decimal(
            ms as nat,
        ),
        export::utc_minute(ms) is None && ms < 0 ==> export::time_text(ms) == seq!['-']
            + number::decimal((-ms) as nat),
{
}

} // verus!
