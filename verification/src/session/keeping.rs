//! What becomes of sessions and their messages as they are written, changed, copied
//! and deleted, in terms of the tables before and after.
use vstd::prelude::*;
use vstd::string::*;
use crate::seqs;
use crate::session::compaction;
use crate::session::history;
use crate::session::search;
use crate::session::store;
use crate::session::store::{OriginalView, PreheatView, RowView, SessionStore};
use crate::session::transcript;
use crate::session::types::{MessageView, Role, Session, SessionStatus, StopReason};
use crate::text;
use crate::text::CharClass;

verus! {

// ---------------------------------------------------------------------------
// Sessions
// ---------------------------------------------------------------------------

/// A new session has its id and its goal, was made and changed now, goes on, and is
/// bound to nothing yet.
pub proof fn law_a_new_session_has_its_goal_and_nothing_else(
    id: String,
    goal: Option<String>,
    now_ms: i64,
)
    ensures
        ({
            let s = store::fresh_session(id, goal, now_ms);
            &&& s.id == id && s.goal == goal
            &&& s.created_at == now_ms && s.updated_at == now_ms
            &&& s.status == SessionStatus::Active
            &&& s.title is None && s.summary is None && s.phenotype is None && s.mode is None
            &&& s.workspace is None && s.model is None && s.mcp_servers is None
            &&& s.parent_session_id is None && s.fork_point_seq is None
        }),
{
}

/// A change to a session is made to it and to no other, and to none where no session
/// has the id.
pub proof fn law_a_change_is_made_to_its_session_alone(
    s: Seq<Session>,
    id: Seq<char>,
    f: spec_fn(Session) -> Session,
    i: int,
)
    requires
        store::distinct_ids(s),
        0 <= i < s.len(),
    ensures
        store::changed(s, id, f).len() == s.len(),
        s[i].id@ == id ==> store::changed(s, id, f)[i] == f(s[i]),
        s[i].id@ != id ==> store::changed(s, id, f)[i] == s[i],
{
    if s[i].id@ == id {
        store::lemma_session_place(s, i);
    }
}

/// A draft is written behind the sessions as it is, and is a draft no more; other
/// drafts stay drafts.
pub proof fn law_a_draft_is_written_as_it_is(
    s: Seq<Session>,
    pending: Seq<Session>,
    i: int,
    j: int,
)
    requires
        store::distinct_ids(pending),
        0 <= i < pending.len(),
        0 <= j < pending.len(),
        i != j,
    ensures
        ({
            let id = pending[i].id@;
            &&& store::with_draft(s, pending, id) == s.push(pending[i])
            &&& !store::has_session(store::without_draft(pending, id), id)
            &&& store::without_draft(pending, id).contains(pending[j])
        }),
{
    let id = pending[i].id@;
    store::lemma_session_place(pending, i);
    let left = store::without_draft(pending, id);
    if store::has_session(left, id) {
        let k = store::session_place(left, id);
        let m = if k < i {
            k
        } else {
            k + 1
        };
        assert(left[k] == pending[m]);
        if m < i {
            assert(pending[m].id@ != pending[i].id@);
        } else {
            assert(pending[i].id@ != pending[m].id@);
        }
    }
    if j < i {
        assert(left[j] == pending[j]);
    } else {
        assert(left[j - 1] == pending[j]);
    }
}

/// Where there is no draft of an id, nothing is written and no draft goes.
pub proof fn law_without_a_draft_nothing_is_written(
    s: Seq<Session>,
    pending: Seq<Session>,
    id: Seq<char>,
)
    requires
        forall|i: int| 0 <= i < pending.len() ==> (#[trigger] pending[i]).id@ != id,
    ensures
        store::with_draft(s, pending, id) == s,
        store::without_draft(pending, id) == pending,
{
}

/// A copy takes all that its source is bound to, with a title that says that it is
/// one, and names the source and the last place that they share.
pub proof fn law_a_copy_is_bound_like_its_source(
    f: Session,
    source: Session,
    id: String,
    now_ms: i64,
    t: Seq<RowView>,
)
    requires
        history::is_fork(f, source, id, now_ms, t),
    ensures
        f.id == id && f.created_at == now_ms && f.updated_at == now_ms,
        f.goal == source.goal && f.summary == source.summary && f.status == source.status,
        f.phenotype == source.phenotype && f.mode == source.mode,
        f.workspace == source.workspace && f.model == source.model,
        f.mcp_servers == source.mcp_servers,
        source.title is None ==> f.title is None,
        source.title is Some ==> f.title is Some && f.title->0@ == source.title->0@ + " (copy)"@,
        f.parent_session_id == Some(source.id),
        t.len() == 0 ==> f.fork_point_seq is None,
        t.len() > 0 ==> f.fork_point_seq is Some && f.fork_point_seq->0 == t[t.len() - 1].seq,
{
}

/// When a session is deleted every other one stays as it is, but for one that was
/// copied from it, which loses its parent.
pub proof fn law_the_other_sessions_stay_as_they_are(s: Seq<Session>, id: Seq<char>, i: int)
    requires
        0 <= i < s.len(),
        s[i].id@ != id,
    ensures
        !(s[i].parent_session_id is Some && s[i].parent_session_id->0@ == id)
            ==> history::sessions_left(s, id).contains(s[i]),
        s[i].parent_session_id is Some && s[i].parent_session_id->0@ == id
            ==> history::sessions_left(s, id).contains(
            Session { parent_session_id: None, ..s[i] },
        ),
        history::sessions_left(s, id).len() == s.filter(|x: Session| x.id@ != id).len(),
{
    let f = history::other_session(id);
    let own = s.filter(f);
    s.lemma_filter_contains(f, i);
    let k = choose|k: int| 0 <= k < own.len() && own[k] == s[i];
    let left = history::sessions_left(s, id);
    assert(left[k] == history::bereaved(own[k], id));
    assert(f =~= |x: Session| x.id@ != id);
}

// ---------------------------------------------------------------------------
// Messages
// ---------------------------------------------------------------------------

/// A message that is added reads at the end of the transcript of its session as it was
/// given, but for an assistant's author and an empty list of attachments; no other
/// transcript changes.
pub proof fn law_an_added_message_reads_as_it_was_given(
    before: SessionStore,
    after: SessionStore,
    given: MessageView,
    stored: MessageView,
    title: String,
    other: Seq<char>,
)
    requires
        transcript::added(before, after, given, stored, title),
        other != given.session_id,
    ensures
        ({
            let sid = given.session_id;
            let was = transcript::messages(transcript::transcript(before.rows(), sid));
            let now = transcript::messages(transcript::transcript(after.rows(), sid));
            let m = now[was.len() as int];
            &&& now.len() == was.len() + 1
            &&& forall|i: int| 0 <= i < was.len() ==> #[trigger] now[i] == was[i]
            &&& m.id == given.id && m.session_id == given.session_id && m.role == given.role
            &&& m.content == given.content && m.tool_calls == given.tool_calls
            &&& m.tool_call_id == given.tool_call_id && m.reasoning == given.reasoning
            &&& m.stop_reason == given.stop_reason && m.created_at == given.created_at
            &&& given.attachments is None ==> m.attachments is None
            &&& given.attachments is Some && given.attachments->0.len() > 0 ==> m.attachments
                == given.attachments
            &&& given.attachments is Some && given.attachments->0.len() == 0 ==> m.attachments
                is None
            &&& given.author_name is Some || given.role != Role::Assistant ==> m.author_name
                == given.author_name
            &&& transcript::transcript(after.rows(), other) == transcript::transcript(
                before.rows(),
                other,
            )
        }),
{
    let sid = given.session_id;
    let n = before.rows().len() as int;
    let x = RowView {
        seq: transcript::next_seq(before.rows(), sid, n),
        m: transcript::kept(stored),
    };
    transcript::law_appended_message_is_read_last(before.rows(), x, other);
    reveal(Seq::filter);
    assert(before.rows().push(x).drop_last() =~= before.rows());
}

/// An assistant's message that names no author is by the phenotype of its session.
pub proof fn law_an_assistants_message_is_by_the_phenotype(
    m: MessageView,
    phenotype: Option<Seq<char>>,
)
    ensures
        m.role == Role::Assistant && m.author_name is None ==> transcript::authored(
            m,
            phenotype,
        ).author_name == phenotype,
        m.role != Role::Assistant || m.author_name is Some ==> transcript::authored(m, phenotype)
            == m,
{
}

/// A message moves its session up to when it was made, and the first of the user gives
/// it a title where it has none; nothing else of the session changes.
pub proof fn law_a_message_moves_its_session_up(s: Session, at: i64, first: bool, title: String)
    ensures
        ({
            let t = transcript::after_message(s, at, first, title);
            &&& t.updated_at == at
            &&& first && s.title is None ==> t.title == Some(title)
            &&& !first || s.title is Some ==> t.title == s.title
            &&& t == (Session { updated_at: at, title: t.title, ..s })
        }),
{
}

/// The user has spoken just where a message of the session is the user's.
pub proof fn law_the_user_has_spoken_where_a_message_is_theirs(
    r: Seq<RowView>,
    session: Seq<char>,
    n: int,
)
    requires
        0 <= n <= r.len(),
    ensures
        transcript::user_spoke(r, session, n) <==> exists|i: int|
            0 <= i < n && (#[trigger] r[i]).m.session_id == session && r[i].m.role == Role::User,
    decreases n,
{
    if n > 0 {
        law_the_user_has_spoken_where_a_message_is_theirs(r, session, n - 1);
        if r[n - 1].m.session_id == session && r[n - 1].m.role == Role::User {
            assert(r[n - 1].m.role == Role::User);
        }
    }
}

/// The next place of a session lies right behind its last one, and is the first where
/// it has no message.
pub proof fn law_the_next_place_is_behind_the_last(r: Seq<RowView>, session: Seq<char>, n: int)
    requires
        0 <= n <= r.len(),
        forall|i: int| 0 <= i < r.len() ==> (#[trigger] r[i]).seq >= 0,
    ensures
        ({
            let next = transcript::next_seq(r, session, n);
            &&& forall|i: int|
                0 <= i < n && (#[trigger] r[i]).m.session_id == session ==> r[i].seq < next
            &&& next == 0 || exists|i: int|
                0 <= i < n && (#[trigger] r[i]).m.session_id == session && r[i].seq + 1 == next
        }),
    decreases n,
{
    transcript::lemma_next_seq(r, session, n);
    if n > 0 {
        law_the_next_place_is_behind_the_last(r, session, n - 1);
        let next = transcript::next_seq(r, session, n);
        if next == r[n - 1].seq + 1 && r[n - 1].m.session_id == session {
            assert(r[n - 1].seq + 1 == next);
        }
    }
}

/// A message is changed where the session has it, with its place and all others as
/// they were; where the session has none of the id, nothing changes.
pub proof fn law_a_rewritten_message_keeps_its_place(
    r: Seq<RowView>,
    s: Seq<Session>,
    id: Seq<char>,
    session: Seq<char>,
    f: spec_fn(MessageView) -> MessageView,
    i: int,
)
    requires
        store::rows_ok(r, s),
        0 <= i < r.len(),
    ensures
        ({
            let t = transcript::rewritten(r, id, session, f);
            &&& t.len() == r.len()
            &&& t[i].seq == r[i].seq
            &&& r[i].m.id == id && r[i].m.session_id == session ==> t[i].m == f(r[i].m)
            &&& !(r[i].m.id == id && r[i].m.session_id == session) ==> t[i] == r[i]
        }),
{
    if transcript::has_row(r, id, session) {
        let k = choose|k: int|
            0 <= k < r.len() && (#[trigger] r[k]).m.id == id && r[k].m.session_id == session;
        let p = transcript::row_place(r, id);
        assert(0 <= p < r.len() && r[p].m.id == id);
        assert(p == k) by {
            if p < k {
                assert(r[p].m.id != r[k].m.id);
            } else if k < p {
                assert(r[k].m.id != r[p].m.id);
            }
        }
        if i != p && r[i].m.id == id {
            if i < p {
                assert(r[i].m.id != r[p].m.id);
            } else {
                assert(r[p].m.id != r[i].m.id);
            }
        }
    } else if r[i].m.id == id && r[i].m.session_id == session {
        assert(transcript::has_row(r, id, session));
    }
}

/// A message that was reserved for an answer is labelled where the answer never came:
/// an assistant's message of the session without text, tool calls or reasoning. Any
/// other message stays as it is.
pub proof fn law_just_the_answers_that_never_came_are_labelled(
    row: RowView,
    session: Seq<char>,
    notice: Seq<char>,
    now_ms: i64,
)
    ensures
        ({
            let vain = row.m.session_id == session && row.m.role == Role::Assistant
                && row.m.content.len() == 0 && row.m.tool_calls is None && row.m.reasoning is None;
            let t = transcript::reconciled(row, session, notice, now_ms);
            &&& !vain ==> t == row
            &&& vain ==> t.m.content == notice && t.m.created_at == now_ms && t.m.stop_reason
                == Some(StopReason::Interrupted) && t.seq == row.seq && t.m.id == row.m.id
                && t.m.session_id == row.m.session_id && t.m.role == row.m.role
            &&& transcript::orphan_of(session)(row) == vain
        }),
{
}

/// A plain message holds its text and nothing else, and the result of a tool names the
/// call that it is of.
pub proof fn law_a_plain_message_holds_its_text(
    id: Seq<char>,
    session: Seq<char>,
    role: Role,
    call: Seq<char>,
    content: Seq<char>,
    now_ms: i64,
)
    ensures
        ({
            let m = transcript::plain(id, session, role, content, now_ms);
            let t = transcript::tool_result(id, session, call, content, now_ms);
            &&& m.id == id && m.session_id == session && m.role == role && m.content == content
            &&& m.created_at == now_ms && m.tool_calls is None && m.tool_call_id is None
            &&& m.attachments is None && m.reasoning is None && m.stop_reason is None
            &&& m.author_name is None
            &&& t.id == id && t.session_id == session && t.role == Role::Tool
            &&& t.content == content && t.created_at == now_ms && t.tool_call_id == Some(call)
            &&& t.tool_calls is None && t.attachments is None && t.reasoning is None
        }),
{
}

/// A transcript holds the messages of its session, each of them, in the order of the
/// rows, and no other.
pub proof fn law_a_transcript_holds_the_messages_of_its_session(
    r: Seq<RowView>,
    session: Seq<char>,
    i: int,
)
    requires
        0 <= i < r.len(),
    ensures
        r[i].m.session_id == session ==> transcript::transcript(r, session).contains(r[i]),
        forall|k: int|
            0 <= k < transcript::transcript(r, session).len() ==> (#[trigger] transcript::transcript(
                r,
                session,
            )[k]).m.session_id == session && r.contains(transcript::transcript(r, session)[k]),
        transcript::transcript(r, session) == r.filter(|x: RowView| x.m.session_id == session),
{
    let f = transcript::of_session(session);
    if r[i].m.session_id == session {
        r.lemma_filter_contains(f, i);
    }
    assert forall|k: int| 0 <= k < transcript::transcript(r, session).len() implies (
    #[trigger] transcript::transcript(r, session)[k]).m.session_id == session && r.contains(
        transcript::transcript(r, session)[k],
    ) by {
        seqs::lemma_filter_from(r, f, k);
    }
    assert(f =~= |x: RowView| x.m.session_id == session);
}

// ---------------------------------------------------------------------------
// Originals and warm-ups
// ---------------------------------------------------------------------------

/// When a session is cut behind a place the originals of the messages that go, go with
/// them, and every other original stays.
pub proof fn law_just_the_originals_of_dropped_messages_go(
    r: Seq<RowView>,
    session: Seq<char>,
    seq: int,
    o: OriginalView,
)
    ensures
        !history::original_stays(r, session, seq)(o) <==> o.session_id == session && exists|i: int|
            0 <= i < r.len() && o.message_id == Some((#[trigger] r[i]).m.id) && r[i].m.session_id
                == session && r[i].seq > seq,
{
    if o.message_id is Some && history::cut_off(r, session, seq, o.message_id->0) {
        let i = choose|i: int|
            0 <= i < r.len() && (#[trigger] r[i]).m.id == o.message_id->0 && r[i].m.session_id
                == session && r[i].seq > seq;
        assert(o.message_id == Some(r[i].m.id));
    }
    if exists|i: int|
        0 <= i < r.len() && o.message_id == Some((#[trigger] r[i]).m.id) && r[i].m.session_id
            == session && r[i].seq > seq {
        let i = choose|i: int|
            0 <= i < r.len() && o.message_id == Some((#[trigger] r[i]).m.id) && r[i].m.session_id
                == session && r[i].seq > seq;
        assert(history::cut_off(r, session, seq, r[i].m.id));
    }
}

/// An original is kept just where its key is free and its session is known; the others
/// stay as they are.
pub proof fn law_an_original_is_kept_under_a_free_key(
    o: Seq<OriginalView>,
    s: Seq<Session>,
    x: OriginalView,
)
    ensures
        !compaction::has_original(o, x.key) && store::has_session(s, x.session_id)
            ==> compaction::with_original(o, s, x) == o.push(x),
        compaction::has_original(o, x.key) || !store::has_session(s, x.session_id)
            ==> compaction::with_original(o, s, x) == o,
{
}

/// An original that moves takes its text along, leaves its message behind and moves
/// nothing else.
pub proof fn law_just_one_original_moves(
    o: Seq<OriginalView>,
    s: Seq<Session>,
    key: Seq<char>,
    session: Seq<char>,
    i: int,
)
    requires
        store::originals_ok(o, s),
        0 <= i < o.len(),
    ensures
        ({
            let t = compaction::rehomed(o, s, key, session);
            &&& t.len() == o.len()
            &&& t[i].key == o[i].key && t[i].content == o[i].content
            &&& o[i].key != key || !store::has_session(s, session) ==> t[i] == o[i]
            &&& o[i].key == key && store::has_session(s, session) ==> t[i].session_id == session
                && t[i].message_id is None
        }),
{
    if o[i].key == key {
        assert(compaction::has_original(o, key));
        let p = compaction::original_place(o, key);
        assert(0 <= p < o.len() && o[p].key == key);
        if p < i {
            assert(o[p].key != o[i].key);
        } else if i < p {
            assert(o[i].key != o[p].key);
        }
    }
}

/// A warm-up of nothing, or of a session that is not known, is passed over.
pub proof fn law_a_warm_up_of_nothing_is_passed_over(
    p: Seq<PreheatView>,
    s: Seq<Session>,
    x: PreheatView,
)
    ensures
        x.preheat.preheated_count == 0 || !store::has_session(s, x.session_id)
            ==> compaction::with_preheat(p, s, x) == p,
        x.preheat.preheated_count > 0 && store::has_session(s, x.session_id)
            && !compaction::has_preheat(p, x.message_id) ==> compaction::with_preheat(p, s, x)
            == p.push(x),
{
}

// ---------------------------------------------------------------------------
// Searching
// ---------------------------------------------------------------------------

/// A query asks for each of its words, as it is and in order.
pub proof fn law_a_query_asks_for_each_of_its_words(query: Seq<char>, ws: Seq<Seq<char>>)
    requires
        text::runs(query, CharClass::NonSpace) == ws,
    ensures
        ws.len() == 0 ==> search::escaped(query).len() == 0,
        search::escaped(query) == text::join(
            Seq::new(ws.len(), |i: int| seq!['"'] + search::doubled(ws[i]) + seq!['"']),
            " "@,
        ),
        forall|i: int|
            0 <= i < ws.len() && !(#[trigger] ws[i]).contains('"') ==> search::doubled(ws[i])
                == ws[i],
{
    assert(search::all_quoted(ws) =~= Seq::new(
        ws.len(),
        |i: int| seq!['"'] + search::doubled(ws[i]) + seq!['"'],
    ));
    assert forall|i: int| 0 <= i < ws.len() && !(#[trigger] ws[i]).contains('"') implies search::doubled(
        ws[i],
    ) == ws[i] by {
        lemma_not_doubled(ws[i]);
    }
}

proof fn lemma_not_doubled(s: Seq<char>)
    requires
        !s.contains('"'),
    ensures
        search::doubled(s) == s,
    decreases s.len(),
{
    if s.len() > 0 {
        let rest = s.drop_last();
        assert(s.contains(s.last())) by {
            assert(s[s.len() - 1] == s.last());
        }
        assert forall|i: int| 0 <= i < rest.len() implies rest[i] != '"' by {
            assert(s.contains(s[i]));
        }
        lemma_not_doubled(rest);
        assert(rest.push(s.last()) =~= s);
    } else {
        assert(search::doubled(s) =~= s);
    }
}

/// A session is found by its id where there is one of that id, and each session is
/// found by its own.
pub proof fn law_a_session_is_found_by_its_id(s: Seq<Session>, id: Seq<char>, i: int)
    requires
        0 <= i < s.len(),
        forall|a: int, b: int|
            #![trigger s[a], s[b]]
            0 <= a < b < s.len() ==> s[a].id@ != s[b].id@,
    ensures
        store::has_session(s, id) ==> store::session_of(s, id).id@ == id && s.contains(
            store::session_of(s, id),
        ),
        (forall|a: int| 0 <= a < s.len() ==> (#[trigger] s[a]).id@ != id) ==> !store::has_session(
            s,
            id,
        ),
        store::has_session(s, s[i].id@),
        store::session_of(s, s[i].id@) == s[i],
{
    if store::has_session(s, id) {
        let k = store::session_place(s, id);
        assert(0 <= k < s.len() && s[k].id@ == id);
        assert(s.contains(s[k]));
    }
    let k = store::session_place(s, s[i].id@);
    assert(0 <= k < s.len() && s[k].id@ == s[i].id@);
    if k < i {
        assert(s[k].id@ != s[i].id@);
    }
    if i < k {
        assert(s[i].id@ != s[k].id@);
    }
}

/// A message is found by its id, in its own session alone.
pub proof fn law_a_message_is_found_in_its_session(r: Seq<RowView>, i: int, session: Seq<char>)
    requires
        0 <= i < r.len(),
        forall|a: int, b: int|
            #![trigger r[a], r[b]]
            0 <= a < b < r.len() ==> r[a].m.id != r[b].m.id,
    ensures
        transcript::has_message(r, r[i].m.id),
        transcript::row_place(r, r[i].m.id) == i,
        transcript::has_row(r, r[i].m.id, session) <==> session == r[i].m.session_id,
{
    let k = transcript::row_place(r, r[i].m.id);
    assert(0 <= k < r.len() && r[k].m.id == r[i].m.id);
    if k < i {
        assert(r[k].m.id != r[i].m.id);
    }
    if i < k {
        assert(r[i].m.id != r[k].m.id);
    }
    if transcript::has_row(r, r[i].m.id, session) {
        let a = choose|a: int|
            0 <= a < r.len() && (#[trigger] r[a]).m.id == r[i].m.id && r[a].m.session_id == session;
        if a < i {
            assert(r[a].m.id != r[i].m.id);
        }
        if i < a {
            assert(r[i].m.id != r[a].m.id);
        }
    }
}

/// An original is found by its key, and a warm-up by its message.
pub proof fn law_originals_and_warm_ups_are_found(
    o: Seq<OriginalView>,
    p: Seq<PreheatView>,
    key: Seq<char>,
)
    ensures
        compaction::has_original(o, key) ==> o[compaction::original_place(o, key)].key == key
            && o.contains(o[compaction::original_place(o, key)]),
        compaction::has_original(o, key) <==> exists|i: int|
            0 <= i < o.len() && (#[trigger] o[i]).key == key,
        compaction::has_preheat(p, key) ==> p[compaction::preheat_place(p, key)].message_id == key
            && p.contains(p[compaction::preheat_place(p, key)]),
        compaction::has_preheat(p, key) <==> exists|i: int|
            0 <= i < p.len() && (#[trigger] p[i]).message_id == key,
{
    if compaction::has_original(o, key) {
        let k = compaction::original_place(o, key);
        assert(0 <= k < o.len() && o[k].key == key);
        assert(o.contains(o[k]));
    }
    if compaction::has_preheat(p, key) {
        let k = compaction::preheat_place(p, key);
        assert(0 <= k < p.len() && p[k].message_id == key);
        assert(p.contains(p[k]));
    }
}

} // verus!
