//! The transcripts: appending messages, reading them back and finishing those
//! that were reserved ahead of their content.
use vstd::prelude::*;
use vstd::string::*;
use crate::seqs;
use crate::session::store;
use crate::session::store::{RowView, SessionStore, StoredMessage};
use crate::session::types::{
    Attachment,
    Message,
    MessageView,
    Role,
    Session,
    StopReason,
    ToolCall,
};
use crate::text;
use crate::text::same_text;

verus! {

/// Whether a row belongs to a session.
pub open spec fn of_session(session: Seq<char>) -> spec_fn(RowView) -> bool {
    |r: RowView| r.m.session_id == session
}

/// The transcript of a session, in order.
pub open spec fn transcript(r: Seq<RowView>, session: Seq<char>) -> Seq<RowView> {
    r.filter(of_session(session))
}

/// The messages of rows.
pub open spec fn messages(r: Seq<RowView>) -> Seq<MessageView> {
    Seq::new(r.len(), |i: int| r[i].m)
}

/// What messages hold.
pub open spec fn message_views(v: Seq<Message>) -> Seq<MessageView> {
    Seq::new(v.len(), |i: int| v[i]@)
}

/// Whether there is a message of that id.
pub open spec fn has_message(r: Seq<RowView>, id: Seq<char>) -> bool {
    exists|i: int| 0 <= i < r.len() && (#[trigger] r[i]).m.id == id
}

/// Whether the session has a message of that id.
pub open spec fn has_row(r: Seq<RowView>, id: Seq<char>, session: Seq<char>) -> bool {
    exists|i: int|
        0 <= i < r.len() && (#[trigger] r[i]).m.id == id && r[i].m.session_id == session
}

/// The place of the message of that id.
pub open spec fn row_place(r: Seq<RowView>, id: Seq<char>) -> int {
    choose|i: int| 0 <= i < r.len() && (#[trigger] r[i]).m.id == id
}

/// The place after the last one that the first `n` rows give to the session: 0
/// where there is none.
pub open spec fn next_seq(r: Seq<RowView>, session: Seq<char>, n: int) -> int
    decreases n,
{
    if n <= 0 {
        0
    } else if r[n - 1].m.session_id == session && r[n - 1].seq >= next_seq(r, session, n - 1) {
        r[n - 1].seq + 1
    } else {
        next_seq(r, session, n - 1)
    }
}

/// Whether the user has said something among the first `n` rows.
pub open spec fn user_spoke(r: Seq<RowView>, session: Seq<char>, n: int) -> bool
    decreases n,
{
    n > 0 && (user_spoke(r, session, n - 1) || (r[n - 1].m.session_id == session && r[n - 1].m.role
        == Role::User))
}

/// A message with its author: an assistant's message that names none is by the
/// phenotype of its session.
pub open spec fn authored(m: MessageView, phenotype: Option<Seq<char>>) -> MessageView {
    if m.role == Role::Assistant && m.author_name is None {
        MessageView { author_name: phenotype, ..m }
    } else {
        m
    }
}

/// Attachments as they are kept: an empty list is none.
pub open spec fn kept_attachments(a: Option<Seq<Attachment>>) -> Option<Seq<Attachment>> {
    match a {
        Some(list) => if list.len() == 0 {
            None
        } else {
            a
        },
        None => None,
    }
}

/// A message as it is kept.
pub open spec fn kept(m: MessageView) -> MessageView {
    MessageView { attachments: kept_attachments(m.attachments), ..m }
}

/// A session after a message: updated when the message was made, and titled by
/// its first user message where it had no title.
pub open spec fn after_message(s: Session, at: i64, first: bool, title: String) -> Session {
    Session {
        updated_at: at,
        title: if first && s.title is None {
            Some(title)
        } else {
            s.title
        },
        ..s
    }
}

/// The rows with the message of that id changed, if the session has it.
pub open spec fn rewritten(
    r: Seq<RowView>,
    id: Seq<char>,
    session: Seq<char>,
    f: spec_fn(MessageView) -> MessageView,
) -> Seq<RowView> {
    if has_row(r, id, session) {
        let i = row_place(r, id);
        r.update(i, RowView { m: f(r[i].m), ..r[i] })
    } else {
        r
    }
}

/// Whether a message was reserved for an assistant's answer that never came.
pub open spec fn orphaned(m: MessageView, session: Seq<char>) -> bool {
    m.session_id == session && m.role == Role::Assistant && m.content.len() == 0 && m.tool_calls
        is None && m.reasoning is None
}

/// Whether a row was reserved for an assistant's answer that never came.
pub open spec fn orphan_of(session: Seq<char>) -> spec_fn(RowView) -> bool {
    |r: RowView| orphaned(r.m, session)
}

/// A row that was reserved in vain, labelled so; any other as it is.
pub open spec fn reconciled(r: RowView, session: Seq<char>, notice: Seq<char>, now_ms: i64) -> RowView {
    if orphaned(r.m, session) {
        RowView {
            m: MessageView {
                content: notice,
                created_at: now_ms,
                stop_reason: Some(StopReason::Interrupted),
                ..r.m
            },
            ..r
        }
    } else {
        r
    }
}

/// The last `limit` elements.
pub open spec fn tail<A>(s: Seq<A>, limit: int) -> Seq<A> {
    if s.len() <= limit {
        s
    } else {
        s.skip(s.len() - limit)
    }
}

/// Every place of a session is below the next one.
pub proof fn lemma_next_seq(r: Seq<RowView>, session: Seq<char>, n: int)
    requires
        0 <= n <= r.len(),
        forall|i: int| 0 <= i < r.len() ==> (#[trigger] r[i]).seq >= 0,
    ensures
        next_seq(r, session, n) >= 0,
        forall|i: int|
            0 <= i < n && (#[trigger] r[i]).m.session_id == session ==> r[i].seq < next_seq(
                r,
                session,
                n,
            ),
    decreases n,
{
    if n > 0 {
        lemma_next_seq(r, session, n - 1);
    }
}

/// With distinct ids the place of a message is the only one.
pub proof fn lemma_row_place(r: Seq<RowView>, s: Seq<Session>, i: int)
    requires
        store::rows_ok(r, s),
        0 <= i < r.len(),
    ensures
        row_place(r, r[i].m.id) == i,
{
    let p = row_place(r, r[i].m.id);
    assert(r[i].m.id == r[i].m.id);
    assert(0 <= p < r.len() && r[p].m.id == r[i].m.id);
}

/// A further message at the next place of its session keeps the rows in order.
proof fn lemma_push_row(r: Seq<RowView>, s: Seq<Session>, x: RowView)
    requires
        store::rows_ok(r, s),
        !has_message(r, x.m.id),
        store::has_session(s, x.m.session_id),
        x.seq == next_seq(r, x.m.session_id, r.len() as int),
    ensures
        store::rows_ok(r.push(x), s),
{
    let t = r.push(x);
    lemma_next_seq(r, x.m.session_id, r.len() as int);
    assert forall|i: int, j: int|
        #![trigger t[i], t[j]]
        0 <= i < j < t.len() implies t[i].m.id != t[j].m.id && (t[i].m.session_id
        == t[j].m.session_id ==> t[i].seq < t[j].seq) by {
        assert(t[i] == r[i]);
        if j < r.len() {
            assert(t[j] == r[j]);
        }
    }
    assert forall|i: int| 0 <= i < t.len() implies store::has_session(
        s,
        (#[trigger] t[i]).m.session_id,
    ) && t[i].seq >= 0 by {
        if i < r.len() {
            assert(t[i] == r[i]);
        }
    }
}

/// A message changed in other things than its id and its session keeps the rows
/// in order.
pub proof fn lemma_update_row(r: Seq<RowView>, s: Seq<Session>, i: int, x: RowView)
    requires
        store::rows_ok(r, s),
        0 <= i < r.len(),
        x.m.id == r[i].m.id,
        x.m.session_id == r[i].m.session_id,
        x.seq == r[i].seq,
    ensures
        store::rows_ok(r.update(i, x), s),
{
    let t = r.update(i, x);
    assert forall|a: int, b: int|
        #![trigger t[a], t[b]]
        0 <= a < b < t.len() implies t[a].m.id != t[b].m.id && (t[a].m.session_id
        == t[b].m.session_id ==> t[a].seq < t[b].seq) by {
        assert(r[a].m.id != r[b].m.id);
    }
    assert forall|a: int| 0 <= a < t.len() implies store::has_session(
        s,
        (#[trigger] t[a]).m.session_id,
    ) && t[a].seq >= 0 by {
        assert(r[a].seq >= 0);
    }
}

impl SessionStore {
    /// The rows of the messages.
    pub open spec fn rows(&self) -> Seq<RowView> {
        store::rows(self.messages@)
    }

    /// The next place in the transcript of a session.
    fn next_place(&self, session_id: &str) -> (r: i64)
        requires
            self.wf(),
            next_seq(self.rows(), session_id@, self.rows().len() as int) <= i64::MAX,
        ensures
            r == next_seq(self.rows(), session_id@, self.rows().len() as int),
    {
        let ghost all = self.rows();
        let mut next: i64 = 0;
        let mut i: usize = 0;
        while i < self.messages.len()
            invariant
                i <= self.messages@.len(),
                all == self.rows(),
                self.wf(),
                next == next_seq(all, session_id@, i as int),
                next_seq(all, session_id@, all.len() as int) <= i64::MAX,
            decreases self.messages@.len() - i,
        {
            proof {
                assert(all[i as int] == self.messages@[i as int]@);
                lemma_next_seq_grows(all, session_id@, i + 1, all.len() as int);
            }
            if same_text(self.messages[i].message.session_id.as_str(), session_id)
                && self.messages[i].seq >= next {
                next = self.messages[i].seq + 1;
            }
            i = i + 1;
        }
        next
    }

    /// Whether the user has said something in a session.
    fn has_user_message(&self, session_id: &str) -> (r: bool)
        ensures
            r == user_spoke(self.rows(), session_id@, self.rows().len() as int),
    {
        let ghost all = self.rows();
        let mut found: bool = false;
        let mut i: usize = 0;
        while i < self.messages.len()
            invariant
                i <= self.messages@.len(),
                all == self.rows(),
                found == user_spoke(all, session_id@, i as int),
            decreases self.messages@.len() - i,
        {
            proof {
                assert(all[i as int] == self.messages@[i as int]@);
            }
            if same_text(self.messages[i].message.session_id.as_str(), session_id)
                && self.messages[i].message.role == Role::User {
                found = true;
            }
            i = i + 1;
        }
        found
    }

    /// Appends a message to the transcript of its session, which stops being a
    /// draft. An assistant's message is stamped with the phenotype of the
    /// session, and the first user message gives an untitled session `title`,
    /// the title made from that message. Gives the message back as it is then.
    pub fn push_message(&mut self, msg: Message, title: String) -> (r: Message)
        requires
            old(self).wf(),
            old(self).knows(msg.session_id@),
            !has_message(old(self).rows(), msg.id@),
            next_seq(old(self).rows(), msg.session_id@, old(self).rows().len() as int) < i64::MAX,
        ensures
            final(self).wf(),
            final(self).originals@ == old(self).originals@,
            final(self).preheats@ == old(self).preheats@,
            final(self).pending@ == store::without_draft(old(self).pending@, msg.session_id@),
            ({
                let sid = msg.session_id@;
                let written = store::with_draft(old(self).sessions@, old(self).pending@, sid);
                let n = old(self).rows().len() as int;
                let first = msg.role == Role::User && !user_spoke(old(self).rows(), sid, n);
                &&& r@ == authored(
                    msg@,
                    text::opt_view(store::session_of(written, sid).phenotype),
                )
                &&& final(self).rows() == old(self).rows().push(
                    RowView { seq: next_seq(old(self).rows(), sid, n), m: kept(r@) },
                )
                &&& final(self).sessions@ == store::changed(
                    written,
                    sid,
                    |s: Session| after_message(s, msg.created_at, first, title),
                )
            }),
    {
        let ghost before = self.rows();
        let mut msg: Message = msg;
        let sid: String = msg.session_id.clone();
        let ghost given = msg@;
        let seq: i64 = self.next_place(sid.as_str());
        let spoke: bool = self.has_user_message(sid.as_str());
        self.flush_pending(sid.as_str());
        let ghost written = self.sessions@;
        assert(self.rows() == before);
        if msg.role == Role::Assistant && msg.author_name.is_none() {
            msg.author_name = self.session_phenotype(sid.as_str());
        }
        proof {
            assert(msg@ =~= authored(given, text::opt_view(store::session_of(written, sid@).phenotype)));
        }
        let first: bool = msg.role == Role::User && !spoke;
        let mut copy: Message = msg.clone();
        let empty: bool = match &copy.attachments {
            Some(list) => list.len() == 0,
            None => false,
        };
        if empty {
            copy.attachments = None;
        }
        let row = StoredMessage { seq, message: copy };
        proof {
            assert(row@.m =~= kept(msg@));
        }
        match self.find_session(sid.as_str()) {
            Some(i) => {
                let mut s: Session = self.sessions[i].clone();
                s.updated_at = msg.created_at;
                if first && s.title.is_none() {
                    s.title = Some(title);
                }
                self.put_session(i, s);
            },
            None => {},
        }
        proof {
            lemma_push_row(before, self.sessions@, row@);
        }
        self.messages.push(row);
        proof {
            assert(self.rows() =~= before.push(row@));
        }
        msg
    }

    /// Appends a plain message.
    pub fn add_message(
        &mut self,
        id: String,
        session_id: &str,
        role: Role,
        content: String,
        title: String,
        now_ms: i64,
    ) -> (r: Message)
        requires
            old(self).wf(),
            old(self).knows(session_id@),
            !has_message(old(self).rows(), id@),
            next_seq(old(self).rows(), session_id@, old(self).rows().len() as int) < i64::MAX,
        ensures
            final(self).wf(),
            final(self).originals@ == old(self).originals@,
            final(self).preheats@ == old(self).preheats@,
            final(self).pending@ == store::without_draft(old(self).pending@, session_id@),
            added(
                *old(self),
                *final(self),
                plain(id@, session_id@, role, content@, now_ms),
                r@,
                title,
            ),
    {
        self.push_message(
            Message {
                id,
                session_id: session_id.to_owned(),
                role,
                content,
                tool_calls: None,
                tool_call_id: None,
                attachments: None,
                reasoning: None,
                stop_reason: None,
                author_name: None,
                created_at: now_ms,
            },
            title,
        )
    }

    /// Appends a message with attachments; an empty list of them is none.
    pub fn add_message_with_attachments(
        &mut self,
        id: String,
        session_id: &str,
        role: Role,
        content: String,
        attachments: Vec<Attachment>,
        title: String,
        now_ms: i64,
    ) -> (r: Message)
        requires
            old(self).wf(),
            old(self).knows(session_id@),
            !has_message(old(self).rows(), id@),
            next_seq(old(self).rows(), session_id@, old(self).rows().len() as int) < i64::MAX,
        ensures
            final(self).wf(),
            final(self).originals@ == old(self).originals@,
            final(self).preheats@ == old(self).preheats@,
            final(self).pending@ == store::without_draft(old(self).pending@, session_id@),
            added(
                *old(self),
                *final(self),
                (MessageView {
                    attachments: kept_attachments(Some(attachments@)),
                    ..plain(id@, session_id@, role, content@, now_ms)
                }),
                r@,
                title,
            ),
    {
        let listed: Option<Vec<Attachment>> = if attachments.len() == 0 {
            None
        } else {
            Some(attachments)
        };
        self.push_message(
            Message {
                id,
                session_id: session_id.to_owned(),
                role,
                content,
                tool_calls: None,
                tool_call_id: None,
                attachments: listed,
                reasoning: None,
                stop_reason: None,
                author_name: None,
                created_at: now_ms,
            },
            title,
        )
    }

    /// Appends the result of a tool call.
    pub fn add_tool_result_message(
        &mut self,
        id: String,
        session_id: &str,
        tool_call_id: String,
        content: String,
        now_ms: i64,
    ) -> (r: Message)
        requires
            old(self).wf(),
            old(self).knows(session_id@),
            !has_message(old(self).rows(), id@),
            next_seq(old(self).rows(), session_id@, old(self).rows().len() as int) < i64::MAX,
        ensures
            final(self).wf(),
            final(self).originals@ == old(self).originals@,
            final(self).preheats@ == old(self).preheats@,
            final(self).pending@ == store::without_draft(old(self).pending@, session_id@),
            exists|title: String| #[trigger]
                added(
                    *old(self),
                    *final(self),
                    tool_result(id@, session_id@, tool_call_id@, content@, now_ms),
                    r@,
                    title,
                ),
    {
        let title: String = String::new();
        let ghost no_title = title;
        let ghost given = tool_result(id@, session_id@, tool_call_id@, content@, now_ms);
        let r: Message = self.push_message(
            Message {
                id,
                session_id: session_id.to_owned(),
                role: Role::Tool,
                content,
                tool_calls: None,
                tool_call_id: Some(tool_call_id),
                attachments: None,
                reasoning: None,
                stop_reason: None,
                author_name: None,
                created_at: now_ms,
            },
            title,
        );
        proof {
            assert(added(*old(self), *self, given, r@, no_title));
        }
        r
    }

    /// The transcript of a session.
    pub fn get_messages(&self, session_id: &str) -> (r: Vec<Message>)
        ensures
            message_views(r@) == messages(transcript(self.rows(), session_id@)),
    {
        let ghost all = self.rows();
        let ghost own = of_session(session_id@);
        let mut out: Vec<Message> = Vec::new();
        let mut i: usize = 0;
        proof {
            reveal(Seq::filter);
            assert(message_views(out@) =~= messages(all.take(0).filter(own)));
        }
        while i < self.messages.len()
            invariant
                i <= self.messages@.len(),
                all == self.rows(),
                own == of_session(session_id@),
                message_views(out@) == messages(all.take(i as int).filter(own)),
            decreases self.messages@.len() - i,
        {
            let ghost upto = all.take(i as int).filter(own);
            let ghost before = message_views(out@);
            proof {
                seqs::lemma_filter_take(all, own, i as int);
                assert(all[i as int] == self.messages@[i as int]@);
            }
            if same_text(self.messages[i].message.session_id.as_str(), session_id) {
                out.push(self.messages[i].message.clone());
                proof {
                    assert(message_views(out@) =~= before.push(all[i as int].m));
                    assert(messages(upto.push(all[i as int])) =~= messages(upto).push(
                        all[i as int].m,
                    ));
                }
            }
            i = i + 1;
        }
        proof {
            assert(all.take(i as int) =~= all);
        }
        out
    }

    /// The last `limit` messages of a session, in order.
    pub fn get_messages_tail(&self, session_id: &str, limit: usize) -> (r: Vec<Message>)
        ensures
            message_views(r@) == tail(
                messages(transcript(self.rows(), session_id@)),
                limit as int,
            ),
    {
        let all: Vec<Message> = self.get_messages(session_id);
        let ghost av = message_views(all@);
        let start: usize = if all.len() <= limit {
            0
        } else {
            all.len() - limit
        };
        let mut out: Vec<Message> = Vec::new();
        let mut i: usize = start;
        while i < all.len()
            invariant
                start <= i <= all@.len(),
                av == message_views(all@),
                message_views(out@) == av.subrange(start as int, i as int),
            decreases all@.len() - i,
        {
            let ghost before = message_views(out@);
            out.push(all[i].clone());
            proof {
                assert(message_views(out@) =~= before.push(av[i as int]));
            }
            i = i + 1;
            proof {
                assert(message_views(out@) =~= av.subrange(start as int, i as int));
            }
        }
        proof {
            assert(av.subrange(start as int, i as int) =~= tail(av, limit as int));
        }
        out
    }

    /// The place of a message of the session.
    pub(crate) fn find_message(&self, id: &str, session_id: &str) -> (r: Option<usize>)
        requires
            self.wf(),
        ensures
            match r {
                Some(i) => i < self.messages@.len() && self.messages@[i as int]@.m.id == id@
                    && self.messages@[i as int]@.m.session_id == session_id@ && has_row(
                    self.rows(),
                    id@,
                    session_id@,
                ) && i == row_place(self.rows(), id@),
                None => !has_row(self.rows(), id@, session_id@),
            },
    {
        let ghost all = self.rows();
        let mut i: usize = 0;
        while i < self.messages.len()
            invariant
                i <= self.messages@.len(),
                all == self.rows(),
                self.wf(),
                forall|j: int|
                    0 <= j < i ==> !((#[trigger] all[j]).m.id == id@ && all[j].m.session_id
                        == session_id@),
            decreases self.messages@.len() - i,
        {
            proof {
                assert(all[i as int] == self.messages@[i as int]@);
            }
            if same_text(self.messages[i].message.id.as_str(), id) && same_text(
                self.messages[i].message.session_id.as_str(),
                session_id,
            ) {
                proof {
                    lemma_row_place(all, self.sessions@, i as int);
                }
                return Some(i);
            }
            i = i + 1;
        }
        None
    }

    /// Puts a message in the place of the one of the same id.
    pub(crate) fn put_message(&mut self, i: usize, m: Message)
        requires
            old(self).wf(),
            i < old(self).messages@.len(),
            m@.id == old(self).messages@[i as int]@.m.id,
            m@.session_id == old(self).messages@[i as int]@.m.session_id,
        ensures
            final(self).wf(),
            final(self).sessions@ == old(self).sessions@,
            final(self).pending@ == old(self).pending@,
            final(self).originals@ == old(self).originals@,
            final(self).preheats@ == old(self).preheats@,
            final(self).rows() == old(self).rows().update(
                i as int,
                RowView { seq: old(self).rows()[i as int].seq, m: m@ },
            ),
    {
        let ghost before = self.rows();
        let seq: i64 = self.messages[i].seq;
        let row = StoredMessage { seq, message: m };
        proof {
            assert(before[i as int] == self.messages@[i as int]@);
            lemma_update_row(before, self.sessions@, i as int, row@);
        }
        self.messages.set(i, row);
        proof {
            assert(self.rows() =~= before.update(i as int, row@));
        }
    }

    /// Sets the content of a message of the session and gives the message back.
    /// For an unknown message it gives one that is not kept.
    pub fn set_message_content(
        &mut self,
        message_id: &str,
        session_id: &str,
        content: String,
        now_ms: i64,
    ) -> (r: Message)
        requires
            old(self).wf(),
        ensures
            final(self).wf(),
            final(self).sessions@ == old(self).sessions@,
            final(self).pending@ == old(self).pending@,
            final(self).originals@ == old(self).originals@,
            final(self).preheats@ == old(self).preheats@,
            final(self).rows() == rewritten(
                old(self).rows(),
                message_id@,
                session_id@,
                |m: MessageView| (MessageView { content: content@, created_at: now_ms, ..m }),
            ),
            has_row(old(self).rows(), message_id@, session_id@) ==> r@ == final(self).rows()[row_place(
                old(self).rows(),
                message_id@,
            )].m,
            !has_row(old(self).rows(), message_id@, session_id@) ==> r@ == plain(
                message_id@,
                session_id@,
                Role::Assistant,
                content@,
                now_ms,
            ),
    {
        match self.find_message(message_id, session_id) {
            Some(i) => {
                let mut m: Message = self.messages[i].message.clone();
                m.content = content;
                m.created_at = now_ms;
                let copy: Message = m.clone();
                self.put_message(i, m);
                copy
            },
            None => Message {
                id: message_id.to_owned(),
                session_id: session_id.to_owned(),
                role: Role::Assistant,
                content,
                tool_calls: None,
                tool_call_id: None,
                attachments: None,
                reasoning: None,
                stop_reason: None,
                author_name: None,
                created_at: now_ms,
            },
        }
    }

    /// Attaches tool calls to a message of the session.
    pub fn attach_tool_calls(
        &mut self,
        message_id: &str,
        session_id: &str,
        tool_calls: Vec<ToolCall>,
    )
        requires
            old(self).wf(),
        ensures
            final(self).wf(),
            final(self).sessions@ == old(self).sessions@,
            final(self).pending@ == old(self).pending@,
            final(self).originals@ == old(self).originals@,
            final(self).preheats@ == old(self).preheats@,
            final(self).rows() == rewritten(
                old(self).rows(),
                message_id@,
                session_id@,
                |m: MessageView| (MessageView { tool_calls: Some(tool_calls@), ..m }),
            ),
    {
        if let Some(i) = self.find_message(message_id, session_id) {
            let mut m: Message = self.messages[i].message.clone();
            m.tool_calls = Some(tool_calls);
            self.put_message(i, m);
        }
    }

    /// Sets the reasoning of a message of the session.
    pub fn set_message_reasoning(&mut self, message_id: &str, session_id: &str, reasoning: &str)
        requires
            old(self).wf(),
        ensures
            final(self).wf(),
            final(self).sessions@ == old(self).sessions@,
            final(self).pending@ == old(self).pending@,
            final(self).originals@ == old(self).originals@,
            final(self).preheats@ == old(self).preheats@,
            final(self).rows() == rewritten(
                old(self).rows(),
                message_id@,
                session_id@,
                |m: MessageView| (MessageView { reasoning: Some(reasoning@), ..m }),
            ),
    {
        if let Some(i) = self.find_message(message_id, session_id) {
            let mut m: Message = self.messages[i].message.clone();
            m.reasoning = Some(reasoning.to_owned());
            self.put_message(i, m);
        }
    }

    /// Sets why the turn of a message of the session stopped.
    pub fn set_message_stop_reason(
        &mut self,
        message_id: &str,
        session_id: &str,
        reason: StopReason,
    )
        requires
            old(self).wf(),
        ensures
            final(self).wf(),
            final(self).sessions@ == old(self).sessions@,
            final(self).pending@ == old(self).pending@,
            final(self).originals@ == old(self).originals@,
            final(self).preheats@ == old(self).preheats@,
            final(self).rows() == rewritten(
                old(self).rows(),
                message_id@,
                session_id@,
                |m: MessageView| (MessageView { stop_reason: Some(reason), ..m }),
            ),
    {
        if let Some(i) = self.find_message(message_id, session_id) {
            let mut m: Message = self.messages[i].message.clone();
            m.stop_reason = Some(reason);
            self.put_message(i, m);
        }
    }

    /// Labels the messages of a session that were reserved for an answer that
    /// never came; tells how many there were. It is for a session without a turn
    /// under way, whose reserved message would be labelled too.
    pub fn reconcile_orphaned_assistant_rows(
        &mut self,
        session_id: &str,
        notice: &str,
        now_ms: i64,
    ) -> (r: usize)
        requires
            old(self).wf(),
        ensures
            final(self).wf(),
            final(self).sessions@ == old(self).sessions@,
            final(self).pending@ == old(self).pending@,
            final(self).originals@ == old(self).originals@,
            final(self).preheats@ == old(self).preheats@,
            final(self).rows() == old(self).rows().map_values(
                |row: RowView| reconciled(row, session_id@, notice@, now_ms),
            ),
            r == old(self).rows().filter(orphan_of(session_id@)).len(),
    {
        let ghost all = self.rows();
        let ghost f = |row: RowView| reconciled(row, session_id@, notice@, now_ms);
        let ghost orphan = orphan_of(session_id@);
        let mut count: usize = 0;
        let mut i: usize = 0;
        proof {
            reveal(Seq::filter);
            assert(all.take(0).filter(orphan).len() == 0);
        }
        while i < self.messages.len()
            invariant
                self.wf(),
                self.sessions@ == old(self).sessions@,
                self.pending@ == old(self).pending@,
                self.originals@ == old(self).originals@,
                self.preheats@ == old(self).preheats@,
                self.messages@.len() == all.len(),
                i <= all.len(),
                count <= i,
                orphan == orphan_of(session_id@),
                f == (|row: RowView| reconciled(row, session_id@, notice@, now_ms)),
                count == all.take(i as int).filter(orphan).len(),
                forall|j: int| 0 <= j < i ==> #[trigger] self.rows()[j] == f(all[j]),
                forall|j: int| i <= j < all.len() ==> #[trigger] self.rows()[j] == all[j],
            decreases all.len() - i,
        {
            proof {
                seqs::lemma_filter_take(all, orphan, i as int);
                assert(self.rows()[i as int] == self.messages@[i as int]@);
                reveal_strlit("");
            }
            let m: &Message = &self.messages[i].message;
            let content_empty: bool = same_text(m.content.as_str(), "");
            proof {
                assert(content_empty == (m.content@.len() == 0)) by {
                    if m.content@.len() == 0 {
                        assert(m.content@ =~= ""@);
                    }
                }
            }
            if same_text(m.session_id.as_str(), session_id) && m.role == Role::Assistant
                && content_empty && m.tool_calls.is_none() && m.reasoning.is_none() {
                let mut copy: Message = m.clone();
                copy.content = notice.to_owned();
                copy.created_at = now_ms;
                copy.stop_reason = Some(StopReason::Interrupted);
                let ghost was = self.rows();
                self.put_message(i, copy);
                proof {
                    assert(self.rows()[i as int].m =~= f(all[i as int]).m);
                    assert(self.rows().len() == was.len());
                }
                count = count + 1;
            }
            i = i + 1;
        }
        proof {
            assert(all.take(i as int) =~= all);
            assert(self.rows() =~= all.map_values(f));
        }
        count
    }
}

/// A message that holds nothing but a text.
pub open spec fn plain(
    id: Seq<char>,
    session: Seq<char>,
    role: Role,
    content: Seq<char>,
    now_ms: i64,
) -> MessageView {
    MessageView {
        id,
        session_id: session,
        role,
        content,
        tool_calls: None,
        tool_call_id: None,
        attachments: None,
        reasoning: None,
        stop_reason: None,
        author_name: None,
        created_at: now_ms,
    }
}

/// The result of a tool call.
pub open spec fn tool_result(
    id: Seq<char>,
    session: Seq<char>,
    call: Seq<char>,
    content: Seq<char>,
    now_ms: i64,
) -> MessageView {
    MessageView { tool_call_id: Some(call), ..plain(id, session, Role::Tool, content, now_ms) }
}

/// Whether `after` is `before` with the message `given` appended, which reads
/// `stored` once it has its author.
pub open spec fn added(
    before: SessionStore,
    after: SessionStore,
    given: MessageView,
    stored: MessageView,
    title: String,
) -> bool {
    let sid = given.session_id;
    let written = store::with_draft(before.sessions@, before.pending@, sid);
    let n = before.rows().len() as int;
    let first = given.role == Role::User && !user_spoke(before.rows(), sid, n);
    &&& stored == authored(given, text::opt_view(store::session_of(written, sid).phenotype))
    &&& after.rows() == before.rows().push(
        RowView { seq: next_seq(before.rows(), sid, n), m: kept(stored) },
    )
    &&& after.sessions@ == store::changed(
        written,
        sid,
        |s: Session| after_message(s, given.created_at, first, title),
    )
}

/// The next place does not fall as rows are added.
proof fn lemma_next_seq_grows(r: Seq<RowView>, session: Seq<char>, a: int, b: int)
    requires
        0 <= a <= b <= r.len(),
        forall|i: int| 0 <= i < r.len() ==> (#[trigger] r[i]).seq >= 0,
    ensures
        next_seq(r, session, a) <= next_seq(r, session, b),
    decreases b - a,
{
    if a < b {
        lemma_next_seq_grows(r, session, a, b - 1);
    }
}

/// A message that is appended is read last in its session, and changes no other
/// transcript.
pub proof fn law_appended_message_is_read_last(r: Seq<RowView>, x: RowView, other: Seq<char>)
    requires
        other != x.m.session_id,
    ensures
        messages(transcript(r.push(x), x.m.session_id)) == messages(
            transcript(r, x.m.session_id),
        ).push(x.m),
        messages(transcript(r.push(x), other)) == messages(transcript(r, other)),
{
    reveal(Seq::filter);
    assert(r.push(x).drop_last() =~= r);
    assert(messages(transcript(r.push(x), x.m.session_id)) =~= messages(
        transcript(r, x.m.session_id),
    ).push(x.m));
}

/// Only the first user message of a session can give it a title, and only where
/// it has none.
pub proof fn law_a_title_is_given_once(
    r: Seq<RowView>,
    x: RowView,
    s: Session,
    at: i64,
    title: String,
)
    requires
        x.m.role == Role::User,
    ensures
        user_spoke(r.push(x), x.m.session_id, (r.len() + 1) as int),
        after_message(s, at, false, title).title == s.title,
        s.title is Some ==> after_message(s, at, true, title).title == s.title,
{
    assert(r.push(x)[r.len() as int] == x);
}

/// Once labelled, a message counts as an answer that never came no more.
pub proof fn law_reconciling_leaves_no_orphans(
    r: Seq<RowView>,
    session: Seq<char>,
    notice: Seq<char>,
    now_ms: i64,
)
    requires
        notice.len() > 0,
    ensures
        r.map_values(|row: RowView| reconciled(row, session, notice, now_ms)).filter(
            orphan_of(session),
        ) == Seq::<RowView>::empty(),
{
    let f = |row: RowView| reconciled(row, session, notice, now_ms);
    let t = r.map_values(f);
    let orphan = orphan_of(session);
    if t.filter(orphan).len() > 0 {
        seqs::lemma_filter_from(t, orphan, 0);
        let k = choose|k: int| 0 <= k < t.len() && t[k] == t.filter(orphan)[0];
        assert(t[k] == f(r[k]));
    }
    assert(t.filter(orphan) =~= Seq::<RowView>::empty());
}

/// The last messages of a transcript are the transcript where it is no longer
/// than that, and else end with it.
pub proof fn law_tail_ends_the_transcript<A>(s: Seq<A>, limit: nat)
    ensures
        tail(s, limit as int).len() == if s.len() <= limit {
            s.len()
        } else {
            limit
        },
        forall|i: int|
            0 <= i < tail(s, limit as int).len() ==> #[trigger] tail(s, limit as int)[i] == s[s.len()
                - tail(s, limit as int).len() + i],
{
}

} // verus!
