//! The table of sessions. A session made as a draft is kept apart, and out of
//! the list, until something is first written to it.
use vstd::prelude::*;
use vstd::string::*;
use crate::session::types::{
    Message,
    MessageView,
    Mode,
    ModelSelection,
    Session,
    SessionStatus,
};
use crate::text;
use crate::text::{copy_opt, same_text};

verus! {

/// A message and its place in its transcript.
#[derive(Debug)]
pub struct StoredMessage {
    pub seq: i64,
    pub message: Message,
}

/// A message and its place, as values.
pub struct RowView {
    pub seq: int,
    pub m: MessageView,
}

impl View for StoredMessage {
    type V = RowView;

    open spec fn view(&self) -> RowView {
        RowView { seq: self.seq as int, m: self.message@ }
    }
}

/// The rows of the messages.
pub open spec fn rows(ms: Seq<StoredMessage>) -> Seq<RowView> {
    Seq::new(ms.len(), |i: int| ms[i]@)
}

/// The text that a compacted tool result stands for.
#[derive(Debug)]
pub struct Original {
    pub key: String,
    pub session_id: String,
    pub message_id: Option<String>,
    pub content: String,
}

/// An original, as values.
pub struct OriginalView {
    pub key: Seq<char>,
    pub session_id: Seq<char>,
    pub message_id: Option<Seq<char>>,
    pub content: Seq<char>,
}

impl View for Original {
    type V = OriginalView;

    open spec fn view(&self) -> OriginalView {
        OriginalView {
            key: self.key@,
            session_id: self.session_id@,
            message_id: text::opt_view(self.message_id),
            content: self.content@,
        }
    }
}

/// The originals, as values.
pub open spec fn original_views(s: Seq<Original>) -> Seq<OriginalView> {
    Seq::new(s.len(), |i: int| s[i]@)
}

/// What one turn was warmed up with, and how much of it was used.
#[derive(Debug, Clone, Copy, PartialEq, Eq, Structural)]
pub struct TurnPreheat {
    pub preheated_count: usize,
    pub preheated_used: usize,
    pub preheated_bytes: usize,
}

/// The warm-up of the turn that a message belongs to.
#[derive(Debug)]
pub struct PreheatRow {
    pub message_id: String,
    pub session_id: String,
    pub preheat: TurnPreheat,
}

/// A warm-up, as values.
pub struct PreheatView {
    pub message_id: Seq<char>,
    pub session_id: Seq<char>,
    pub preheat: TurnPreheat,
}

impl View for PreheatRow {
    type V = PreheatView;

    open spec fn view(&self) -> PreheatView {
        PreheatView {
            message_id: self.message_id@,
            session_id: self.session_id@,
            preheat: self.preheat,
        }
    }
}

/// The warm-ups, as values.
pub open spec fn preheat_views(s: Seq<PreheatRow>) -> Seq<PreheatView> {
    Seq::new(s.len(), |i: int| s[i]@)
}

/// All sessions and their transcripts.
pub struct SessionStore {
    pub sessions: Vec<Session>,
    /// The drafts: sessions that nothing was written to yet.
    pub pending: Vec<Session>,
    pub messages: Vec<StoredMessage>,
    pub originals: Vec<Original>,
    pub preheats: Vec<PreheatRow>,
}

/// Whether a session of that id is there.
pub open spec fn has_session(s: Seq<Session>, id: Seq<char>) -> bool {
    exists|i: int| 0 <= i < s.len() && (#[trigger] s[i]).id@ == id
}

/// The place of the session of that id.
pub open spec fn session_place(s: Seq<Session>, id: Seq<char>) -> int {
    choose|i: int| 0 <= i < s.len() && (#[trigger] s[i]).id@ == id
}

/// The session of that id.
pub open spec fn session_of(s: Seq<Session>, id: Seq<char>) -> Session {
    s[session_place(s, id)]
}

/// Whether no two sessions have the same id.
pub open spec fn distinct_ids(s: Seq<Session>) -> bool {
    forall|i: int, j: int|
        #![trigger s[i], s[j]]
        0 <= i < j < s.len() ==> s[i].id@ != s[j].id@
}

/// Whether every session that was copied names a session that is there.
pub open spec fn lineage_kept(s: Seq<Session>) -> bool {
    forall|i: int|
        0 <= i < s.len() ==> ((#[trigger] s[i]).parent_session_id matches Some(p) ==> has_session(
            s,
            p@,
        ))
}

/// Whether the messages have distinct ids, belong to sessions that are there and
/// stand in each transcript by rising places.
pub open spec fn rows_ok(r: Seq<RowView>, s: Seq<Session>) -> bool {
    &&& forall|i: int, j: int|
        #![trigger r[i], r[j]]
        0 <= i < j < r.len() ==> r[i].m.id != r[j].m.id && (r[i].m.session_id == r[j].m.session_id
            ==> r[i].seq < r[j].seq)
    &&& forall|i: int|
        0 <= i < r.len() ==> has_session(s, (#[trigger] r[i]).m.session_id) && r[i].seq >= 0
}

/// Whether the originals have distinct keys and belong to sessions that are there.
pub open spec fn originals_ok(o: Seq<OriginalView>, s: Seq<Session>) -> bool {
    &&& forall|i: int, j: int|
        #![trigger o[i], o[j]]
        0 <= i < j < o.len() ==> o[i].key != o[j].key
    &&& forall|i: int| 0 <= i < o.len() ==> has_session(s, (#[trigger] o[i]).session_id)
}

/// Whether no message has two warm-ups, and each belongs to a session that is
/// there.
pub open spec fn preheats_ok(p: Seq<PreheatView>, s: Seq<Session>) -> bool {
    &&& forall|i: int, j: int|
        #![trigger p[i], p[j]]
        0 <= i < j < p.len() ==> p[i].message_id != p[j].message_id
    &&& forall|i: int| 0 <= i < p.len() ==> has_session(s, (#[trigger] p[i]).session_id)
}

/// The sessions once a draft of that id, if there is one, is written.
pub open spec fn with_draft(s: Seq<Session>, pending: Seq<Session>, id: Seq<char>) -> Seq<Session> {
    if has_session(pending, id) {
        s.push(session_of(pending, id))
    } else {
        s
    }
}

/// The drafts without the one of that id.
pub open spec fn without_draft(pending: Seq<Session>, id: Seq<char>) -> Seq<Session> {
    if has_session(pending, id) {
        pending.remove(session_place(pending, id))
    } else {
        pending
    }
}

/// The sessions with the one of that id, if there is one, changed.
pub open spec fn changed(
    s: Seq<Session>,
    id: Seq<char>,
    f: spec_fn(Session) -> Session,
) -> Seq<Session> {
    if has_session(s, id) {
        s.update(session_place(s, id), f(session_of(s, id)))
    } else {
        s
    }
}

/// A session that has just been made.
pub open spec fn fresh_session(id: String, goal: Option<String>, now_ms: i64) -> Session {
    Session {
        id,
        goal,
        title: None,
        summary: None,
        status: SessionStatus::Active,
        created_at: now_ms,
        updated_at: now_ms,
        phenotype: None,
        mode: None,
        workspace: None,
        model: None,
        mcp_servers: None,
        parent_session_id: None,
        fork_point_seq: None,
    }
}

/// A session that has just been made.
fn new_session(id: String, goal: Option<String>, now_ms: i64) -> (r: Session)
    ensures
        r == fresh_session(id, goal, now_ms),
{
    Session {
        id,
        goal,
        title: None,
        summary: None,
        status: SessionStatus::Active,
        created_at: now_ms,
        updated_at: now_ms,
        phenotype: None,
        mode: None,
        workspace: None,
        model: None,
        mcp_servers: None,
        parent_session_id: None,
        fork_point_seq: None,
    }
}

/// With distinct ids the place of a session is the only one.
pub proof fn lemma_session_place(s: Seq<Session>, i: int)
    requires
        distinct_ids(s),
        0 <= i < s.len(),
    ensures
        has_session(s, s[i].id@),
        session_place(s, s[i].id@) == i,
{
    let p = session_place(s, s[i].id@);
    assert(s[i].id@ == s[i].id@);
    assert(0 <= p < s.len() && s[p].id@ == s[i].id@);
}

/// A further session of a new id keeps the sessions in order.
pub proof fn lemma_push_session(s: Seq<Session>, x: Session)
    requires
        distinct_ids(s),
        lineage_kept(s),
        !has_session(s, x.id@),
        x.parent_session_id matches Some(p) ==> has_session(s, p@),
    ensures
        distinct_ids(s.push(x)),
        lineage_kept(s.push(x)),
        forall|id: Seq<char>| has_session(s, id) ==> #[trigger] has_session(s.push(x), id),
        has_session(s.push(x), x.id@),
        forall|id: Seq<char>| #[trigger]
            has_session(s.push(x), id) ==> has_session(s, id) || id == x.id@,
        session_place(s.push(x), x.id@) == s.len(),
        forall|id: Seq<char>|
            has_session(s, id) ==> #[trigger] session_place(s.push(x), id) == session_place(s, id),
{
    let t = s.push(x);
    assert forall|id: Seq<char>| has_session(s, id) implies #[trigger] has_session(t, id) by {
        assert(t[session_place(s, id)].id@ == id);
    }
    assert forall|i: int, j: int|
        #![trigger t[i], t[j]]
        0 <= i < j < t.len() implies t[i].id@ != t[j].id@ by {
        if j == s.len() {
            assert(s[i].id@ == t[i].id@);
        } else {
            assert(s[i].id@ != s[j].id@);
        }
    }
    assert(t[s.len() as int].id@ == x.id@);
    lemma_session_place(t, s.len() as int);
    assert forall|id: Seq<char>| #[trigger] has_session(t, id) implies has_session(s, id) || id
        == x.id@ by {
        let p = session_place(t, id);
        if p < s.len() {
            assert(s[p].id@ == id);
        }
    }
    assert forall|id: Seq<char>| has_session(s, id) implies #[trigger] session_place(t, id)
        == session_place(s, id) by {
        let p = session_place(s, id);
        assert(t[p].id@ == id);
        lemma_session_place(t, p);
    }
    assert forall|i: int| 0 <= i < t.len() implies ((#[trigger] t[i]).parent_session_id matches Some(
        p,
    ) ==> has_session(t, p@)) by {
        if i < s.len() {
            assert(t[i] == s[i]);
        }
    }
}

/// A session changed in other things than its id and its parent keeps the
/// sessions in order.
pub proof fn lemma_update_session(s: Seq<Session>, i: int, x: Session)
    requires
        distinct_ids(s),
        lineage_kept(s),
        0 <= i < s.len(),
        x.id@ == s[i].id@,
        x.parent_session_id == s[i].parent_session_id,
    ensures
        distinct_ids(s.update(i, x)),
        lineage_kept(s.update(i, x)),
        forall|id: Seq<char>| #[trigger] has_session(s.update(i, x), id) == has_session(s, id),
        forall|id: Seq<char>|
            has_session(s, id) ==> #[trigger] session_place(s.update(i, x), id) == session_place(
                s,
                id,
            ),
{
    let t = s.update(i, x);
    assert forall|id: Seq<char>| #[trigger] has_session(t, id) == has_session(s, id) by {
        if has_session(s, id) {
            let p = session_place(s, id);
            assert(t[p].id@ == id);
        }
        if has_session(t, id) {
            let p = session_place(t, id);
            assert(s[p].id@ == id);
        }
    }
    assert(distinct_ids(t)) by {
        assert forall|a: int, b: int|
            #![trigger t[a], t[b]]
            0 <= a < b < t.len() implies t[a].id@ != t[b].id@ by {
            assert(s[a].id@ != s[b].id@);
        }
    }
    assert forall|id: Seq<char>| has_session(s, id) implies #[trigger] session_place(t, id)
        == session_place(s, id) by {
        let p = session_place(s, id);
        assert(t[p].id@ == id);
        lemma_session_place(t, p);
    }
    assert forall|k: int| 0 <= k < t.len() implies ((#[trigger] t[k]).parent_session_id matches Some(
        p,
    ) ==> has_session(t, p@)) by {
        assert(s[k].parent_session_id == t[k].parent_session_id);
    }
}

/// The index of the session of that id in a list.
fn index_of(v: &Vec<Session>, id: &str) -> (r: Option<usize>)
    requires
        distinct_ids(v@),
    ensures
        match r {
            Some(i) => i < v@.len() && v@[i as int].id@ == id@ && has_session(v@, id@) && i
                == session_place(v@, id@),
            None => !has_session(v@, id@),
        },
{
    let mut i: usize = 0;
    while i < v.len()
        invariant
            distinct_ids(v@),
            i <= v@.len(),
            forall|j: int| 0 <= j < i ==> (#[trigger] v@[j]).id@ != id@,
        decreases v@.len() - i,
    {
        if same_text(v[i].id.as_str(), id) {
            proof {
                lemma_session_place(v@, i as int);
            }
            return Some(i);
        }
        i = i + 1;
    }
    None
}

/// The sessions before `n`, those updated last first.
pub open spec fn latest_first(s: Seq<Session>, n: int) -> Seq<Session>
    decreases n,
{
    if n <= 0 {
        Seq::empty()
    } else {
        let before = latest_first(s, n - 1);
        before.insert(
            not_older(before, s[n - 1].updated_at) as int,
            s[n - 1],
        )
    }
}

/// The number of sessions, from the first, that were updated no earlier.
pub open spec fn not_older(s: Seq<Session>, at: i64) -> nat
    decreases s.len(),
{
    if s.len() > 0 && s[0].updated_at >= at {
        1 + not_older(s.skip(1), at)
    } else {
        0
    }
}

impl SessionStore {
    /// Whether the tables fit together.
    pub open spec fn wf(&self) -> bool {
        &&& distinct_ids(self.sessions@)
        &&& lineage_kept(self.sessions@)
        &&& distinct_ids(self.pending@)
        &&& forall|i: int|
            0 <= i < self.pending@.len() ==> !has_session(
                self.sessions@,
                (#[trigger] self.pending@[i]).id@,
            ) && self.pending@[i].parent_session_id is None
        &&& rows_ok(rows(self.messages@), self.sessions@)
        &&& originals_ok(original_views(self.originals@), self.sessions@)
        &&& preheats_ok(preheat_views(self.preheats@), self.sessions@)
    }

    /// Whether the transcripts and what belongs to them are the same.
    pub open spec fn same_transcripts(&self, other: &SessionStore) -> bool {
        &&& self.messages@ == other.messages@
        &&& self.originals@ == other.originals@
        &&& self.preheats@ == other.preheats@
    }

    /// Whether a session of that id is known, as a draft or not.
    pub open spec fn knows(&self, id: Seq<char>) -> bool {
        has_session(self.sessions@, id) || has_session(self.pending@, id)
    }

    /// A store without sessions.
    pub fn new() -> (r: Self)
        ensures
            r.wf(),
            r.sessions@ == Seq::<Session>::empty(),
            r.pending@ == Seq::<Session>::empty(),
            r.messages@ == Seq::<StoredMessage>::empty(),
            r.originals@ == Seq::<Original>::empty(),
            r.preheats@ == Seq::<PreheatRow>::empty(),
    {
        SessionStore {
            sessions: Vec::new(),
            pending: Vec::new(),
            messages: Vec::new(),
            originals: Vec::new(),
            preheats: Vec::new(),
        }
    }

    /// The place of the session of that id.
    pub(crate) fn find_session(&self, id: &str) -> (r: Option<usize>)
        requires
            self.wf(),
        ensures
            match r {
                Some(i) => i < self.sessions@.len() && self.sessions@[i as int].id@ == id@
                    && has_session(self.sessions@, id@) && i == session_place(
                    self.sessions@,
                    id@,
                ),
                None => !has_session(self.sessions@, id@),
            },
    {
        index_of(&self.sessions, id)
    }

    /// Makes a session under a new id.
    pub fn create_session(&mut self, id: String, goal: Option<String>, now_ms: i64) -> (r: Session)
        requires
            old(self).wf(),
            !old(self).knows(id@),
        ensures
            final(self).wf(),
            final(self).same_transcripts(old(self)),
            final(self).pending@ == old(self).pending@,
            r == fresh_session(id, goal, now_ms),
            final(self).sessions@ == old(self).sessions@.push(r),
    {
        let s: Session = new_session(id, goal, now_ms);
        proof {
            lemma_push_session(self.sessions@, s);
        }
        let copy: Session = s.clone();
        self.sessions.push(s);
        copy
    }

    /// Makes a draft under a new id: a session that is neither listed nor kept
    /// until something is written to it.
    pub fn create_draft_session(&mut self, id: String, now_ms: i64) -> (r: Session)
        requires
            old(self).wf(),
            !old(self).knows(id@),
        ensures
            final(self).wf(),
            final(self).same_transcripts(old(self)),
            final(self).sessions@ == old(self).sessions@,
            r == fresh_session(id, None, now_ms),
            final(self).pending@ == old(self).pending@.push(r),
    {
        let s: Session = new_session(id, None, now_ms);
        let copy: Session = s.clone();
        proof {
            let t = self.pending@.push(s);
            assert forall|i: int, j: int|
                #![trigger t[i], t[j]]
                0 <= i < j < t.len() implies t[i].id@ != t[j].id@ by {
                if j == self.pending@.len() {
                    assert(self.pending@[i].id@ == t[i].id@);
                } else {
                    assert(self.pending@[i].id@ != self.pending@[j].id@);
                }
            }
        }
        self.pending.push(s);
        copy
    }

    /// Writes the draft of that id, if there is one, to the table of sessions.
    pub(crate) fn flush_pending(&mut self, id: &str)
        requires
            old(self).wf(),
        ensures
            final(self).wf(),
            final(self).same_transcripts(old(self)),
            final(self).sessions@ == with_draft(old(self).sessions@, old(self).pending@, id@),
            final(self).pending@ == without_draft(old(self).pending@, id@),
            forall|x: Seq<char>|
                has_session(old(self).sessions@, x) ==> #[trigger] has_session(
                    final(self).sessions@,
                    x,
                ),
            has_session(final(self).sessions@, id@) == old(self).knows(id@),
            !has_session(final(self).pending@, id@),
    {
        match index_of(&self.pending, id) {
            Some(i) => {
                let ghost before = self.pending@;
                let ghost listed = self.sessions@;
                let s: Session = self.pending.remove(i);
                proof {
                    let after = self.pending@;
                    assert(after =~= before.remove(i as int));
                    lemma_push_session(listed, s);
                    assert forall|a: int, b: int|
                        #![trigger after[a], after[b]]
                        0 <= a < b < after.len() implies after[a].id@ != after[b].id@ by {
                        let x = if a < i {
                            a
                        } else {
                            a + 1
                        };
                        let y = if b < i {
                            b
                        } else {
                            b + 1
                        };
                        assert(after[a] == before[x] && after[b] == before[y]);
                    }
                    assert forall|a: int| 0 <= a < after.len() implies !has_session(
                        listed.push(s),
                        (#[trigger] after[a]).id@,
                    ) && after[a].parent_session_id is None && after[a].id@ != id@ by {
                        let x = if a < i {
                            a
                        } else {
                            a + 1
                        };
                        assert(after[a] == before[x]);
                        assert(before[x].id@ != before[i as int].id@);
                    }
                }
                self.sessions.push(s);
            },
            None => {},
        }
    }

    /// Drops the draft of that id; tells whether there was one.
    pub(crate) fn drop_draft(&mut self, id: &str) -> (r: bool)
        requires
            old(self).wf(),
        ensures
            final(self).wf(),
            final(self).same_transcripts(old(self)),
            final(self).sessions@ == old(self).sessions@,
            final(self).pending@ == without_draft(old(self).pending@, id@),
            r == has_session(old(self).pending@, id@),
    {
        match index_of(&self.pending, id) {
            Some(i) => {
                let ghost before = self.pending@;
                self.pending.remove(i);
                proof {
                    let after = self.pending@;
                    assert(after =~= before.remove(i as int));
                    assert forall|a: int, b: int|
                        #![trigger after[a], after[b]]
                        0 <= a < b < after.len() implies after[a].id@ != after[b].id@ by {
                        let x = if a < i {
                            a
                        } else {
                            a + 1
                        };
                        let y = if b < i {
                            b
                        } else {
                            b + 1
                        };
                        assert(after[a] == before[x] && after[b] == before[y]);
                    }
                    assert forall|a: int| 0 <= a < after.len() implies !has_session(
                        self.sessions@,
                        (#[trigger] after[a]).id@,
                    ) && after[a].parent_session_id is None by {
                        let x = if a < i {
                            a
                        } else {
                            a + 1
                        };
                        assert(after[a] == before[x]);
                    }
                }
                true
            },
            None => false,
        }
    }

    /// Puts a session in the place of the one of the same id.
    pub(crate) fn put_session(&mut self, i: usize, s: Session)
        requires
            old(self).wf(),
            i < old(self).sessions@.len(),
            s.id == old(self).sessions@[i as int].id,
            s.parent_session_id == old(self).sessions@[i as int].parent_session_id,
        ensures
            final(self).wf(),
            final(self).same_transcripts(old(self)),
            final(self).pending@ == old(self).pending@,
            final(self).sessions@ == old(self).sessions@.update(i as int, s),
            forall|x: Seq<char>| #[trigger]
                has_session(final(self).sessions@, x) == has_session(old(self).sessions@, x),
    {
        proof {
            lemma_update_session(self.sessions@, i as int, s);
        }
        self.sessions.set(i, s);
    }

    /// Sets when a session was last updated.
    pub(crate) fn touch(&mut self, session_id: &str, now_ms: i64)
        requires
            old(self).wf(),
        ensures
            final(self).wf(),
            final(self).same_transcripts(old(self)),
            final(self).pending@ == old(self).pending@,
            final(self).sessions@ == changed(
                old(self).sessions@,
                session_id@,
                |s: Session| (Session { updated_at: now_ms, ..s }),
            ),
            forall|x: Seq<char>| #[trigger]
                has_session(final(self).sessions@, x) == has_session(old(self).sessions@, x),
    {
        if let Some(i) = self.find_session(session_id) {
            let mut s: Session = self.sessions[i].clone();
            s.updated_at = now_ms;
            self.put_session(i, s);
        }
    }

    /// Sets the title of a session. An unknown session is passed over.
    pub fn set_title(&mut self, session_id: &str, title: String, now_ms: i64)
        requires
            old(self).wf(),
        ensures
            final(self).wf(),
            final(self).same_transcripts(old(self)),
            final(self).pending@ == without_draft(old(self).pending@, session_id@),
            final(self).sessions@ == changed(
                with_draft(old(self).sessions@, old(self).pending@, session_id@),
                session_id@,
                |s: Session| (Session { title: Some(title), updated_at: now_ms, ..s }),
            ),
    {
        self.flush_pending(session_id);
        if let Some(i) = self.find_session(session_id) {
            let mut s: Session = self.sessions[i].clone();
            s.title = Some(title);
            s.updated_at = now_ms;
            self.put_session(i, s);
        }
    }

    /// Binds a session to a phenotype, or to none.
    pub fn set_session_phenotype(
        &mut self,
        session_id: &str,
        phenotype: Option<String>,
        now_ms: i64,
    )
        requires
            old(self).wf(),
        ensures
            final(self).wf(),
            final(self).same_transcripts(old(self)),
            final(self).pending@ == without_draft(old(self).pending@, session_id@),
            final(self).sessions@ == changed(
                with_draft(old(self).sessions@, old(self).pending@, session_id@),
                session_id@,
                |s: Session| (Session { phenotype, updated_at: now_ms, ..s }),
            ),
    {
        self.flush_pending(session_id);
        if let Some(i) = self.find_session(session_id) {
            let mut s: Session = self.sessions[i].clone();
            s.phenotype = phenotype;
            s.updated_at = now_ms;
            self.put_session(i, s);
        }
    }

    /// The phenotype that a session is bound to.
    pub fn session_phenotype(&self, session_id: &str) -> (r: Option<String>)
        requires
            self.wf(),
        ensures
            r == if has_session(self.sessions@, session_id@) {
                session_of(self.sessions@, session_id@).phenotype
            } else {
                None
            },
    {
        match self.find_session(session_id) {
            Some(i) => copy_opt(&self.sessions[i].phenotype),
            None => None,
        }
    }

    /// Binds a session to a mode, or to none.
    pub fn set_session_mode(&mut self, session_id: &str, mode: Option<Mode>, now_ms: i64)
        requires
            old(self).wf(),
        ensures
            final(self).wf(),
            final(self).same_transcripts(old(self)),
            final(self).pending@ == without_draft(old(self).pending@, session_id@),
            final(self).sessions@ == changed(
                with_draft(old(self).sessions@, old(self).pending@, session_id@),
                session_id@,
                |s: Session| (Session { mode, updated_at: now_ms, ..s }),
            ),
    {
        self.flush_pending(session_id);
        if let Some(i) = self.find_session(session_id) {
            let mut s: Session = self.sessions[i].clone();
            s.mode = mode;
            s.updated_at = now_ms;
            self.put_session(i, s);
        }
    }

    /// The mode that a session is bound to.
    pub fn session_mode(&self, session_id: &str) -> (r: Option<Mode>)
        requires
            self.wf(),
        ensures
            r == if has_session(self.sessions@, session_id@) {
                session_of(self.sessions@, session_id@).mode
            } else {
                None
            },
    {
        match self.find_session(session_id) {
            Some(i) => self.sessions[i].mode,
            None => None,
        }
    }

    /// Sets the working directory of a session, or clears it.
    pub fn set_session_workspace(
        &mut self,
        session_id: &str,
        workspace: Option<String>,
        now_ms: i64,
    )
        requires
            old(self).wf(),
        ensures
            final(self).wf(),
            final(self).same_transcripts(old(self)),
            final(self).pending@ == without_draft(old(self).pending@, session_id@),
            final(self).sessions@ == changed(
                with_draft(old(self).sessions@, old(self).pending@, session_id@),
                session_id@,
                |s: Session| (Session { workspace, updated_at: now_ms, ..s }),
            ),
    {
        self.flush_pending(session_id);
        if let Some(i) = self.find_session(session_id) {
            let mut s: Session = self.sessions[i].clone();
            s.workspace = workspace;
            s.updated_at = now_ms;
            self.put_session(i, s);
        }
    }

    /// The working directory of a session.
    pub fn session_workspace(&self, session_id: &str) -> (r: Option<String>)
        requires
            self.wf(),
        ensures
            r == if has_session(self.sessions@, session_id@) {
                session_of(self.sessions@, session_id@).workspace
            } else {
                None
            },
    {
        match self.find_session(session_id) {
            Some(i) => copy_opt(&self.sessions[i].workspace),
            None => None,
        }
    }

    /// Binds a session to a model, or to none.
    pub fn set_session_model(
        &mut self,
        session_id: &str,
        model: Option<ModelSelection>,
        now_ms: i64,
    )
        requires
            old(self).wf(),
        ensures
            final(self).wf(),
            final(self).same_transcripts(old(self)),
            final(self).pending@ == without_draft(old(self).pending@, session_id@),
            final(self).sessions@ == changed(
                with_draft(old(self).sessions@, old(self).pending@, session_id@),
                session_id@,
                |s: Session| (Session { model, updated_at: now_ms, ..s }),
            ),
    {
        self.flush_pending(session_id);
        if let Some(i) = self.find_session(session_id) {
            let mut s: Session = self.sessions[i].clone();
            s.model = model;
            s.updated_at = now_ms;
            self.put_session(i, s);
        }
    }

    /// The model that a session is bound to.
    pub fn session_model(&self, session_id: &str) -> (r: Option<ModelSelection>)
        requires
            self.wf(),
        ensures
            r == if has_session(self.sessions@, session_id@) {
                session_of(self.sessions@, session_id@).model
            } else {
                None
            },
    {
        match self.find_session(session_id) {
            Some(i) => match &self.sessions[i].model {
                Some(m) => Some(m.clone()),
                None => None,
            },
            None => None,
        }
    }

    /// Sets the tool servers of a session, as a JSON array, or clears them.
    pub fn set_session_mcp_servers(
        &mut self,
        session_id: &str,
        servers: Option<String>,
        now_ms: i64,
    )
        requires
            old(self).wf(),
        ensures
            final(self).wf(),
            final(self).same_transcripts(old(self)),
            final(self).pending@ == without_draft(old(self).pending@, session_id@),
            final(self).sessions@ == changed(
                with_draft(old(self).sessions@, old(self).pending@, session_id@),
                session_id@,
                |s: Session| (Session { mcp_servers: servers, updated_at: now_ms, ..s }),
            ),
    {
        self.flush_pending(session_id);
        if let Some(i) = self.find_session(session_id) {
            let mut s: Session = self.sessions[i].clone();
            s.mcp_servers = servers;
            s.updated_at = now_ms;
            self.put_session(i, s);
        }
    }

    /// The tool servers of a session, as a JSON array.
    pub fn session_mcp_servers(&self, session_id: &str) -> (r: Option<String>)
        requires
            self.wf(),
        ensures
            r == if has_session(self.sessions@, session_id@) {
                session_of(self.sessions@, session_id@).mcp_servers
            } else {
                None
            },
    {
        match self.find_session(session_id) {
            Some(i) => copy_opt(&self.sessions[i].mcp_servers),
            None => None,
        }
    }

    /// Sets where a session stands.
    pub fn set_status(&mut self, session_id: &str, status: SessionStatus, now_ms: i64)
        requires
            old(self).wf(),
        ensures
            final(self).wf(),
            final(self).same_transcripts(old(self)),
            final(self).pending@ == without_draft(old(self).pending@, session_id@),
            final(self).sessions@ == changed(
                with_draft(old(self).sessions@, old(self).pending@, session_id@),
                session_id@,
                |s: Session| (Session { status, updated_at: now_ms, ..s }),
            ),
    {
        self.flush_pending(session_id);
        if let Some(i) = self.find_session(session_id) {
            let mut s: Session = self.sessions[i].clone();
            s.status = status;
            s.updated_at = now_ms;
            self.put_session(i, s);
        }
    }

    /// The session of that id, a draft included.
    pub fn get_session(&self, session_id: &str) -> (r: Option<Session>)
        requires
            self.wf(),
        ensures
            r == if has_session(self.sessions@, session_id@) {
                Some(session_of(self.sessions@, session_id@))
            } else if has_session(self.pending@, session_id@) {
                Some(session_of(self.pending@, session_id@))
            } else {
                None
            },
    {
        match self.find_session(session_id) {
            Some(i) => Some(self.sessions[i].clone()),
            None => match index_of(&self.pending, session_id) {
                Some(i) => Some(self.pending[i].clone()),
                None => None,
            },
        }
    }

    /// All sessions but the drafts, those updated last first.
    pub fn list_sessions(&self) -> (r: Vec<Session>)
        ensures
            r@ == latest_first(self.sessions@, self.sessions@.len() as int),
    {
        let mut out: Vec<Session> = Vec::new();
        let mut n: usize = 0;
        while n < self.sessions.len()
            invariant
                n <= self.sessions@.len(),
                out@ == latest_first(self.sessions@, n as int),
            decreases self.sessions@.len() - n,
        {
            let s: Session = self.sessions[n].clone();
            let ghost before = out@;
            let mut k: usize = 0;
            proof {
                assert(before.skip(0) =~= before);
            }
            while k < out.len() && out[k].updated_at >= s.updated_at
                invariant
                    k <= before.len(),
                    out@ == before,
                    not_older(before, s.updated_at) == k + not_older(
                        before.skip(k as int),
                        s.updated_at,
                    ),
                decreases before.len() - k,
            {
                proof {
                    assert(before.skip(k as int)[0] == before[k as int]);
                    assert(before.skip(k as int).skip(1) =~= before.skip(k + 1));
                }
                k = k + 1;
            }
            proof {
                if k < before.len() {
                    assert(before.skip(k as int)[0] == before[k as int]);
                }
            }
            out.insert(k, s);
            n = n + 1;
        }
        out
    }
}

/// What the place of a session in the list goes by.
proof fn lemma_not_older(s: Seq<Session>, at: i64)
    ensures
        not_older(s, at) <= s.len(),
        forall|i: int| 0 <= i < not_older(s, at) ==> (#[trigger] s[i]).updated_at >= at,
        not_older(s, at) < s.len() ==> s[not_older(s, at) as int].updated_at < at,
    decreases s.len(),
{
    if s.len() > 0 && s[0].updated_at >= at {
        lemma_not_older(s.skip(1), at);
        assert forall|i: int| 0 <= i < not_older(s, at) implies (#[trigger] s[i]).updated_at
            >= at by {
            if i > 0 {
                assert(s[i] == s.skip(1)[i - 1]);
            }
        }
    }
}

/// The list holds every session once, and none stands before one that was
/// updated later.
pub proof fn law_sessions_are_listed_latest_first(s: Seq<Session>, n: int)
    requires
        0 <= n <= s.len(),
    ensures
        latest_first(s, n).to_multiset() == s.take(n).to_multiset(),
        forall|i: int, j: int|
            #![trigger latest_first(s, n)[i], latest_first(s, n)[j]]
            0 <= i < j < latest_first(s, n).len() ==> latest_first(s, n)[i].updated_at
                >= latest_first(s, n)[j].updated_at,
    decreases n,
{
    broadcast use vstd::seq_lib::group_to_multiset_ensures;

    if n == 0 {
        assert(s.take(0) =~= Seq::<Session>::empty());
    } else {
        law_sessions_are_listed_latest_first(s, n - 1);
        let x = s[n - 1];
        let before = latest_first(s, n - 1);
        let k = not_older(before, x.updated_at) as int;
        lemma_not_older(before, x.updated_at);
        let after = before.insert(k, x);
        assert forall|i: int, j: int|
            #![trigger after[i], after[j]]
            0 <= i < j < after.len() implies after[i].updated_at >= after[j].updated_at by {
            let a = if i < k {
                i
            } else {
                i - 1
            };
            let b = if j < k {
                j
            } else {
                j - 1
            };
            if i == k {
                assert(after[j] == before[b]);
                assert(before[k].updated_at < x.updated_at);
                if k < b {
                    assert(before[k].updated_at >= before[b].updated_at);
                }
            } else if j == k {
                assert(after[i] == before[a]);
            } else {
                assert(after[i] == before[a] && after[j] == before[b]);
            }
        }
        assert(after.remove(k) =~= before);
        assert(after[k] == x);
        assert(after.contains(x));
        assert(after.remove(k).to_multiset() == after.to_multiset().remove(x));
        assert(after.to_multiset() =~= before.to_multiset().insert(x));
        assert(s.take(n) =~= s.take(n - 1).push(x));
        assert(s.take(n - 1).push(x).to_multiset() == s.take(n - 1).to_multiset().insert(x));
    }
}

} // verus!
