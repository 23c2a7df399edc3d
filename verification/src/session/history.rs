//! Operations on a whole history: deleting a session, editing a message and
//! dropping what followed it, and copying a session.
use vstd::prelude::*;
use vstd::string::*;
use crate::seqs;
use crate::session::compaction;
use crate::session::store;
use crate::session::store::{
    Original,
    OriginalView,
    PreheatRow,
    PreheatView,
    RowView,
    SessionStore,
    StoredMessage,
};
use crate::session::transcript;
use crate::session::types;
use crate::session::types::{Attachment, Message, MessageView, Role, Session};
use crate::text;
use crate::text::{copy_opt, same_text};

verus! {

// ---------------------------------------------------------------------------
// Deleting
// ---------------------------------------------------------------------------

/// Whether a session is another one.
pub open spec fn other_session(id: Seq<char>) -> spec_fn(Session) -> bool {
    |s: Session| s.id@ != id
}

/// A session whose parent is gone: it stays, without a parent.
pub open spec fn bereaved(s: Session, parent: Seq<char>) -> Session {
    if s.parent_session_id is Some && s.parent_session_id->0@ == parent {
        Session { parent_session_id: None, ..s }
    } else {
        s
    }
}

/// The sessions that are left when one is deleted.
pub open spec fn sessions_left(s: Seq<Session>, id: Seq<char>) -> Seq<Session> {
    s.filter(other_session(id)).map_values(|x: Session| bereaved(x, id))
}

/// Whether a row belongs to another session.
pub open spec fn not_of_session(id: Seq<char>) -> spec_fn(RowView) -> bool {
    |r: RowView| r.m.session_id != id
}

/// Whether an original belongs to another session.
pub open spec fn original_elsewhere(id: Seq<char>) -> spec_fn(OriginalView) -> bool {
    |o: OriginalView| o.session_id != id
}

/// Whether a warm-up belongs to another session.
pub open spec fn preheat_elsewhere(id: Seq<char>) -> spec_fn(PreheatView) -> bool {
    |p: PreheatView| p.session_id != id
}

/// What is left when a session is deleted fits together.
proof fn lemma_sessions_left(s: Seq<Session>, id: Seq<char>)
    requires
        store::distinct_ids(s),
        store::lineage_kept(s),
    ensures
        store::distinct_ids(sessions_left(s, id)),
        store::lineage_kept(sessions_left(s, id)),
        forall|x: Seq<char>| #[trigger]
            store::has_session(sessions_left(s, id), x) == (store::has_session(s, x) && x != id),
{
    let f = s.filter(other_session(id));
    let t = sessions_left(s, id);
    seqs::lemma_filter_pairwise(
        s,
        other_session(id),
        |a: Session, b: Session| a.id@ != b.id@,
    );
    assert forall|i: int, j: int|
        #![trigger t[i], t[j]]
        0 <= i < j < t.len() implies t[i].id@ != t[j].id@ by {
        assert(f[i].id@ != f[j].id@);
        assert(t[i] == bereaved(f[i], id) && t[j] == bereaved(f[j], id));
    }
    assert forall|x: Seq<char>| #[trigger] store::has_session(t, x) == (store::has_session(s, x) && x
        != id) by {
        if store::has_session(t, x) {
            let i = store::session_place(t, x);
            assert(t[i] == bereaved(f[i], id));
            seqs::lemma_filter_from(s, other_session(id), i);
            let m = choose|m: int| 0 <= m < s.len() && s[m] == f[i];
            assert(s[m].id@ == x);
        }
        if store::has_session(s, x) && x != id {
            let i = store::session_place(s, x);
            s.lemma_filter_contains(other_session(id), i);
            let m = choose|m: int| 0 <= m < f.len() && f[m] == s[i];
            assert(t[m] == bereaved(f[m], id));
            assert(t[m].id@ == x);
        }
    }
    assert forall|i: int| 0 <= i < t.len() implies ((#[trigger] t[i]).parent_session_id matches Some(
        p,
    ) ==> store::has_session(t, p@)) by {
        assert(t[i] == bereaved(f[i], id));
        seqs::lemma_filter_from(s, other_session(id), i);
        let m = choose|m: int| 0 <= m < s.len() && s[m] == f[i];
        assert(s[m].parent_session_id == f[i].parent_session_id);
        if let Some(p) = t[i].parent_session_id {
            assert(store::has_session(s, p@));
            assert(p@ != id);
        }
    }
}

/// Rows that pass a filter are in order, where their sessions are there.
proof fn lemma_rows_left(
    r: Seq<RowView>,
    p: spec_fn(RowView) -> bool,
    s: Seq<Session>,
    t: Seq<Session>,
)
    requires
        store::rows_ok(r, s),
        forall|i: int|
            0 <= i < r.len() && p(#[trigger] r[i]) ==> store::has_session(t, r[i].m.session_id),
    ensures
        store::rows_ok(r.filter(p), t),
{
    let f = r.filter(p);
    seqs::lemma_filter_pairwise(
        r,
        p,
        |a: RowView, b: RowView|
            a.m.id != b.m.id && (a.m.session_id == b.m.session_id ==> a.seq < b.seq),
    );
    assert forall|i: int| 0 <= i < f.len() implies store::has_session(
        t,
        (#[trigger] f[i]).m.session_id,
    ) && f[i].seq >= 0 by {
        seqs::lemma_filter_from(r, p, i);
        let m = choose|m: int| 0 <= m < r.len() && r[m] == f[i];
        assert(p(r[m]));
    }
}

/// Originals that pass a filter fit, where their sessions are there.
proof fn lemma_originals_left(
    o: Seq<OriginalView>,
    p: spec_fn(OriginalView) -> bool,
    s: Seq<Session>,
    t: Seq<Session>,
)
    requires
        store::originals_ok(o, s),
        forall|i: int|
            0 <= i < o.len() && p(#[trigger] o[i]) ==> store::has_session(t, o[i].session_id),
    ensures
        store::originals_ok(o.filter(p), t),
{
    let f = o.filter(p);
    seqs::lemma_filter_pairwise(o, p, |a: OriginalView, b: OriginalView| a.key != b.key);
    assert forall|i: int| 0 <= i < f.len() implies store::has_session(
        t,
        (#[trigger] f[i]).session_id,
    ) by {
        seqs::lemma_filter_from(o, p, i);
        let m = choose|m: int| 0 <= m < o.len() && o[m] == f[i];
        assert(p(o[m]));
    }
}

/// Warm-ups that pass a filter fit, where their sessions are there.
proof fn lemma_preheats_left(
    v: Seq<PreheatView>,
    p: spec_fn(PreheatView) -> bool,
    s: Seq<Session>,
    t: Seq<Session>,
)
    requires
        store::preheats_ok(v, s),
        forall|i: int|
            0 <= i < v.len() && p(#[trigger] v[i]) ==> store::has_session(t, v[i].session_id),
    ensures
        store::preheats_ok(v.filter(p), t),
{
    let f = v.filter(p);
    seqs::lemma_filter_pairwise(v, p, |a: PreheatView, b: PreheatView| a.message_id != b.message_id);
    assert forall|i: int| 0 <= i < f.len() implies store::has_session(
        t,
        (#[trigger] f[i]).session_id,
    ) by {
        seqs::lemma_filter_from(v, p, i);
        let m = choose|m: int| 0 <= m < v.len() && v[m] == f[i];
        assert(p(v[m]));
    }
}

/// A copy of an original.
fn copy_original(o: &Original) -> (r: Original)
    ensures
        r@ == o@,
{
    Original {
        key: o.key.clone(),
        session_id: o.session_id.clone(),
        message_id: copy_opt(&o.message_id),
        content: o.content.clone(),
    }
}

/// The sessions that are left when one is deleted.
fn keep_sessions(v: &Vec<Session>, id: &str) -> (r: Vec<Session>)
    ensures
        r@ == sessions_left(v@, id@),
{
    let ghost others = other_session(id@);
    let ghost f = |x: Session| bereaved(x, id@);
    let mut out: Vec<Session> = Vec::new();
    let mut i: usize = 0;
    proof {
        reveal(Seq::filter);
        assert(out@ =~= v@.take(0).filter(others).map_values(f));
    }
    while i < v.len()
        invariant
            i <= v@.len(),
            others == other_session(id@),
            f == (|x: Session| bereaved(x, id@)),
            out@ == v@.take(i as int).filter(others).map_values(f),
        decreases v@.len() - i,
    {
        let ghost upto = v@.take(i as int).filter(others);
        proof {
            seqs::lemma_filter_take(v@, others, i as int);
        }
        if !same_text(v[i].id.as_str(), id) {
            let mut s: Session = v[i].clone();
            let gone: bool = match &s.parent_session_id {
                Some(p) => same_text(p.as_str(), id),
                None => false,
            };
            if gone {
                s.parent_session_id = None;
            }
            proof {
                assert(s == f(v@[i as int]));
                assert(upto.push(v@[i as int]).map_values(f) =~= upto.map_values(f).push(s));
            }
            out.push(s);
        }
        i = i + 1;
    }
    proof {
        assert(v@.take(i as int) =~= v@);
    }
    out
}

/// The rows of other sessions.
fn keep_rows(v: &Vec<StoredMessage>, id: &str) -> (r: Vec<StoredMessage>)
    ensures
        store::rows(r@) == store::rows(v@).filter(not_of_session(id@)),
{
    let ghost all = store::rows(v@);
    let ghost others = not_of_session(id@);
    let mut out: Vec<StoredMessage> = Vec::new();
    let mut i: usize = 0;
    proof {
        reveal(Seq::filter);
        assert(store::rows(out@) =~= all.take(0).filter(others));
    }
    while i < v.len()
        invariant
            i <= v@.len(),
            all == store::rows(v@),
            others == not_of_session(id@),
            store::rows(out@) == all.take(i as int).filter(others),
        decreases v@.len() - i,
    {
        let ghost before = store::rows(out@);
        proof {
            seqs::lemma_filter_take(all, others, i as int);
            assert(all[i as int] == v@[i as int]@);
        }
        if !same_text(v[i].message.session_id.as_str(), id) {
            out.push(StoredMessage { seq: v[i].seq, message: v[i].message.clone() });
            proof {
                assert(store::rows(out@) =~= before.push(all[i as int]));
            }
        }
        i = i + 1;
    }
    proof {
        assert(all.take(i as int) =~= all);
    }
    out
}

/// The originals of other sessions.
fn keep_originals(v: &Vec<Original>, id: &str) -> (r: Vec<Original>)
    ensures
        store::original_views(r@) == store::original_views(v@).filter(original_elsewhere(id@)),
{
    let ghost all = store::original_views(v@);
    let ghost others = original_elsewhere(id@);
    let mut out: Vec<Original> = Vec::new();
    let mut i: usize = 0;
    proof {
        reveal(Seq::filter);
        assert(store::original_views(out@) =~= all.take(0).filter(others));
    }
    while i < v.len()
        invariant
            i <= v@.len(),
            all == store::original_views(v@),
            others == original_elsewhere(id@),
            store::original_views(out@) == all.take(i as int).filter(others),
        decreases v@.len() - i,
    {
        let ghost before = store::original_views(out@);
        proof {
            seqs::lemma_filter_take(all, others, i as int);
            assert(all[i as int] == v@[i as int]@);
        }
        if !same_text(v[i].session_id.as_str(), id) {
            out.push(copy_original(&v[i]));
            proof {
                assert(store::original_views(out@) =~= before.push(all[i as int]));
            }
        }
        i = i + 1;
    }
    proof {
        assert(all.take(i as int) =~= all);
    }
    out
}

/// The warm-ups of other sessions.
fn keep_preheats(v: &Vec<PreheatRow>, id: &str) -> (r: Vec<PreheatRow>)
    ensures
        store::preheat_views(r@) == store::preheat_views(v@).filter(preheat_elsewhere(id@)),
{
    let ghost all = store::preheat_views(v@);
    let ghost others = preheat_elsewhere(id@);
    let mut out: Vec<PreheatRow> = Vec::new();
    let mut i: usize = 0;
    proof {
        reveal(Seq::filter);
        assert(store::preheat_views(out@) =~= all.take(0).filter(others));
    }
    while i < v.len()
        invariant
            i <= v@.len(),
            all == store::preheat_views(v@),
            others == preheat_elsewhere(id@),
            store::preheat_views(out@) == all.take(i as int).filter(others),
        decreases v@.len() - i,
    {
        let ghost before = store::preheat_views(out@);
        proof {
            seqs::lemma_filter_take(all, others, i as int);
            assert(all[i as int] == v@[i as int]@);
        }
        if !same_text(v[i].session_id.as_str(), id) {
            out.push(
                PreheatRow {
                    message_id: v[i].message_id.clone(),
                    session_id: v[i].session_id.clone(),
                    preheat: v[i].preheat,
                },
            );
            proof {
                assert(store::preheat_views(out@) =~= before.push(all[i as int]));
            }
        }
        i = i + 1;
    }
    proof {
        assert(all.take(i as int) =~= all);
    }
    out
}

// ---------------------------------------------------------------------------
// Editing
// ---------------------------------------------------------------------------

/// Why an edit was refused. The transcript is then as it was.
#[derive(Debug, Clone, PartialEq, Eq)]
pub enum EditMessageError {
    /// The session has no message of that id.
    UnknownMessage,
    /// The message is not the user's.
    NotUserMessage,
    /// The edit could not be stored.
    Storage(String),
}

impl EditMessageError {
    /// Why the edit was refused, in words.
    pub fn message(&self) -> (r: String)
        ensures
            r@ == match *self {
                EditMessageError::UnknownMessage => "no such message in this session"@,
                EditMessageError::NotUserMessage => "only user messages can be edited"@,
                EditMessageError::Storage(msg) => "storage error while editing message: "@ + msg@,
            },
    {
        match self {
            EditMessageError::UnknownMessage => "no such message in this session".to_owned(),
            EditMessageError::NotUserMessage => "only user messages can be edited".to_owned(),
            EditMessageError::Storage(msg) => {
                let mut out: String = "storage error while editing message: ".to_owned();
                out.append(msg.as_str());
                out
            },
        }
    }
}

/// Whether a row stays when a session is cut behind a place.
pub open spec fn stays(session: Seq<char>, seq: int) -> spec_fn(RowView) -> bool {
    |r: RowView| !(r.m.session_id == session && r.seq > seq)
}

/// Whether a message of that id stands behind a place of a session.
pub open spec fn cut_off(r: Seq<RowView>, session: Seq<char>, seq: int, id: Seq<char>) -> bool {
    exists|i: int|
        0 <= i < r.len() && (#[trigger] r[i]).m.id == id && r[i].m.session_id == session && r[i].seq
            > seq
}

/// Whether an original stays when a session is cut behind a place: those of the
/// messages that are dropped do not.
pub open spec fn original_stays(
    r: Seq<RowView>,
    session: Seq<char>,
    seq: int,
) -> spec_fn(OriginalView) -> bool {
    |o: OriginalView|
        !(o.session_id == session && o.message_id is Some && cut_off(
            r,
            session,
            seq,
            o.message_id->0,
        ))
}

/// The rows with a message edited and what followed it in its session dropped.
pub open spec fn edited(
    r: Seq<RowView>,
    i: int,
    content: Seq<char>,
    attachments: Option<Seq<Attachment>>,
) -> Seq<RowView> {
    let m = r[i].m;
    r.update(
        i,
        RowView {
            m: MessageView {
                content,
                attachments: transcript::kept_attachments(attachments),
                ..m
            },
            ..r[i]
        },
    ).filter(stays(m.session_id, r[i].seq))
}

/// Whether a message of that id stands behind a place of a session.
fn is_cut_off(v: &Vec<StoredMessage>, session_id: &str, seq: i64, id: &str) -> (r: bool)
    ensures
        r == cut_off(store::rows(v@), session_id@, seq as int, id@),
{
    let ghost all = store::rows(v@);
    let mut i: usize = 0;
    while i < v.len()
        invariant
            i <= v@.len(),
            all == store::rows(v@),
            forall|j: int|
                0 <= j < i ==> !((#[trigger] all[j]).m.id == id@ && all[j].m.session_id
                    == session_id@ && all[j].seq > seq),
        decreases v@.len() - i,
    {
        proof {
            assert(all[i as int] == v@[i as int]@);
        }
        if v[i].seq > seq && same_text(v[i].message.session_id.as_str(), session_id) && same_text(
            v[i].message.id.as_str(),
            id,
        ) {
            return true;
        }
        i = i + 1;
    }
    false
}

/// The rows that stay when a session is cut behind a place.
fn cut_rows(v: &Vec<StoredMessage>, session_id: &str, seq: i64) -> (r: Vec<StoredMessage>)
    ensures
        store::rows(r@) == store::rows(v@).filter(stays(session_id@, seq as int)),
{
    let ghost all = store::rows(v@);
    let ghost keep = stays(session_id@, seq as int);
    let mut out: Vec<StoredMessage> = Vec::new();
    let mut i: usize = 0;
    proof {
        reveal(Seq::filter);
        assert(store::rows(out@) =~= all.take(0).filter(keep));
    }
    while i < v.len()
        invariant
            i <= v@.len(),
            all == store::rows(v@),
            keep == stays(session_id@, seq as int),
            store::rows(out@) == all.take(i as int).filter(keep),
        decreases v@.len() - i,
    {
        let ghost before = store::rows(out@);
        proof {
            seqs::lemma_filter_take(all, keep, i as int);
            assert(all[i as int] == v@[i as int]@);
        }
        if !(v[i].seq > seq && same_text(v[i].message.session_id.as_str(), session_id)) {
            out.push(StoredMessage { seq: v[i].seq, message: v[i].message.clone() });
            proof {
                assert(store::rows(out@) =~= before.push(all[i as int]));
            }
        }
        i = i + 1;
    }
    proof {
        assert(all.take(i as int) =~= all);
    }
    out
}

/// The originals that stay when a session is cut behind a place.
fn cut_originals(
    v: &Vec<Original>,
    messages: &Vec<StoredMessage>,
    session_id: &str,
    seq: i64,
) -> (r: Vec<Original>)
    ensures
        store::original_views(r@) == store::original_views(v@).filter(
            original_stays(store::rows(messages@), session_id@, seq as int),
        ),
{
    let ghost all = store::original_views(v@);
    let ghost keep = original_stays(store::rows(messages@), session_id@, seq as int);
    let mut out: Vec<Original> = Vec::new();
    let mut i: usize = 0;
    proof {
        reveal(Seq::filter);
        assert(store::original_views(out@) =~= all.take(0).filter(keep));
    }
    while i < v.len()
        invariant
            i <= v@.len(),
            all == store::original_views(v@),
            keep == original_stays(store::rows(messages@), session_id@, seq as int),
            store::original_views(out@) == all.take(i as int).filter(keep),
        decreases v@.len() - i,
    {
        let ghost before = store::original_views(out@);
        proof {
            seqs::lemma_filter_take(all, keep, i as int);
            assert(all[i as int] == v@[i as int]@);
        }
        let dropped: bool = match &v[i].message_id {
            Some(id) => same_text(v[i].session_id.as_str(), session_id) && is_cut_off(
                messages,
                session_id,
                seq,
                id.as_str(),
            ),
            None => false,
        };
        if !dropped {
            out.push(copy_original(&v[i]));
            proof {
                assert(store::original_views(out@) =~= before.push(all[i as int]));
            }
        }
        i = i + 1;
    }
    proof {
        assert(all.take(i as int) =~= all);
    }
    out
}

// ---------------------------------------------------------------------------
// Copying
// ---------------------------------------------------------------------------

/// A transcript copied to another session: new ids, the same places.
pub open spec fn copied(
    t: Seq<RowView>,
    session: Seq<char>,
    ids: Seq<Seq<char>>,
) -> Seq<RowView> {
    Seq::new(
        t.len(),
        |k: int|
            RowView { m: MessageView { id: ids[k], session_id: session, ..t[k].m }, ..t[k] },
    )
}

/// The place up to which a copy shares its transcript with its source.
pub open spec fn fork_point(t: Seq<RowView>) -> Option<int> {
    if t.len() == 0 {
        None
    } else {
        Some(t.last().seq)
    }
}

/// Whether `f` is a copy of a session, made at `now_ms` under a new id, that
/// shares the transcript `t` with it.
pub open spec fn is_fork(
    f: Session,
    source: Session,
    id: String,
    now_ms: i64,
    t: Seq<RowView>,
) -> bool {
    &&& f.id == id
    &&& f.goal == source.goal
    &&& text::opt_view(f.title) == match source.title {
        Some(t) => Some(t@ + " (copy)"@),
        None => None,
    }
    &&& f.summary == source.summary
    &&& f.status == source.status
    &&& f.created_at == now_ms
    &&& f.updated_at == now_ms
    &&& f.phenotype == source.phenotype
    &&& f.mode == source.mode
    &&& f.workspace == source.workspace
    &&& f.model == source.model
    &&& f.mcp_servers == source.mcp_servers
    &&& f.parent_session_id == Some(source.id)
    &&& match f.fork_point_seq {
        Some(seq) => fork_point(t) == Some(seq as int),
        None => fork_point(t) is None,
    }
}

/// Whether ids can be given to new messages.
pub open spec fn unused_ids(r: Seq<RowView>, ids: Seq<Seq<char>>) -> bool {
    &&& forall|i: int, j: int|
        #![trigger ids[i], ids[j]]
        0 <= i < j < ids.len() ==> ids[i] != ids[j]
    &&& forall|i: int| 0 <= i < ids.len() ==> !transcript::has_message(r, #[trigger] ids[i])
}

/// A copied transcript behind the others keeps the rows in order.
proof fn lemma_copied_rows(
    r: Seq<RowView>,
    s: Seq<Session>,
    x: Session,
    source: Seq<char>,
    ids: Seq<Seq<char>>,
)
    requires
        store::rows_ok(r, s),
        !store::has_session(s, x.id@),
        unused_ids(r, ids),
        ids.len() >= transcript::transcript(r, source).len(),
    ensures
        store::rows_ok(r + copied(transcript::transcript(r, source), x.id@, ids), s.push(x)),
{
    let own = transcript::of_session(source);
    let t = transcript::transcript(r, source);
    let c = copied(t, x.id@, ids);
    let all = r + c;
    seqs::lemma_filter_pairwise(
        r,
        own,
        |a: RowView, b: RowView|
            a.m.id != b.m.id && (a.m.session_id == b.m.session_id ==> a.seq < b.seq),
    );
    assert forall|k: int| 0 <= k < t.len() implies (#[trigger] t[k]).m.session_id == source
        && t[k].seq >= 0 by {
        seqs::lemma_filter_from(r, own, k);
        let m = choose|m: int| 0 <= m < r.len() && r[m] == t[k];
        assert(r[m].seq >= 0);
    }
    assert(s.push(x)[s.len() as int].id@ == x.id@);
    assert forall|id: Seq<char>| store::has_session(s, id) implies #[trigger] store::has_session(
        s.push(x),
        id,
    ) by {
        assert(s.push(x)[store::session_place(s, id)].id@ == id);
    }
    assert forall|i: int, j: int|
        #![trigger all[i], all[j]]
        0 <= i < j < all.len() implies all[i].m.id != all[j].m.id && (all[i].m.session_id
        == all[j].m.session_id ==> all[i].seq < all[j].seq) by {
        if j < r.len() {
            assert(all[i] == r[i] && all[j] == r[j]);
        } else if i < r.len() {
            let b = j - r.len();
            assert(all[i] == r[i] && all[j] == c[b]);
            assert(!transcript::has_message(r, ids[b]));
            assert(store::has_session(s, r[i].m.session_id));
        } else {
            let a = i - r.len();
            let b = j - r.len();
            assert(all[i] == c[a] && all[j] == c[b]);
            assert(ids[a] != ids[b]);
            assert(t[a].m.session_id == t[b].m.session_id);
            assert(t[a].seq < t[b].seq);
        }
    }
    assert forall|i: int| 0 <= i < all.len() implies store::has_session(
        s.push(x),
        (#[trigger] all[i]).m.session_id,
    ) && all[i].seq >= 0 by {
        if i < r.len() {
            assert(all[i] == r[i]);
        } else {
            assert(all[i] == c[i - r.len()]);
            assert(t[i - r.len()].seq >= 0);
        }
    }
}

impl SessionStore {
    /// Deletes a session, or drops a draft, with all that belongs to it. Tells
    /// whether there was one. A copy of the session stays, without a parent.
    pub fn delete_session(&mut self, session_id: &str) -> (r: bool)
        requires
            old(self).wf(),
        ensures
            final(self).wf(),
            r == old(self).knows(session_id@),
            final(self).sessions@ == sessions_left(old(self).sessions@, session_id@),
            final(self).pending@ == store::without_draft(old(self).pending@, session_id@),
            final(self).rows() == old(self).rows().filter(not_of_session(session_id@)),
            final(self).kept_originals() == old(self).kept_originals().filter(
                original_elsewhere(session_id@),
            ),
            final(self).kept_preheats() == old(self).kept_preheats().filter(
                preheat_elsewhere(session_id@),
            ),
    {
        let removed: bool = self.find_session(session_id).is_some();
        let drafted: bool = self.drop_draft(session_id);
        let ghost s = self.sessions@;
        let ghost left = sessions_left(s, session_id@);
        proof {
            lemma_sessions_left(s, session_id@);
            lemma_rows_left(self.rows(), not_of_session(session_id@), s, left);
            lemma_originals_left(
                self.kept_originals(),
                original_elsewhere(session_id@),
                s,
                left,
            );
            lemma_preheats_left(self.kept_preheats(), preheat_elsewhere(session_id@), s, left);
        }
        let sessions: Vec<Session> = keep_sessions(&self.sessions, session_id);
        let messages: Vec<StoredMessage> = keep_rows(&self.messages, session_id);
        let originals: Vec<Original> = keep_originals(&self.originals, session_id);
        let preheats: Vec<PreheatRow> = keep_preheats(&self.preheats, session_id);
        self.sessions = sessions;
        self.messages = messages;
        self.originals = originals;
        self.preheats = preheats;
        removed || drafted
    }

    /// Replaces the text and the attachments of a user message of the session
    /// and drops what followed it there. Gives the id of the message.
    pub fn edit_user_message(
        &mut self,
        session_id: &str,
        message_id: &str,
        content: String,
        attachments: Option<Vec<Attachment>>,
        now_ms: i64,
    ) -> (r: Result<String, EditMessageError>)
        requires
            old(self).wf(),
        ensures
            final(self).wf(),
            final(self).pending@ == old(self).pending@,
            final(self).preheats@ == old(self).preheats@,
            ({
                let i = transcript::row_place(old(self).rows(), message_id@);
                let row = old(self).rows()[i];
                if !transcript::has_row(old(self).rows(), message_id@, session_id@) {
                    &&& r == Err::<String, EditMessageError>(EditMessageError::UnknownMessage)
                    &&& *final(self) == *old(self)
                } else if row.m.role != Role::User {
                    &&& r == Err::<String, EditMessageError>(EditMessageError::NotUserMessage)
                    &&& *final(self) == *old(self)
                } else {
                    &&& r matches Ok(id) && id@ == message_id@
                    &&& final(self).rows() == edited(
                        old(self).rows(),
                        i,
                        content@,
                        types::opt_seq(attachments),
                    )
                    &&& final(self).kept_originals() == old(self).kept_originals().filter(
                        original_stays(old(self).rows(), session_id@, row.seq),
                    )
                    &&& final(self).sessions@ == store::changed(
                        old(self).sessions@,
                        session_id@,
                        |s: Session| (Session { updated_at: now_ms, ..s }),
                    )
                }
            }),
    {
        let i: usize = match self.find_message(message_id, session_id) {
            Some(i) => i,
            None => {
                return Err(EditMessageError::UnknownMessage);
            },
        };
        let ghost before = self.rows();
        let ghost s0 = self.sessions@;
        proof {
            assert(before[i as int] == self.messages@[i as int]@);
        }
        if self.messages[i].message.role != Role::User {
            return Err(EditMessageError::NotUserMessage);
        }
        let seq: i64 = self.messages[i].seq;
        let originals: Vec<Original> = cut_originals(
            &self.originals,
            &self.messages,
            session_id,
            seq,
        );
        let ghost keep = stays(session_id@, seq as int);
        let ghost okeep = original_stays(before, session_id@, seq as int);
        proof {
            lemma_originals_left(self.kept_originals(), okeep, s0, s0);
        }
        self.originals = originals;
        let mut m: Message = self.messages[i].message.clone();
        m.content = content;
        let empty: bool = match &attachments {
            Some(list) => list.len() == 0,
            None => false,
        };
        let ghost given = types::opt_seq(attachments);
        m.attachments = if empty {
            None
        } else {
            attachments
        };
        let ghost mv = m@;
        self.put_message(i, m);
        proof {
            assert(types::opt_seq(m.attachments) == transcript::kept_attachments(given));
            lemma_rows_left(self.rows(), keep, s0, s0);
        }
        let messages: Vec<StoredMessage> = cut_rows(&self.messages, session_id, seq);
        self.messages = messages;
        self.touch(session_id, now_ms);
        Ok(message_id.to_owned())
    }

    /// Copies a session and its transcript to a new session. The copy has new
    /// ids and times and names its source as its parent; a title gets
    /// " (copy)" behind it. The messages keep their places, so that the place of
    /// the last one copied means the same in both sessions. `message_ids` are
    /// the ids of the copied messages.
    pub fn fork_session(
        &mut self,
        session_id: &str,
        new_id: String,
        message_ids: &Vec<String>,
        now_ms: i64,
    ) -> (r: Option<Session>)
        requires
            old(self).wf(),
            !old(self).knows(new_id@),
            unused_ids(old(self).rows(), text::views(message_ids@)),
            message_ids@.len() >= transcript::transcript(old(self).rows(), session_id@).len(),
        ensures
            final(self).wf(),
            final(self).pending@ == old(self).pending@,
            final(self).originals@ == old(self).originals@,
            final(self).preheats@ == old(self).preheats@,
            ({
                let t = transcript::transcript(old(self).rows(), session_id@);
                match r {
                    Some(f) => {
                        &&& store::has_session(old(self).sessions@, session_id@)
                        &&& is_fork(
                            f,
                            store::session_of(old(self).sessions@, session_id@),
                            new_id,
                            now_ms,
                            t,
                        )
                        &&& final(self).sessions@ == old(self).sessions@.push(f)
                        &&& final(self).rows() == old(self).rows() + copied(
                            t,
                            new_id@,
                            text::views(message_ids@),
                        )
                    },
                    None => {
                        &&& !store::has_session(old(self).sessions@, session_id@)
                        &&& final(self).sessions@ == old(self).sessions@
                        &&& final(self).rows() == old(self).rows()
                    },
                }
            }),
    {
        let at: usize = match self.find_session(session_id) {
            Some(i) => i,
            None => {
                return None;
            },
        };
        let ghost s0 = self.sessions@;
        let ghost all = self.rows();
        let ghost own = transcript::of_session(session_id@);
        let ghost ids = text::views(message_ids@);
        let ghost t = transcript::transcript(all, session_id@);
        let source: Session = self.sessions[at].clone();
        let mut copies: Vec<StoredMessage> = Vec::new();
        let mut point: Option<i64> = None;
        let mut i: usize = 0;
        proof {
            reveal(Seq::filter);
            assert(store::rows(copies@) =~= copied(all.take(0).filter(own), new_id@, ids));
        }
        while i < self.messages.len()
            invariant
                i <= self.messages@.len(),
                all == self.rows(),
                own == transcript::of_session(session_id@),
                ids == text::views(message_ids@),
                t == all.filter(own),
                message_ids@.len() >= t.len(),
                store::rows(copies@) == copied(all.take(i as int).filter(own), new_id@, ids),
                match point {
                    Some(seq) => fork_point(all.take(i as int).filter(own)) == Some(seq as int),
                    None => fork_point(all.take(i as int).filter(own)) is None,
                },
            decreases self.messages@.len() - i,
        {
            let ghost upto = all.take(i as int).filter(own);
            let ghost before = store::rows(copies@);
            proof {
                seqs::lemma_filter_take(all, own, i as int);
                lemma_filter_take_len(all, own, i as int);
                assert(all[i as int] == self.messages@[i as int]@);
                assert(copies@.len() == before.len());
            }
            if same_text(self.messages[i].message.session_id.as_str(), session_id) {
                let k: usize = copies.len();
                let seq: i64 = self.messages[i].seq;
                let mut m: Message = self.messages[i].message.clone();
                m.id = message_ids[k].clone();
                m.session_id = new_id.clone();
                let row = StoredMessage { seq, message: m };
                let ghost rv = row@;
                copies.push(row);
                point = Some(seq);
                proof {
                    assert(ids[k as int] == message_ids@[k as int]@);
                    assert(rv.m =~= MessageView {
                        id: ids[k as int],
                        session_id: new_id@,
                        ..all[i as int].m
                    });
                    assert(store::rows(copies@) =~= before.push(rv));
                    assert(copied(upto.push(all[i as int]), new_id@, ids) =~= copied(
                        upto,
                        new_id@,
                        ids,
                    ).push(rv));
                }
            }
            i = i + 1;
        }
        proof {
            assert(all.take(i as int) =~= all);
        }
        let title: Option<String> = match &source.title {
            Some(t) => {
                let mut s: String = t.clone();
                s.append(" (copy)");
                Some(s)
            },
            None => None,
        };
        let forked = Session {
            id: new_id,
            goal: source.goal,
            title,
            summary: source.summary,
            status: source.status,
            created_at: now_ms,
            updated_at: now_ms,
            phenotype: source.phenotype,
            mode: source.mode,
            workspace: source.workspace,
            model: source.model,
            mcp_servers: source.mcp_servers,
            parent_session_id: Some(source.id),
            fork_point_seq: point,
        };
        let copy: Session = forked.clone();
        proof {
            store::lemma_push_session(s0, forked);
            lemma_copied_rows(all, s0, forked, session_id@, ids);
        }
        self.sessions.push(forked);
        let ghost more = store::rows(copies@);
        self.messages.append(&mut copies);
        proof {
            assert(self.rows() =~= all + more);
        }
        Some(copy)
    }
}

/// Filtering a longer prefix keeps no less, and the whole keeps no less than a
/// prefix.
proof fn lemma_filter_take_len<A>(s: Seq<A>, p: spec_fn(A) -> bool, i: int)
    requires
        0 <= i < s.len(),
    ensures
        s.take(i + 1).filter(p).len() <= s.filter(p).len(),
    decreases s.len() - i,
{
    if i + 1 == s.len() {
        assert(s.take(i + 1) =~= s);
    } else {
        lemma_filter_take_len(s, p, i + 1);
        seqs::lemma_filter_take(s, p, i + 1);
    }
}

// ---------------------------------------------------------------------------
// Laws
// ---------------------------------------------------------------------------

/// After an edit the transcript of the session is what preceded the message, and
/// the message with its new text; no other transcript changes.
pub proof fn law_editing_ends_the_transcript_at_the_message(
    r: Seq<RowView>,
    s: Seq<Session>,
    i: int,
    content: Seq<char>,
    attachments: Option<Seq<Attachment>>,
    other: Seq<char>,
)
    requires
        store::rows_ok(r, s),
        0 <= i < r.len(),
        other != r[i].m.session_id,
    ensures
        transcript::transcript(edited(r, i, content, attachments), r[i].m.session_id)
            == transcript::transcript(r.take(i), r[i].m.session_id).push(
            RowView {
                m: MessageView {
                    content,
                    attachments: transcript::kept_attachments(attachments),
                    ..r[i].m
                },
                ..r[i]
            },
        ),
        transcript::transcript(edited(r, i, content, attachments), other)
            == transcript::transcript(r, other),
{
    let sid = r[i].m.session_id;
    let own = transcript::of_session(sid);
    let theirs = transcript::of_session(other);
    let keep = stays(sid, r[i].seq);
    let x = RowView {
        m: MessageView {
            content,
            attachments: transcript::kept_attachments(attachments),
            ..r[i].m
        },
        ..r[i]
    };
    let u = r.update(i, x);
    let a = u.take(i + 1);
    let b = u.skip(i + 1);
    let both = |y: RowView| keep(y) && own(y);
    seqs::lemma_filter_both(u, keep, own);
    assert(u =~= a + b);
    Seq::filter_distributes_over_add(a, b, both);
    assert forall|k: int| 0 <= k < a.len() implies both(#[trigger] a[k]) == own(a[k]) by {
        if k < i {
            assert(a[k] == r[k]);
            assert(r[k].m.session_id == r[i].m.session_id ==> r[k].seq < r[i].seq);
        }
    }
    seqs::lemma_filter_agree(a, both, own);
    let none = |y: RowView| false;
    assert forall|k: int| 0 <= k < b.len() implies both(#[trigger] b[k]) == none(b[k]) by {
        assert(b[k] == r[i + 1 + k]);
        assert(r[i].m.session_id == r[i + 1 + k].m.session_id ==> r[i].seq < r[i + 1 + k].seq);
    }
    seqs::lemma_filter_agree(b, both, none);
    if b.filter(none).len() > 0 {
        seqs::lemma_filter_from(b, none, 0);
    }
    assert(b.filter(none) =~= Seq::<RowView>::empty());
    seqs::lemma_filter_take(u, own, i);
    assert(u.take(i) =~= r.take(i));
    assert(u[i] == x);
    seqs::lemma_filter_narrower(u, keep, theirs);
    assert(u.filter(theirs) == r.filter(theirs)) by {
        let head = r.take(i);
        let rest = r.skip(i + 1);
        assert(u =~= head + seq![x] + rest);
        assert(r =~= head + seq![r[i]] + rest);
        Seq::filter_distributes_over_add(head + seq![x], rest, theirs);
        Seq::filter_distributes_over_add(head, seq![x], theirs);
        Seq::filter_distributes_over_add(head + seq![r[i]], rest, theirs);
        Seq::filter_distributes_over_add(head, seq![r[i]], theirs);
        reveal(Seq::filter);
        assert(seq![x].drop_last() =~= Seq::<RowView>::empty());
        assert(seq![r[i]].drop_last() =~= Seq::<RowView>::empty());
        assert(Seq::<RowView>::empty().filter(theirs) =~= Seq::<RowView>::empty());
        assert(seq![x].last() == x && !theirs(x));
        assert(seq![r[i]].last() == r[i] && !theirs(r[i]));
        assert(seq![x].filter(theirs) =~= Seq::<RowView>::empty());
        assert(seq![r[i]].filter(theirs) =~= Seq::<RowView>::empty());
    }
}

/// Deleting a session takes its transcript, its originals and its warm-ups with
/// it, and leaves the other sessions and their transcripts, copies of it
/// included.
pub proof fn law_deleting_takes_what_belongs_to_the_session(
    s: Seq<Session>,
    r: Seq<RowView>,
    o: Seq<OriginalView>,
    p: Seq<PreheatView>,
    id: Seq<char>,
    other: Seq<char>,
)
    requires
        store::distinct_ids(s),
        store::lineage_kept(s),
        other != id,
    ensures
        !store::has_session(sessions_left(s, id), id),
        store::has_session(sessions_left(s, id), other) == store::has_session(s, other),
        transcript::transcript(r.filter(not_of_session(id)), id) == Seq::<RowView>::empty(),
        transcript::transcript(r.filter(not_of_session(id)), other) == transcript::transcript(
            r,
            other,
        ),
        forall|k: int|
            0 <= k < o.filter(original_elsewhere(id)).len() ==> (#[trigger] o.filter(
                original_elsewhere(id),
            )[k]).session_id != id,
        forall|k: int|
            0 <= k < p.filter(preheat_elsewhere(id)).len() ==> (#[trigger] p.filter(
                preheat_elsewhere(id),
            )[k]).session_id != id,
{
    lemma_sessions_left(s, id);
    seqs::lemma_filter_disjoint(r, not_of_session(id), transcript::of_session(id));
    seqs::lemma_filter_narrower(r, not_of_session(id), transcript::of_session(other));
    assert forall|k: int| 0 <= k < o.filter(original_elsewhere(id)).len() implies (#[trigger] o.filter(
        original_elsewhere(id),
    )[k]).session_id != id by {
        seqs::lemma_filter_from(o, original_elsewhere(id), k);
    }
    assert forall|k: int| 0 <= k < p.filter(preheat_elsewhere(id)).len() implies (#[trigger] p.filter(
        preheat_elsewhere(id),
    )[k]).session_id != id by {
        seqs::lemma_filter_from(p, preheat_elsewhere(id), k);
    }
}

/// A copy leaves its source as it was and reads the same, message by message and
/// place by place, under new ids.
pub proof fn law_a_copy_reads_like_its_source(
    r: Seq<RowView>,
    s: Seq<Session>,
    source: Seq<char>,
    new_id: Seq<char>,
    ids: Seq<Seq<char>>,
)
    requires
        store::rows_ok(r, s),
        !store::has_session(s, new_id),
        store::has_session(s, source),
    ensures
        ({
            let t = transcript::transcript(r, source);
            let after = r + copied(t, new_id, ids);
            let copy = transcript::transcript(after, new_id);
            &&& transcript::transcript(after, source) == t
            &&& copy == copied(t, new_id, ids)
            &&& copy.len() == t.len()
            &&& forall|k: int|
                0 <= k < t.len() ==> {
                    &&& (#[trigger] copy[k]).seq == t[k].seq
                    &&& copy[k].m.role == t[k].m.role
                    &&& copy[k].m.content == t[k].m.content
                    &&& copy[k].m.tool_calls == t[k].m.tool_calls
                    &&& copy[k].m.tool_call_id == t[k].m.tool_call_id
                    &&& copy[k].m.attachments == t[k].m.attachments
                    &&& copy[k].m.reasoning == t[k].m.reasoning
                    &&& copy[k].m.stop_reason == t[k].m.stop_reason
                    &&& copy[k].m.author_name == t[k].m.author_name
                    &&& copy[k].m.created_at == t[k].m.created_at
                }
        }),
{
    let t = transcript::transcript(r, source);
    let c = copied(t, new_id, ids);
    let from = transcript::of_session(source);
    let to = transcript::of_session(new_id);
    let none = |y: RowView| false;
    let every = |y: RowView| true;
    Seq::filter_distributes_over_add(r, c, from);
    Seq::filter_distributes_over_add(r, c, to);
    assert forall|k: int| 0 <= k < c.len() implies from(#[trigger] c[k]) == none(c[k]) by {}
    seqs::lemma_filter_agree(c, from, none);
    assert forall|k: int| 0 <= k < r.len() implies to(#[trigger] r[k]) == none(r[k]) by {
        assert(store::has_session(s, r[k].m.session_id));
    }
    seqs::lemma_filter_agree(r, to, none);
    assert forall|k: int| 0 <= k < c.len() implies to(#[trigger] c[k]) == every(c[k]) by {}
    seqs::lemma_filter_agree(c, to, every);
    lemma_filter_every(c);
    if c.filter(none).len() > 0 {
        seqs::lemma_filter_from(c, none, 0);
    }
    if r.filter(none).len() > 0 {
        seqs::lemma_filter_from(r, none, 0);
    }
    assert(c.filter(none) =~= Seq::<RowView>::empty());
    assert(r.filter(none) =~= Seq::<RowView>::empty());
    assert(transcript::transcript(r + c, source) =~= t);
    assert(transcript::transcript(r + c, new_id) =~= c);
}

/// A filter that all pass keeps all.
proof fn lemma_filter_every(s: Seq<RowView>)
    ensures
        s.filter(|y: RowView| true) == s,
    decreases s.len(),
{
    reveal(Seq::filter);
    if s.len() > 0 {
        lemma_filter_every(s.drop_last());
        assert(s.drop_last().push(s.last()) =~= s);
    } else {
        assert(s.filter(|y: RowView| true) =~= s);
    }
}

/// An original that was moved to another session is still there, with its
/// content, when the session that it came from is deleted.
pub proof fn law_a_rehomed_original_outlives_its_session(
    o: Seq<OriginalView>,
    s: Seq<Session>,
    key: Seq<char>,
    child: Seq<char>,
    parent: Seq<char>,
)
    requires
        store::originals_ok(o, s),
        compaction::has_original(o, key),
        store::has_session(s, parent),
        parent != child,
    ensures
        ({
            let left = compaction::rehomed(o, s, key, parent).filter(original_elsewhere(child));
            &&& compaction::has_original(left, key)
            &&& left[compaction::original_place(left, key)].content
                == o[compaction::original_place(o, key)].content
        }),
{
    let i = compaction::original_place(o, key);
    assert(0 <= i < o.len() && o[i].key == key);
    let moved = compaction::rehomed(o, s, key, parent);
    let left = moved.filter(original_elsewhere(child));
    moved.lemma_filter_contains(original_elsewhere(child), i);
    let m = choose|m: int| 0 <= m < left.len() && left[m] == moved[i];
    assert(left[m].key == key);
    let p = compaction::original_place(left, key);
    assert(0 <= p < left.len() && left[p].key == key);
    seqs::lemma_filter_from(moved, original_elsewhere(child), p);
    let q = choose|q: int| 0 <= q < moved.len() && moved[q] == left[p];
    if q != i {
        assert(o[q].key == moved[q].key);
        assert(o[q].key != o[i].key);
    }
}

} // verus!
