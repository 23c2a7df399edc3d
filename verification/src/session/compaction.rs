//! What is kept beside the transcripts: the originals of compacted tool results
//! and the warm-ups of turns.
use vstd::prelude::*;
use vstd::string::*;
use crate::session::store;
use crate::session::store::{
    Original,
    OriginalView,
    PreheatRow,
    PreheatView,
    SessionStore,
    TurnPreheat,
};
use crate::session::types::Session;
use crate::text::same_text;

verus! {

/// Whether there is an original under that key.
pub open spec fn has_original(o: Seq<OriginalView>, key: Seq<char>) -> bool {
    exists|i: int| 0 <= i < o.len() && (#[trigger] o[i]).key == key
}

/// The place of the original under that key.
pub open spec fn original_place(o: Seq<OriginalView>, key: Seq<char>) -> int {
    choose|i: int| 0 <= i < o.len() && (#[trigger] o[i]).key == key
}

/// The originals with a further one. A key that is in use keeps its original,
/// and an original of an unknown session is not kept.
pub open spec fn with_original(
    o: Seq<OriginalView>,
    s: Seq<Session>,
    x: OriginalView,
) -> Seq<OriginalView> {
    if has_original(o, x.key) || !store::has_session(s, x.session_id) {
        o
    } else {
        o.push(x)
    }
}

/// The originals with the one under that key moved to another session, where
/// that session is known.
pub open spec fn rehomed(
    o: Seq<OriginalView>,
    s: Seq<Session>,
    key: Seq<char>,
    session: Seq<char>,
) -> Seq<OriginalView> {
    if has_original(o, key) && store::has_session(s, session) {
        let i = original_place(o, key);
        o.update(i, OriginalView { session_id: session, message_id: None, ..o[i] })
    } else {
        o
    }
}

/// Whether a message has a warm-up.
pub open spec fn has_preheat(p: Seq<PreheatView>, id: Seq<char>) -> bool {
    exists|i: int| 0 <= i < p.len() && (#[trigger] p[i]).message_id == id
}

/// The place of the warm-up of a message.
pub open spec fn preheat_place(p: Seq<PreheatView>, id: Seq<char>) -> int {
    choose|i: int| 0 <= i < p.len() && (#[trigger] p[i]).message_id == id
}

/// The warm-ups with a further one, which takes the place of an earlier one of
/// the same message. A warm-up of nothing, or of an unknown session, is not kept.
pub open spec fn with_preheat(
    p: Seq<PreheatView>,
    s: Seq<Session>,
    x: PreheatView,
) -> Seq<PreheatView> {
    if x.preheat.preheated_count == 0 || !store::has_session(s, x.session_id) {
        p
    } else if has_preheat(p, x.message_id) {
        p.update(preheat_place(p, x.message_id), x)
    } else {
        p.push(x)
    }
}

impl SessionStore {
    /// The originals, as values.
    pub open spec fn kept_originals(&self) -> Seq<OriginalView> {
        store::original_views(self.originals@)
    }

    /// The warm-ups, as values.
    pub open spec fn kept_preheats(&self) -> Seq<PreheatView> {
        store::preheat_views(self.preheats@)
    }

    /// The place of the original under that key.
    fn find_original(&self, key: &str) -> (r: Option<usize>)
        requires
            self.wf(),
        ensures
            match r {
                Some(i) => i < self.originals@.len() && self.originals@[i as int]@.key == key@
                    && has_original(self.kept_originals(), key@) && i == original_place(
                    self.kept_originals(),
                    key@,
                ),
                None => !has_original(self.kept_originals(), key@),
            },
    {
        let ghost all = self.kept_originals();
        let mut i: usize = 0;
        while i < self.originals.len()
            invariant
                self.wf(),
                all == self.kept_originals(),
                i <= self.originals@.len(),
                forall|j: int| 0 <= j < i ==> (#[trigger] all[j]).key != key@,
            decreases self.originals@.len() - i,
        {
            proof {
                assert(all[i as int] == self.originals@[i as int]@);
            }
            if same_text(self.originals[i].key.as_str(), key) {
                proof {
                    let p = original_place(all, key@);
                    assert(all[i as int].key == key@);
                    assert(0 <= p < all.len() && all[p].key == key@);
                }
                return Some(i);
            }
            i = i + 1;
        }
        None
    }

    /// Keeps the original of a compacted tool result under its key. The first
    /// one under a key stays.
    pub fn put_compaction_original(
        &mut self,
        session_id: &str,
        message_id: &str,
        key: &str,
        content: &str,
    )
        requires
            old(self).wf(),
        ensures
            final(self).wf(),
            final(self).sessions@ == old(self).sessions@,
            final(self).pending@ == old(self).pending@,
            final(self).messages@ == old(self).messages@,
            final(self).preheats@ == old(self).preheats@,
            final(self).kept_originals() == with_original(
                old(self).kept_originals(),
                old(self).sessions@,
                OriginalView {
                    key: key@,
                    session_id: session_id@,
                    message_id: Some(message_id@),
                    content: content@,
                },
            ),
    {
        if let Some(_) = self.find_original(key) {
            return;
        }
        if let None = self.find_session(session_id) {
            return;
        }
        let ghost before = self.kept_originals();
        let o = Original {
            key: key.to_owned(),
            session_id: session_id.to_owned(),
            message_id: Some(message_id.to_owned()),
            content: content.to_owned(),
        };
        let ghost ov = o@;
        self.originals.push(o);
        proof {
            let after = self.kept_originals();
            assert(after =~= before.push(ov));
            assert forall|i: int, j: int|
                #![trigger after[i], after[j]]
                0 <= i < j < after.len() implies after[i].key != after[j].key by {
                assert(after[i] == before[i]);
                if j < before.len() {
                    assert(after[j] == before[j]);
                }
            }
            assert forall|i: int| 0 <= i < after.len() implies store::has_session(
                self.sessions@,
                (#[trigger] after[i]).session_id,
            ) by {
                if i < before.len() {
                    assert(after[i] == before[i]);
                }
            }
        }
    }

    /// Moves the original under a key to another session, so that it outlives
    /// its own. An unknown key is passed over.
    pub fn rehome_compaction_original(&mut self, key: &str, new_session_id: &str)
        requires
            old(self).wf(),
        ensures
            final(self).wf(),
            final(self).sessions@ == old(self).sessions@,
            final(self).pending@ == old(self).pending@,
            final(self).messages@ == old(self).messages@,
            final(self).preheats@ == old(self).preheats@,
            final(self).kept_originals() == rehomed(
                old(self).kept_originals(),
                old(self).sessions@,
                key@,
                new_session_id@,
            ),
    {
        if let None = self.find_session(new_session_id) {
            return;
        }
        if let Some(i) = self.find_original(key) {
            let ghost before = self.kept_originals();
            let o = Original {
                key: self.originals[i].key.clone(),
                session_id: new_session_id.to_owned(),
                message_id: None,
                content: self.originals[i].content.clone(),
            };
            let ghost ov = o@;
            proof {
                assert(before[i as int] == self.originals@[i as int]@);
            }
            self.originals.set(i, o);
            proof {
                let after = self.kept_originals();
                assert(after =~= before.update(i as int, ov));
                assert forall|a: int, b: int|
                    #![trigger after[a], after[b]]
                    0 <= a < b < after.len() implies after[a].key != after[b].key by {
                    assert(before[a].key != before[b].key);
                }
                assert forall|a: int| 0 <= a < after.len() implies store::has_session(
                    self.sessions@,
                    (#[trigger] after[a]).session_id,
                ) by {
                    assert(store::has_session(self.sessions@, before[a].session_id));
                }
            }
        }
    }

    /// The original under a key.
    pub fn compaction_original(&self, key: &str) -> (r: Option<String>)
        requires
            self.wf(),
        ensures
            match r {
                Some(content) => has_original(self.kept_originals(), key@) && content@
                    == self.kept_originals()[original_place(self.kept_originals(), key@)].content,
                None => !has_original(self.kept_originals(), key@),
            },
    {
        match self.find_original(key) {
            Some(i) => Some(self.originals[i].content.clone()),
            None => None,
        }
    }

    /// The place of the warm-up of a message.
    fn find_preheat(&self, message_id: &str) -> (r: Option<usize>)
        requires
            self.wf(),
        ensures
            match r {
                Some(i) => i < self.preheats@.len() && self.preheats@[i as int]@.message_id
                    == message_id@ && has_preheat(self.kept_preheats(), message_id@) && i
                    == preheat_place(self.kept_preheats(), message_id@),
                None => !has_preheat(self.kept_preheats(), message_id@),
            },
    {
        let ghost all = self.kept_preheats();
        let mut i: usize = 0;
        while i < self.preheats.len()
            invariant
                self.wf(),
                all == self.kept_preheats(),
                i <= self.preheats@.len(),
                forall|j: int| 0 <= j < i ==> (#[trigger] all[j]).message_id != message_id@,
            decreases self.preheats@.len() - i,
        {
            proof {
                assert(all[i as int] == self.preheats@[i as int]@);
            }
            if same_text(self.preheats[i].message_id.as_str(), message_id) {
                proof {
                    let p = preheat_place(all, message_id@);
                    assert(all[i as int].message_id == message_id@);
                    assert(0 <= p < all.len() && all[p].message_id == message_id@);
                }
                return Some(i);
            }
            i = i + 1;
        }
        None
    }

    /// Keeps what a turn was warmed up with. A turn that was warmed up with
    /// nothing is passed over, so that it does not count as a bet that was lost.
    pub fn put_turn_preheat(
        &mut self,
        session_id: &str,
        message_id: &str,
        preheated_count: usize,
        preheated_used: usize,
        preheated_bytes: usize,
    )
        requires
            old(self).wf(),
        ensures
            final(self).wf(),
            final(self).sessions@ == old(self).sessions@,
            final(self).pending@ == old(self).pending@,
            final(self).messages@ == old(self).messages@,
            final(self).originals@ == old(self).originals@,
            final(self).kept_preheats() == with_preheat(
                old(self).kept_preheats(),
                old(self).sessions@,
                PreheatView {
                    message_id: message_id@,
                    session_id: session_id@,
                    preheat: TurnPreheat { preheated_count, preheated_used, preheated_bytes },
                },
            ),
    {
        if preheated_count == 0 {
            return;
        }
        if let None = self.find_session(session_id) {
            return;
        }
        let row = PreheatRow {
            message_id: message_id.to_owned(),
            session_id: session_id.to_owned(),
            preheat: TurnPreheat { preheated_count, preheated_used, preheated_bytes },
        };
        let ghost rv = row@;
        let ghost before = self.kept_preheats();
        match self.find_preheat(message_id) {
            Some(i) => {
                proof {
                    assert(before[i as int] == self.preheats@[i as int]@);
                }
                self.preheats.set(i, row);
                proof {
                    let after = self.kept_preheats();
                    assert(after =~= before.update(i as int, rv));
                    assert forall|a: int, b: int|
                        #![trigger after[a], after[b]]
                        0 <= a < b < after.len() implies after[a].message_id
                        != after[b].message_id by {
                        assert(before[a].message_id != before[b].message_id);
                    }
                    assert forall|a: int| 0 <= a < after.len() implies store::has_session(
                        self.sessions@,
                        (#[trigger] after[a]).session_id,
                    ) by {
                        assert(store::has_session(self.sessions@, before[a].session_id));
                    }
                }
            },
            None => {
                self.preheats.push(row);
                proof {
                    let after = self.kept_preheats();
                    assert(after =~= before.push(rv));
                    assert forall|a: int, b: int|
                        #![trigger after[a], after[b]]
                        0 <= a < b < after.len() implies after[a].message_id
                        != after[b].message_id by {
                        assert(after[a] == before[a]);
                        if b < before.len() {
                            assert(after[b] == before[b]);
                        }
                    }
                    assert forall|a: int| 0 <= a < after.len() implies store::has_session(
                        self.sessions@,
                        (#[trigger] after[a]).session_id,
                    ) by {
                        if a < before.len() {
                            assert(after[a] == before[a]);
                        }
                    }
                }
            },
        }
    }

    /// What the turn of a message was warmed up with.
    pub fn turn_preheat(&self, message_id: &str) -> (r: Option<TurnPreheat>)
        requires
            self.wf(),
        ensures
            match r {
                Some(p) => has_preheat(self.kept_preheats(), message_id@) && p
                    == self.kept_preheats()[preheat_place(
                    self.kept_preheats(),
                    message_id@,
                )].preheat,
                None => !has_preheat(self.kept_preheats(), message_id@),
            },
    {
        match self.find_preheat(message_id) {
            Some(i) => Some(self.preheats[i].preheat),
            None => None,
        }
    }
}

/// The first original kept under a key is what is read under it, whatever is put
/// there later.
pub proof fn law_the_first_original_stays(
    o: Seq<OriginalView>,
    s: Seq<Session>,
    x: OriginalView,
    later: OriginalView,
)
    requires
        !has_original(o, x.key),
        store::has_session(s, x.session_id),
        later.key == x.key,
    ensures
        ({
            let once = with_original(o, s, x);
            &&& has_original(once, x.key)
            &&& once[original_place(once, x.key)].content == x.content
            &&& with_original(once, s, later) == once
        }),
{
    let once = o.push(x);
    assert(once[o.len() as int].key == x.key);
    let p = original_place(once, x.key);
    assert(0 <= p < once.len() && once[p].key == x.key);
    if p < o.len() {
        assert(o[p].key == x.key);
    }
}

/// A warm-up that is kept is read back, and a later one of the same message
/// takes its place.
pub proof fn law_preheat_is_read_back(p: Seq<PreheatView>, s: Seq<Session>, x: PreheatView)
    requires
        x.preheat.preheated_count > 0,
        store::has_session(s, x.session_id),
        store::preheats_ok(p, s),
    ensures
        has_preheat(with_preheat(p, s, x), x.message_id),
        with_preheat(p, s, x)[preheat_place(with_preheat(p, s, x), x.message_id)] == x,
{
    let t = with_preheat(p, s, x);
    if has_preheat(p, x.message_id) {
        let i = preheat_place(p, x.message_id);
        assert(t[i] == x);
        let q = preheat_place(t, x.message_id);
        assert(0 <= q < t.len() && t[q].message_id == x.message_id);
        assert(p[i].message_id == x.message_id);
        if q != i {
            assert(p[q].message_id == t[q].message_id);
        }
    } else {
        assert(t[p.len() as int] == x);
        let q = preheat_place(t, x.message_id);
        assert(0 <= q < t.len() && t[q].message_id == x.message_id);
        if q < p.len() {
            assert(p[q].message_id == x.message_id);
        }
    }
}

} // verus!
