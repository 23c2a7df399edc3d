//! The observers of all sessions: who may start, see and stop which, and the
//! events that wait for a session to be idle.
use vstd::prelude::*;
use vstd::string::*;
use crate::number;
use crate::observer::file;
use crate::observer::file::NameFilter;
use crate::observer::http;
use crate::observer::http::HttpSource;
use crate::observer::source;
use crate::observer::source::{
    ObserverContext,
    ObserverEvent,
    ObserverId,
    ObserverInfo,
    ObserverKind,
    ObserverSpec,
};
use crate::seqs;
use crate::text;
use crate::text::{copy_opt, is_blank, same_text};

verus! {

/// The most observers that a session may have at a time.
pub const MAX_PER_SESSION: usize = 8;

/// An observer that runs.
#[derive(Debug)]
pub struct ManagedObserver {
    pub info: ObserverInfo,
    pub session_id: String,
}

impl Clone for ManagedObserver {
    fn clone(&self) -> (r: Self)
        ensures
            r == *self,
    {
        ManagedObserver { info: self.info.clone(), session_id: self.session_id.clone() }
    }
}

/// An event that waits for its session to be idle.
#[derive(Debug)]
pub struct Deferred {
    pub session_id: String,
    pub event: ObserverEvent,
}

impl Clone for Deferred {
    fn clone(&self) -> (r: Self)
        ensures
            r == *self,
    {
        Deferred { session_id: self.session_id.clone(), event: self.event.clone() }
    }
}

/// What is to be watched, once the request for it has been accepted.
#[derive(Debug)]
pub enum SourcePlan {
    /// That path, and which children of it.
    File { target: String, names: Option<NameFilter> },
    /// That URL.
    Http(HttpSource),
    /// The output of that process, under that filter.
    Process { pid: u64, filter: Option<String> },
}

/// An observer that has been accepted and does not run yet.
#[derive(Debug)]
pub struct Accepted {
    pub ctx: ObserverContext,
    pub kind: ObserverKind,
    pub target: String,
    pub plan: SourcePlan,
}

/// The observers of all sessions.
pub struct ObserverSupervisor {
    /// The observers that run, by their numbers.
    pub observers: Vec<ManagedObserver>,
    /// The number that the next observer gets.
    pub next_id: ObserverId,
    /// The events that wait, in the order in which they came.
    pub deferred: Vec<Deferred>,
}

/// Whether an observer belongs to a session.
pub open spec fn owned_by(session: Seq<char>) -> spec_fn(ManagedObserver) -> bool {
    |o: ManagedObserver| o.session_id@ == session
}

/// Whether an observer belongs to another session.
pub open spec fn not_owned_by(session: Seq<char>) -> spec_fn(ManagedObserver) -> bool {
    |o: ManagedObserver| o.session_id@ != session
}

/// Whether an event waits for a session.
pub open spec fn waits_for(session: Seq<char>) -> spec_fn(Deferred) -> bool {
    |d: Deferred| d.session_id@ == session
}

/// Whether an event waits for another session.
pub open spec fn waits_for_another(session: Seq<char>) -> spec_fn(Deferred) -> bool {
    |d: Deferred| d.session_id@ != session
}

/// How the observers are listed.
pub open spec fn infos(s: Seq<ManagedObserver>) -> Seq<ObserverInfo> {
    Seq::new(s.len(), |i: int| s[i].info)
}

/// The events that wait.
pub open spec fn events(s: Seq<Deferred>) -> Seq<ObserverEvent> {
    Seq::new(s.len(), |i: int| s[i].event)
}

/// The number of observers of a session.
pub open spec fn live(s: Seq<ManagedObserver>, session: Seq<char>) -> nat {
    s.filter(owned_by(session)).len()
}

/// Whether the observer of that number runs and belongs to the session.
pub open spec fn runs_for(s: Seq<ManagedObserver>, id: ObserverId, session: Seq<char>) -> bool {
    exists|i: int|
        0 <= i < s.len() && (#[trigger] s[i]).info.id == id && s[i].session_id@ == session
}

/// The place of the observer of that number.
pub open spec fn observer_place(s: Seq<ManagedObserver>, id: ObserverId) -> int {
    choose|i: int| 0 <= i < s.len() && (#[trigger] s[i]).info.id == id
}

/// Whether an observer has that number.
pub open spec fn has_number(s: Seq<ManagedObserver>, id: ObserverId) -> bool {
    exists|i: int| 0 <= i < s.len() && (#[trigger] s[i]).info.id == id
}

/// The observers without the one of that number, if there is one.
pub open spec fn without(s: Seq<ManagedObserver>, id: ObserverId) -> Seq<ManagedObserver> {
    if has_number(s, id) {
        s.remove(observer_place(s, id))
    } else {
        s
    }
}

/// Whether observers stand by rising numbers below `next`.
pub open spec fn numbered(s: Seq<ManagedObserver>, next: ObserverId) -> bool {
    &&& forall|i: int, j: int|
        #![trigger s[i], s[j]]
        0 <= i < j < s.len() ==> s[i].info.id < s[j].info.id
    &&& forall|i: int| 0 <= i < s.len() ==> (#[trigger] s[i]).info.id < next
}

/// Why a request is refused before it gets a number: no label, no target, a
/// glob that cannot be read, or a session that has all the observers it may have.
pub open spec fn refusal(
    s: Seq<ManagedObserver>,
    request: ObserverSpec,
    session: Seq<char>,
) -> Option<Seq<char>> {
    if text::blank(request.label@) {
        Some("observer requires a non-empty `label`"@)
    } else if text::blank(request.target@) {
        Some("observer requires a non-empty `target`"@)
    } else if request.kind == ObserverKind::File && request.filter is Some && file::glob_fault(
        request.filter->0@,
    ) is Some {
        Some(
            "invalid filter glob '"@ + request.filter->0@ + "': "@ + file::glob_fault(
                request.filter->0@,
            )->0,
        )
    } else if live(s, session) >= MAX_PER_SESSION {
        Some("too many observers for this session (max 8); stop one first"@)
    } else {
        None
    }
}

/// Why a request fails after it got its number: a URL that cannot be polled, a
/// target that is no process number, or no processes to watch.
pub open spec fn failure(request: ObserverSpec, processes: bool) -> Option<Seq<char>> {
    match request.kind {
        ObserverKind::File => None,
        ObserverKind::Http => match http::target_fault(request.target@) {
            Some(why) => Some("http observer: "@ + why),
            None => None,
        },
        ObserverKind::Process => {
            let n = number::number_of(text::trim(request.target@));
            if n is None || n->0 > u64::MAX {
                Some(
                    "process observer: target must be a numeric process id, got '"@ + request.target@
                        + "'"@,
                )
            } else if !processes {
                Some(
                    "process observer: no ProcessSupervisor is wired into the ObserverSupervisor"@,
                )
            } else {
                None
            }
        },
    }
}

/// Whether a plan is that of a request.
pub open spec fn plans(plan: SourcePlan, request: ObserverSpec, ctx: ObserverContext) -> bool {
    match request.kind {
        ObserverKind::File => match plan {
            SourcePlan::File { target, names } => target == request.target && match request.filter {
                Some(f) => names is Some && names->0@ == f@,
                None => names is None,
            },
            _ => false,
        },
        ObserverKind::Http => match plan {
            SourcePlan::Http(s) => {
                &&& s.ctx == ctx
                &&& s.target@ == request.target@
                &&& s.interval_secs == http::poll_interval(request.http_mode, request.interval_secs)
                &&& s@ == (http::WatchState {
                    mode: request.http_mode,
                    filter: text::opt_view(request.filter),
                    last: None,
                    finished: false,
                })
            },
            _ => false,
        },
        ObserverKind::Process => match plan {
            SourcePlan::Process { pid, filter } => filter == request.filter && number::number_of(
                text::trim(request.target@),
            ) == Some(pid as nat),
            _ => false,
        },
    }
}

/// What an event carries once its routing is filled in where the source left it
/// out.
pub open spec fn stamped(
    e: ObserverEvent,
    id: ObserverId,
    session: Seq<char>,
) -> (Seq<char>, ObserverId) {
    (
        if e.session_id@.len() == 0 {
            session
        } else {
            e.session_id@
        },
        if e.id == 0 {
            id
        } else {
            e.id
        },
    )
}

/// Fills in the session and the number of an event where the source left them
/// out.
pub fn stamp_event(e: ObserverEvent, id: ObserverId, session_id: &str) -> (r: ObserverEvent)
    ensures
        (r.session_id@, r.id) == stamped(e, id, session_id@),
        r.label == e.label,
        r.summary == e.summary,
{
    let v: Vec<char> = text::chars_of(e.session_id.as_str());
    let sid: String = if v.len() == 0 {
        session_id.to_owned()
    } else {
        e.session_id
    };
    let n: ObserverId = if e.id == 0 {
        id
    } else {
        e.id
    };
    ObserverEvent { session_id: sid, id: n, label: e.label, summary: e.summary }
}

/// Why an observer of a kind could not be started, given why its source could
/// not be opened.
pub fn source_failure(kind: ObserverKind, why: &str) -> (r: String)
    ensures
        r@ == source::kind_name(kind) + " observer: "@ + why@,
{
    let mut out: String = kind.as_str().to_owned();
    out.append(" observer: ");
    out.append(why);
    out
}

/// The number that a text that may be padded writes.
fn process_number(s: &str) -> (r: Option<u64>)
    ensures
        match r {
            Some(n) => number::number_of(text::trim(s@)) == Some(n as nat),
            None => number::number_of(text::trim(s@)) is None || number::number_of(
                text::trim(s@),
            )->0 > u64::MAX,
        },
{
    let t: String = text::trim_text(s);
    number::parse_number(t.as_str(), u64::MAX)
}

impl ObserverSupervisor {
    /// Whether the observers stand by rising numbers, all of them given out.
    pub open spec fn wf(&self) -> bool {
        &&& numbered(self.observers@, self.next_id)
        &&& self.next_id >= 1
    }

    /// A supervisor without observers.
    pub fn new() -> (r: Self)
        ensures
            r.wf(),
            r.observers@ == Seq::<ManagedObserver>::empty(),
            r.next_id == 1,
            r.deferred@ == Seq::<Deferred>::empty(),
    {
        ObserverSupervisor { observers: Vec::new(), next_id: 1, deferred: Vec::new() }
    }

    /// The observers of a session.
    fn owned(&self, session_id: &str) -> (r: Vec<ManagedObserver>)
        ensures
            r@ == self.observers@.filter(owned_by(session_id@)),
    {
        let ghost all = self.observers@;
        let ghost own = owned_by(session_id@);
        let mut out: Vec<ManagedObserver> = Vec::new();
        let mut i: usize = 0;
        proof {
            reveal(Seq::filter);
            assert(all.take(0).filter(own) =~= Seq::<ManagedObserver>::empty());
        }
        while i < self.observers.len()
            invariant
                i <= all.len(),
                self.observers@ == all,
                own == owned_by(session_id@),
                out@ == all.take(i as int).filter(own),
            decreases all.len() - i,
        {
            proof {
                seqs::lemma_filter_take(all, own, i as int);
            }
            if same_text(self.observers[i].session_id.as_str(), session_id) {
                out.push(self.observers[i].clone());
            }
            i = i + 1;
        }
        proof {
            assert(all.take(i as int) =~= all);
        }
        out
    }

    /// Accepts a request of a session for an observer, or says why not.
    /// `processes` tells whether there are background processes to watch. An
    /// accepted request gets the next number, and so does one that fails only
    /// when its source is made; the number is not given out again.
    pub fn start(
        &mut self,
        request: ObserverSpec,
        session_id: &str,
        processes: bool,
    ) -> (r: Result<Accepted, String>)
        requires
            old(self).wf(),
            old(self).next_id < ObserverId::MAX,
        ensures
            final(self).wf(),
            final(self).observers@ == old(self).observers@,
            final(self).deferred@ == old(self).deferred@,
            final(self).next_id == if refusal(old(self).observers@, request, session_id@) is Some {
                old(self).next_id as int
            } else {
                old(self).next_id + 1
            },
            match r {
                Ok(a) => {
                    &&& refusal(old(self).observers@, request, session_id@) is None
                    &&& failure(request, processes) is None
                    &&& a.ctx.id == old(self).next_id
                    &&& a.ctx.session_id@ == session_id@
                    &&& a.ctx.label == request.label
                    &&& a.kind == request.kind
                    &&& a.target == request.target
                    &&& plans(a.plan, request, a.ctx)
                },
                Err(e) => match refusal(old(self).observers@, request, session_id@) {
                    Some(why) => e@ == why,
                    None => failure(request, processes) == Some(e@),
                },
            },
    {
        if is_blank(request.label.as_str()) {
            return Err("observer requires a non-empty `label`".to_owned());
        }
        if is_blank(request.target.as_str()) {
            return Err("observer requires a non-empty `target`".to_owned());
        }
        let names: Option<NameFilter> = match (request.kind, &request.filter) {
            (ObserverKind::File, Some(pat)) => match NameFilter::compile(pat.as_str()) {
                Ok(f) => Some(f),
                Err(why) => {
                    let mut e: String = "invalid filter glob '".to_owned();
                    e.append(pat.as_str());
                    e.append("': ");
                    e.append(why.as_str());
                    return Err(e);
                },
            },
            _ => None,
        };
        if self.owned(session_id).len() >= MAX_PER_SESSION {
            return Err("too many observers for this session (max 8); stop one first".to_owned());
        }
        let id: ObserverId = self.next_id;
        self.next_id = id + 1;
        let ctx = ObserverContext {
            session_id: session_id.to_owned(),
            id,
            label: request.label.clone(),
        };
        let plan: SourcePlan = match request.kind {
            ObserverKind::File => {
                SourcePlan::File { target: request.target.clone(), names }
            },
            ObserverKind::Http => match HttpSource::new(
                ctx.clone(),
                request.target.as_str(),
                request.interval_secs,
                copy_opt(&request.filter),
                request.http_mode,
            ) {
                Ok(s) => SourcePlan::Http(s),
                Err(why) => {
                    let mut e: String = "http observer: ".to_owned();
                    e.append(why.as_str());
                    return Err(e);
                },
            },
            ObserverKind::Process => match process_number(request.target.as_str()) {
                None => {
                    let mut e: String =
                        "process observer: target must be a numeric process id, got '".to_owned();
                    e.append(request.target.as_str());
                    e.append("'");
                    return Err(e);
                },
                Some(pid) => {
                    if !processes {
                        return Err(
                            "process observer: no ProcessSupervisor is wired into the ObserverSupervisor".to_owned(),
                        );
                    }
                    SourcePlan::Process { pid, filter: copy_opt(&request.filter) }
                },
            },
        };
        Ok(Accepted { ctx, kind: request.kind, target: request.target, plan })
    }

    /// Takes in an accepted observer that now runs.
    pub fn attach(&mut self, info: ObserverInfo, session_id: &str)
        requires
            old(self).wf(),
            info.id < old(self).next_id,
            forall|i: int|
                0 <= i < old(self).observers@.len() ==> (#[trigger] old(self).observers@[i]).info.id
                    != info.id,
        ensures
            final(self).wf(),
            final(self).next_id == old(self).next_id,
            final(self).deferred@ == old(self).deferred@,
            exists|k: int, o: ManagedObserver|
                0 <= k <= old(self).observers@.len() && o.info == info && o.session_id@
                    == session_id@ && final(self).observers@ == #[trigger] old(
                    self,
                ).observers@.insert(k, o),
    {
        let ghost before = self.observers@;
        let mut k: usize = 0;
        while k < self.observers.len() && self.observers[k].info.id < info.id
            invariant
                k <= before.len(),
                self.observers@ == before,
                forall|i: int| 0 <= i < k ==> (#[trigger] before[i]).info.id < info.id,
            decreases before.len() - k,
        {
            k = k + 1;
        }
        let o = ManagedObserver { info, session_id: session_id.to_owned() };
        let ghost added = o;
        self.observers.insert(k, o);
        proof {
            let after = self.observers@;
            assert(after == before.insert(k as int, added));
            assert forall|a: int, b: int|
                #![trigger after[a], after[b]]
                0 <= a < b < after.len() implies after[a].info.id < after[b].info.id by {
                let x = if a < k {
                    a
                } else {
                    a - 1
                };
                let y = if b < k {
                    b
                } else {
                    b - 1
                };
                if a == k {
                    assert(after[b] == before[y]);
                    assert(before[k as int].info.id > info.id);
                } else if b == k {
                    assert(after[a] == before[x]);
                } else {
                    assert(after[a] == before[x] && after[b] == before[y]);
                }
            }
            assert forall|a: int| 0 <= a < after.len() implies (#[trigger] after[a]).info.id
                < self.next_id by {
                if a < k {
                    assert(after[a] == before[a]);
                } else if a > k {
                    assert(after[a] == before[a - 1]);
                }
            }
        }
    }

    /// The place of an observer of the session.
    fn find(&self, id: ObserverId, session_id: &str) -> (r: Option<usize>)
        requires
            self.wf(),
        ensures
            match r {
                Some(i) => i < self.observers@.len() && i == observer_place(self.observers@, id)
                    && self.observers@[i as int].info.id == id && runs_for(
                    self.observers@,
                    id,
                    session_id@,
                ),
                None => !runs_for(self.observers@, id, session_id@),
            },
    {
        let mut i: usize = 0;
        while i < self.observers.len()
            invariant
                self.wf(),
                i <= self.observers@.len(),
                forall|j: int|
                    0 <= j < i ==> !((#[trigger] self.observers@[j]).info.id == id
                        && self.observers@[j].session_id@ == session_id@),
            decreases self.observers@.len() - i,
        {
            if self.observers[i].info.id == id && same_text(
                self.observers[i].session_id.as_str(),
                session_id,
            ) {
                proof {
                    let p = observer_place(self.observers@, id);
                    assert(self.observers@[i as int].info.id == id);
                    assert(0 <= p < self.observers@.len() && self.observers@[p].info.id == id);
                }
                return Some(i);
            }
            i = i + 1;
        }
        None
    }

    /// Removes the observer at a place.
    fn remove_at(&mut self, i: usize)
        requires
            old(self).wf(),
            i < old(self).observers@.len(),
        ensures
            final(self).wf(),
            final(self).next_id == old(self).next_id,
            final(self).deferred@ == old(self).deferred@,
            final(self).observers@ == old(self).observers@.remove(i as int),
    {
        let ghost before = self.observers@;
        self.observers.remove(i);
        proof {
            let after = self.observers@;
            assert(after =~= before.remove(i as int));
            assert forall|a: int, b: int|
                #![trigger after[a], after[b]]
                0 <= a < b < after.len() implies after[a].info.id < after[b].info.id by {
                let x = if a < i {
                    a
                } else {
                    a + 1
                };
                let y = if b < i {
                    b
                } else {
                    b + 1
                };
                assert(after[a] == before[x] && after[b] == before[y]);
            }
            assert forall|a: int| 0 <= a < after.len() implies (#[trigger] after[a]).info.id
                < self.next_id by {
                if a < i {
                    assert(after[a] == before[a]);
                } else {
                    assert(after[a] == before[a + 1]);
                }
            }
        }
    }

    /// Removes an observer whose source has ended. A number that no observer
    /// has is passed over.
    pub fn source_ended(&mut self, id: ObserverId)
        requires
            old(self).wf(),
        ensures
            final(self).wf(),
            final(self).next_id == old(self).next_id,
            final(self).deferred@ == old(self).deferred@,
            final(self).observers@ == without(old(self).observers@, id),
    {
        let mut i: usize = 0;
        while i < self.observers.len()
            invariant
                *self == *old(self),
                self.wf(),
                i <= self.observers@.len(),
                forall|j: int| 0 <= j < i ==> (#[trigger] self.observers@[j]).info.id != id,
            decreases self.observers@.len() - i,
        {
            if self.observers[i].info.id == id {
                proof {
                    let p = observer_place(self.observers@, id);
                    assert(self.observers@[i as int].info.id == id);
                    assert(0 <= p < self.observers@.len() && self.observers@[p].info.id == id);
                    assert(p == i);
                }
                self.remove_at(i);
                return;
            }
            i = i + 1;
        }
    }

    /// Whether an observer runs for the session, which may then stop it.
    pub fn may_stop(&self, id: ObserverId, session_id: &str) -> (r: bool)
        requires
            self.wf(),
        ensures
            r == runs_for(self.observers@, id, session_id@),
    {
        match self.find(id, session_id) {
            Some(_) => true,
            None => false,
        }
    }

    /// Removes an observer of the session. An observer of another session is
    /// answered like one that does not exist.
    pub fn stop(&mut self, id: ObserverId, session_id: &str) -> (r: Result<String, String>)
        requires
            old(self).wf(),
        ensures
            final(self).wf(),
            final(self).next_id == old(self).next_id,
            final(self).deferred@ == old(self).deferred@,
            match r {
                Ok(msg) => {
                    &&& runs_for(old(self).observers@, id, session_id@)
                    &&& final(self).observers@ == old(self).observers@.remove(
                        observer_place(old(self).observers@, id),
                    )
                    &&& msg@ == "observer "@ + number::decimal(id as nat) + " stopped"@
                },
                Err(e) => {
                    &&& !runs_for(old(self).observers@, id, session_id@)
                    &&& final(self).observers@ == old(self).observers@
                    &&& e@ == "no such observer: "@ + number::decimal(id as nat)
                },
            },
    {
        let n: String = number::u64_text(id);
        match self.find(id, session_id) {
            Some(i) => {
                self.remove_at(i);
                let mut msg: String = "observer ".to_owned();
                msg.append(n.as_str());
                msg.append(" stopped");
                Ok(msg)
            },
            None => {
                let mut e: String = "no such observer: ".to_owned();
                e.append(n.as_str());
                Err(e)
            },
        }
    }

    /// The observers of a session, the one with the lowest number first.
    pub fn list(&self, session_id: &str) -> (r: Vec<ObserverInfo>)
        ensures
            r@ == infos(self.observers@.filter(owned_by(session_id@))),
    {
        let own: Vec<ManagedObserver> = self.owned(session_id);
        let mut out: Vec<ObserverInfo> = Vec::new();
        let mut i: usize = 0;
        while i < own.len()
            invariant
                i <= own@.len(),
                out@ == infos(own@).take(i as int),
            decreases own@.len() - i,
        {
            out.push(own[i].info.clone());
            i = i + 1;
            proof {
                assert(out@ =~= infos(own@).take(i as int));
            }
        }
        proof {
            assert(infos(own@).take(i as int) =~= infos(own@));
        }
        out
    }

    /// Removes all observers of a session; tells how many there were.
    pub fn reap_session(&mut self, session_id: &str) -> (r: usize)
        requires
            old(self).wf(),
        ensures
            final(self).wf(),
            final(self).next_id == old(self).next_id,
            final(self).deferred@ == old(self).deferred@,
            final(self).observers@ == old(self).observers@.filter(not_owned_by(session_id@)),
            r == live(old(self).observers@, session_id@),
    {
        let ghost all = self.observers@;
        let ghost others = not_owned_by(session_id@);
        let count: usize = self.owned(session_id).len();
        let mut kept: Vec<ManagedObserver> = Vec::new();
        let mut i: usize = 0;
        proof {
            reveal(Seq::filter);
            assert(all.take(0).filter(others) =~= Seq::<ManagedObserver>::empty());
        }
        while i < self.observers.len()
            invariant
                i <= all.len(),
                self.observers@ == all,
                others == not_owned_by(session_id@),
                kept@ == all.take(i as int).filter(others),
            decreases all.len() - i,
        {
            proof {
                seqs::lemma_filter_take(all, others, i as int);
            }
            if !same_text(self.observers[i].session_id.as_str(), session_id) {
                kept.push(self.observers[i].clone());
            }
            i = i + 1;
        }
        proof {
            assert(all.take(i as int) =~= all);
            lemma_filter_keeps_numbers(all, others, self.next_id);
        }
        self.observers = kept;
        count
    }

    /// Lets an event wait for its session to be idle.
    pub fn buffer_event(&mut self, session_id: &str, event: ObserverEvent)
        ensures
            final(self).observers@ == old(self).observers@,
            final(self).next_id == old(self).next_id,
            exists|d: Deferred|
                d.session_id@ == session_id@ && d.event == event && final(self).deferred@
                    == #[trigger] old(self).deferred@.push(d),
    {
        let d = Deferred { session_id: session_id.to_owned(), event };
        let ghost added = d;
        let ghost before = self.deferred@;
        self.deferred.push(d);
        proof {
            assert(self.deferred@ == before.push(added));
        }
    }

    /// Hands out the events that wait for a session, in the order in which they
    /// came, and lets them wait no more.
    pub fn drain_buffer(&mut self, session_id: &str) -> (r: Vec<ObserverEvent>)
        ensures
            final(self).observers@ == old(self).observers@,
            final(self).next_id == old(self).next_id,
            r@ == events(old(self).deferred@.filter(waits_for(session_id@))),
            final(self).deferred@ == old(self).deferred@.filter(waits_for_another(session_id@)),
    {
        let ghost all = self.deferred@;
        let ghost own = waits_for(session_id@);
        let ghost others = waits_for_another(session_id@);
        let mut out: Vec<ObserverEvent> = Vec::new();
        let mut kept: Vec<Deferred> = Vec::new();
        let mut i: usize = 0;
        proof {
            reveal(Seq::filter);
            assert(out@ =~= events(all.take(0).filter(own)));
            assert(all.take(0).filter(others) =~= Seq::<Deferred>::empty());
        }
        while i < self.deferred.len()
            invariant
                i <= all.len(),
                self.deferred@ == all,
                own == waits_for(session_id@),
                others == waits_for_another(session_id@),
                out@ == events(all.take(i as int).filter(own)),
                kept@ == all.take(i as int).filter(others),
            decreases all.len() - i,
        {
            let ghost upto = all.take(i as int).filter(own);
            let ghost before = out@;
            proof {
                seqs::lemma_filter_take(all, own, i as int);
                seqs::lemma_filter_take(all, others, i as int);
            }
            if same_text(self.deferred[i].session_id.as_str(), session_id) {
                out.push(self.deferred[i].event.clone());
                proof {
                    assert(events(upto.push(all[i as int])) =~= events(upto).push(
                        all[i as int].event,
                    ));
                }
            } else {
                kept.push(self.deferred[i].clone());
            }
            i = i + 1;
        }
        proof {
            assert(all.take(i as int) =~= all);
        }
        self.deferred = kept;
        out
    }

    /// Whether events wait for a session.
    pub fn has_buffered(&self, session_id: &str) -> (r: bool)
        ensures
            r == (events(self.deferred@.filter(waits_for(session_id@))).len() > 0),
    {
        let ghost all = self.deferred@;
        let ghost own = waits_for(session_id@);
        let mut i: usize = 0;
        proof {
            reveal(Seq::filter);
            assert(all.take(0).filter(own).len() == 0);
        }
        while i < self.deferred.len()
            invariant
                i <= all.len(),
                self.deferred@ == all,
                own == waits_for(session_id@),
                all.take(i as int).filter(own).len() == 0,
            decreases all.len() - i,
        {
            proof {
                seqs::lemma_filter_take(all, own, i as int);
            }
            if same_text(self.deferred[i].session_id.as_str(), session_id) {
                proof {
                    all.lemma_filter_contains(own, i as int);
                }
                return true;
            }
            i = i + 1;
        }
        proof {
            assert(all.take(i as int) =~= all);
        }
        false
    }
}

/// Observers that stand by rising numbers still do once some are left out.
proof fn lemma_filter_keeps_numbers(
    s: Seq<ManagedObserver>,
    pred: spec_fn(ManagedObserver) -> bool,
    bound: ObserverId,
)
    requires
        forall|i: int, j: int|
            #![trigger s[i], s[j]]
            0 <= i < j < s.len() ==> s[i].info.id < s[j].info.id,
        forall|i: int| 0 <= i < s.len() ==> (#[trigger] s[i]).info.id < bound,
    ensures
        forall|i: int, j: int|
            #![trigger s.filter(pred)[i], s.filter(pred)[j]]
            0 <= i < j < s.filter(pred).len() ==> s.filter(pred)[i].info.id < s.filter(
                pred,
            )[j].info.id,
        forall|i: int|
            0 <= i < s.filter(pred).len() ==> (#[trigger] s.filter(pred)[i]).info.id < bound,
{
    seqs::lemma_filter_pairwise(
        s,
        pred,
        |a: ManagedObserver, b: ManagedObserver| a.info.id < b.info.id,
    );
    assert forall|i: int| 0 <= i < s.filter(pred).len() implies (#[trigger] s.filter(
        pred,
    )[i]).info.id < bound by {
        seqs::lemma_filter_from(s, pred, i);
        let m = choose|m: int| 0 <= m < s.len() && s[m] == s.filter(pred)[i];
        assert(s[m].info.id < bound);
    }
}

/// A session never gets more observers than it may have: a request that is not
/// refused leaves room for its observer, and the observers of other sessions do
/// not count.
pub proof fn law_a_session_stays_within_its_cap(
    s: Seq<ManagedObserver>,
    request: ObserverSpec,
    session: Seq<char>,
    k: int,
    o: ManagedObserver,
    other: Seq<char>,
)
    requires
        refusal(s, request, session) is None,
        0 <= k <= s.len(),
        o.session_id@ == session,
        other != session,
    ensures
        live(s.insert(k, o), session) <= MAX_PER_SESSION,
        live(s.insert(k, o), session) == live(s, session) + 1,
        live(s.insert(k, o), other) == live(s, other),
{
    seqs::lemma_filter_insert_len(s, owned_by(session), k, o);
    seqs::lemma_filter_insert_len(s, owned_by(other), k, o);
}

/// A request without a label or a target, or of a session that has all the
/// observers it may have, is refused, and what runs for other sessions does not
/// matter. So a session that may start no further observer is one that lists the
/// most it may have.
pub proof fn law_refusal_looks_at_the_session_alone(
    s: Seq<ManagedObserver>,
    t: Seq<ManagedObserver>,
    request: ObserverSpec,
    session: Seq<char>,
)
    requires
        infos(s.filter(owned_by(session))) == infos(t.filter(owned_by(session))),
    ensures
        refusal(s, request, session) == refusal(t, request, session),
        text::blank(request.label@) ==> refusal(s, request, session) is Some,
        text::blank(request.target@) ==> refusal(s, request, session) is Some,
        infos(s.filter(owned_by(session))).len() >= MAX_PER_SESSION ==> refusal(
            s,
            request,
            session,
        ) is Some,
{
    assert(infos(s.filter(owned_by(session))).len() == live(s, session));
    assert(infos(t.filter(owned_by(session))).len() == live(t, session));
}

/// An observer that is accepted and then runs has a number above all others, is
/// listed last by its session, and changes the list of no other session.
pub proof fn law_a_started_observer_is_listed_last(
    s: Seq<ManagedObserver>,
    next: ObserverId,
    k: int,
    o: ManagedObserver,
    session: Seq<char>,
    other: Seq<char>,
)
    requires
        numbered(s, next),
        next < ObserverId::MAX,
        o.info.id == next,
        o.session_id@ == session,
        other != session,
        0 <= k <= s.len(),
        numbered(s.insert(k, o), (next + 1) as ObserverId),
    ensures
        forall|i: int| 0 <= i < s.len() ==> (#[trigger] s[i]).info.id < o.info.id,
        s.insert(k, o) == s.push(o),
        infos(s.insert(k, o).filter(owned_by(session))) == infos(
            s.filter(owned_by(session)),
        ).push(o.info),
        infos(s.insert(k, o).filter(owned_by(other))) == infos(s.filter(owned_by(other))),
{
    let t = s.insert(k, o);
    if k < s.len() {
        assert(t[k] == o && t[k + 1] == s[k]);
        assert(t[k].info.id < t[k + 1].info.id);
        assert(s[k].info.id < next);
    }
    assert(t =~= s.push(o));
    reveal(Seq::filter);
    assert(s.push(o).drop_last() =~= s);
    assert(infos(t.filter(owned_by(session))) =~= infos(s.filter(owned_by(session))).push(
        o.info,
    ));
}

/// An observer whose source has ended is not listed any more and leaves room for
/// another one; the observers of other sessions stay.
pub proof fn law_an_ended_observer_leaves_room(
    s: Seq<ManagedObserver>,
    next: ObserverId,
    id: ObserverId,
    session: Seq<char>,
    other: Seq<char>,
)
    requires
        numbered(s, next),
        runs_for(s, id, session),
        other != session,
    ensures
        !has_number(without(s, id), id),
        live(without(s, id), session) == live(s, session) - 1,
        live(without(s, id), other) == live(s, other),
{
    let i = choose|i: int|
        0 <= i < s.len() && (#[trigger] s[i]).info.id == id && s[i].session_id@ == session;
    let p = observer_place(s, id);
    assert(s[i].info.id == id);
    assert(0 <= p < s.len() && s[p].info.id == id);
    assert(p == i);
    let t = s.remove(p);
    assert(t.insert(p, s[p]) =~= s);
    seqs::lemma_filter_insert_len(t, owned_by(session), p, s[p]);
    seqs::lemma_filter_insert_len(t, owned_by(other), p, s[p]);
    assert forall|j: int| 0 <= j < t.len() implies (#[trigger] t[j]).info.id != id by {
        if j < p {
            assert(t[j] == s[j]);
        } else {
            assert(t[j] == s[j + 1]);
        }
    }
}

/// A session sees its own observers only, cannot stop those of another, and
/// loses none when another session ends.
pub proof fn law_sessions_are_isolated(
    s: Seq<ManagedObserver>,
    session: Seq<char>,
    other: Seq<char>,
)
    requires
        session != other,
    ensures
        forall|i: int|
            0 <= i < s.filter(owned_by(session)).len() ==> (#[trigger] s.filter(
                owned_by(session),
            )[i]).session_id@ == session,
        s.filter(not_owned_by(other)).filter(owned_by(session)) == s.filter(owned_by(session)),
        s.filter(not_owned_by(session)).filter(owned_by(session)) == Seq::<
            ManagedObserver,
        >::empty(),
{
    assert forall|i: int| 0 <= i < s.filter(owned_by(session)).len() implies (#[trigger] s.filter(
        owned_by(session),
    )[i]).session_id@ == session by {
        seqs::lemma_filter_from(s, owned_by(session), i);
    }
    seqs::lemma_filter_narrower(s, not_owned_by(other), owned_by(session));
    seqs::lemma_filter_disjoint(s, not_owned_by(session), owned_by(session));
}

/// An observer that a session cannot see is not one that it may stop.
pub proof fn law_unlisted_observer_cannot_be_stopped(
    s: Seq<ManagedObserver>,
    id: ObserverId,
    session: Seq<char>,
)
    requires
        forall|i: int|
            0 <= i < infos(s.filter(owned_by(session))).len() ==> (#[trigger] infos(
                s.filter(owned_by(session)),
            )[i]).id != id,
    ensures
        !runs_for(s, id, session),
{
    if runs_for(s, id, session) {
        let own = owned_by(session);
        let i = choose|i: int|
            0 <= i < s.len() && (#[trigger] s[i]).info.id == id && s[i].session_id@ == session;
        s.lemma_filter_contains(own, i);
        let f = s.filter(own);
        let m = choose|m: int| 0 <= m < f.len() && f[m] == s[i];
        assert(infos(f)[m].id == id);
    }
}

/// An event that is let wait is handed out last to its session and to no other;
/// once handed out it waits no more, while those of other sessions still do.
pub proof fn law_deferred_events_are_handed_out_once(
    s: Seq<Deferred>,
    d: Deferred,
    session: Seq<char>,
    other: Seq<char>,
)
    requires
        d.session_id@ == session,
        session != other,
    ensures
        events(s.push(d).filter(waits_for(session))) == events(s.filter(waits_for(session))).push(
            d.event,
        ),
        events(s.push(d).filter(waits_for(other))) == events(s.filter(waits_for(other))),
        events(s.filter(waits_for_another(session)).filter(waits_for(session))) == Seq::<
            ObserverEvent,
        >::empty(),
        events(s.filter(waits_for_another(session)).filter(waits_for(other))) == events(
            s.filter(waits_for(other)),
        ),
{
    reveal(Seq::filter);
    assert(s.push(d).drop_last() =~= s);
    assert(events(s.push(d).filter(waits_for(session))) =~= events(
        s.filter(waits_for(session)),
    ).push(d.event));
    seqs::lemma_filter_disjoint(s, waits_for_another(session), waits_for(session));
    seqs::lemma_filter_narrower(s, waits_for_another(session), waits_for(other));
    assert(events(Seq::<Deferred>::empty()) =~= Seq::<ObserverEvent>::empty());
}

} // verus!
