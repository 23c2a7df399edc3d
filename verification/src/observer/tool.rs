//! The `observer` tool: what its arguments ask for, and how it answers.
use vstd::prelude::*;
use vstd::string::*;
use crate::number;
use crate::observer::source;
use crate::observer::source::{
    HttpMode,
    Instant,
    ObserverId,
    ObserverInfo,
    ObserverKind,
    ObserverSpec,
};
use crate::observer::supervisor;
use crate::observer::supervisor::{source_failure, Accepted, ObserverSupervisor};
use crate::path;
use crate::path::join_path;
use crate::scheduled::approver::Safety;
use crate::text;
use crate::text::{is_blank, same_text, text_starts_with};

verus! {

/// The session of calls that belong to none.
pub const NO_SESSION_TOOL: &'static str = "tool-no-session";

/// The number of an observer as a call gives it.
#[derive(Debug)]
pub enum IdArg {
    /// A whole number.
    Number(u64),
    /// A text.
    Text(String),
    /// Something that is neither.
    Unusable,
}

/// The arguments of a call, those left out being absent.
#[derive(Debug)]
pub struct ToolArgs {
    pub action: Option<String>,
    pub label: Option<String>,
    pub kind: Option<String>,
    pub target: Option<String>,
    pub filter: Option<String>,
    pub mode: Option<String>,
    pub interval_secs: Option<u64>,
    pub observer_id: Option<IdArg>,
}

/// What a call asks for.
#[derive(Debug)]
pub enum ToolCall {
    /// Start that observer.
    Start(ObserverSpec),
    /// Stop the observer of that number.
    Stop(ObserverId),
    /// List the observers.
    List,
    /// Nothing that can be done, for that reason.
    Refused(String),
}

/// The number that a call names, given as a whole number or as a text that
/// writes one.
pub open spec fn named_id(arg: Option<IdArg>) -> Option<int> {
    match arg {
        Some(IdArg::Number(n)) => Some(n as int),
        Some(IdArg::Text(s)) => match number::number_of(text::trim(s@)) {
            Some(n) => if n <= u64::MAX {
                Some(n as int)
            } else {
                None
            },
            None => None,
        },
        _ => None,
    }
}

/// The number that a call names.
pub fn id_arg(arg: &Option<IdArg>) -> (r: Option<ObserverId>)
    ensures
        match r {
            Some(n) => named_id(*arg) == Some(n as int),
            None => named_id(*arg) is None,
        },
{
    match arg {
        Some(IdArg::Number(n)) => Some(*n),
        Some(IdArg::Text(s)) => {
            let t: String = text::trim_text(s.as_str());
            number::parse_number(t.as_str(), u64::MAX)
        },
        _ => None,
    }
}

/// The path that a target means: an absolute one as it is, a relative one under
/// `root`, and `root` itself where there is none.
pub open spec fn resolved(target: Option<Seq<char>>, root: Seq<char>) -> Seq<char> {
    match target {
        Some(t) => if text::blank(t) {
            root
        } else if text::starts_with(t, "/"@) {
            t
        } else {
            path::child_path(root, t)
        },
        None => root,
    }
}

/// The path that a target means.
pub fn resolve_target(target: &Option<String>, root: &str) -> (r: String)
    ensures
        r@ == resolved(text::opt_view(*target), root@),
{
    match target {
        Some(t) => {
            if is_blank(t.as_str()) {
                root.to_owned()
            } else if text_starts_with(t.as_str(), "/") {
                t.clone()
            } else {
                join_path(root, t.as_str())
            }
        },
        None => root.to_owned(),
    }
}

/// The kind that a call names; a file where it names none.
pub open spec fn named_kind(kind: Option<Seq<char>>) -> Option<ObserverKind> {
    match kind {
        None => Some(ObserverKind::File),
        Some(k) => if k == "file"@ {
            Some(ObserverKind::File)
        } else if k == "http"@ {
            Some(ObserverKind::Http)
        } else if k == "process"@ {
            Some(ObserverKind::Process)
        } else {
            None
        },
    }
}

/// The mode that a call names.
pub open spec fn named_mode(mode: Option<Seq<char>>) -> HttpMode {
    if mode == Some("ready"@) {
        HttpMode::Ready
    } else {
        HttpMode::Change
    }
}

/// Why a call to start is refused.
pub open spec fn start_refusal(args: ToolArgs) -> Option<Seq<char>> {
    if args.label is None || text::blank(args.label->0@) {
        Some("start requires a non-empty `label`"@)
    } else {
        match named_kind(text::opt_view(args.kind)) {
            None => Some(
                "unknown kind '"@ + args.kind->0@ + "'; expected one of: file, http, process"@,
            ),
            Some(ObserverKind::Http) => if args.target is None {
                Some("start requires a `target` URL for kind=http"@)
            } else {
                None
            },
            Some(ObserverKind::Process) => if args.target is None {
                Some("start requires a numeric `target` process_id for kind=process"@)
            } else {
                None
            },
            Some(ObserverKind::File) => None,
        }
    }
}

/// Whether `request` is what a call to start asks for.
pub open spec fn asks_for(request: ObserverSpec, args: ToolArgs, root: Seq<char>) -> bool {
    &&& request.label@ == args.label->0@
    &&& Some(request.kind) == named_kind(text::opt_view(args.kind))
    &&& request.target@ == if request.kind == ObserverKind::File {
        resolved(text::opt_view(args.target), root)
    } else {
        args.target->0@
    }
    &&& match args.filter {
        Some(f) => if text::blank(f@) {
            request.filter is None
        } else {
            request.filter == args.filter
        },
        None => request.filter is None,
    }
    &&& request.interval_secs == args.interval_secs
    &&& request.http_mode == named_mode(text::opt_view(args.mode))
}

/// What a call to start asks for.
fn start_call(args: &ToolArgs, root: &str) -> (r: ToolCall)
    ensures
        match start_refusal(*args) {
            Some(why) => r is Refused && r->Refused_0@ == why,
            None => r is Start && asks_for(r->Start_0, *args, root@),
        },
{
    let label: String = match &args.label {
        Some(l) => {
            if is_blank(l.as_str()) {
                return ToolCall::Refused("start requires a non-empty `label`".to_owned());
            }
            l.clone()
        },
        None => {
            return ToolCall::Refused("start requires a non-empty `label`".to_owned());
        },
    };
    let kind: ObserverKind = match &args.kind {
        None => ObserverKind::File,
        Some(k) => {
            if same_text(k.as_str(), "file") {
                ObserverKind::File
            } else if same_text(k.as_str(), "http") {
                ObserverKind::Http
            } else if same_text(k.as_str(), "process") {
                ObserverKind::Process
            } else {
                let mut e: String = "unknown kind '".to_owned();
                e.append(k.as_str());
                e.append("'; expected one of: file, http, process");
                return ToolCall::Refused(e);
            }
        },
    };
    let target: String = match kind {
        ObserverKind::File => resolve_target(&args.target, root),
        ObserverKind::Http => match &args.target {
            Some(t) => t.clone(),
            None => {
                return ToolCall::Refused("start requires a `target` URL for kind=http".to_owned());
            },
        },
        ObserverKind::Process => match &args.target {
            Some(t) => t.clone(),
            None => {
                return ToolCall::Refused(
                    "start requires a numeric `target` process_id for kind=process".to_owned(),
                );
            },
        },
    };
    let filter: Option<String> = match &args.filter {
        Some(f) => {
            if is_blank(f.as_str()) {
                None
            } else {
                Some(f.clone())
            }
        },
        None => None,
    };
    let http_mode: HttpMode = match &args.mode {
        Some(m) => {
            if same_text(m.as_str(), "ready") {
                HttpMode::Ready
            } else {
                HttpMode::Change
            }
        },
        None => HttpMode::Change,
    };
    ToolCall::Start(
        ObserverSpec {
            label,
            kind,
            target,
            filter,
            interval_secs: args.interval_secs,
            http_mode,
        },
    )
}

/// Whether `call` is what the arguments ask for, relative targets being taken
/// under `root`.
pub open spec fn reads(call: ToolCall, args: ToolArgs, root: Seq<char>) -> bool {
    match args.action {
        None => call is Refused && call->Refused_0@
            == "missing required argument: action (start|stop|list)"@,
        Some(a) => if a@ == "start"@ {
            match start_refusal(args) {
                Some(why) => call is Refused && call->Refused_0@ == why,
                None => call is Start && asks_for(call->Start_0, args, root),
            }
        } else if a@ == "stop"@ {
            match named_id(args.observer_id) {
                Some(id) => call is Stop && call->Stop_0 == id,
                None => call is Refused && call->Refused_0@
                    == "stop requires a numeric `observer_id`"@,
            }
        } else if a@ == "list"@ {
            call is List
        } else {
            call is Refused && call->Refused_0@ == "unknown action '"@ + a@
                + "'; expected start|stop|list"@
        },
    }
}

/// What a call asks for, relative targets being taken under `root`.
pub fn read_call(args: &ToolArgs, root: &str) -> (r: ToolCall)
    ensures
        reads(r, *args, root@),
{
    match &args.action {
        None => ToolCall::Refused(
            "missing required argument: action (start|stop|list)".to_owned(),
        ),
        Some(a) => {
            if same_text(a.as_str(), "start") {
                start_call(args, root)
            } else if same_text(a.as_str(), "stop") {
                match id_arg(&args.observer_id) {
                    Some(id) => ToolCall::Stop(id),
                    None => ToolCall::Refused("stop requires a numeric `observer_id`".to_owned()),
                }
            } else if same_text(a.as_str(), "list") {
                ToolCall::List
            } else {
                let mut e: String = "unknown action '".to_owned();
                e.append(a.as_str());
                e.append("'; expected start|stop|list");
                ToolCall::Refused(e)
            }
        },
    }
}

/// How safe a call is: listing only reads.
pub fn safety(action: &Option<String>) -> (r: Safety)
    ensures
        text::opt_view(*action) == Some("list"@) ==> r == Safety::ReadOnly,
        text::opt_view(*action) != Some("list"@) ==> r == Safety::Write,
{
    match action {
        Some(a) => {
            if same_text(a.as_str(), "list") {
                Safety::ReadOnly
            } else {
                Safety::Write
            }
        },
        None => Safety::Write,
    }
}

/// What the answer to a start adds for a URL.
pub open spec fn started_note(kind: ObserverKind, mode: HttpMode) -> Seq<char> {
    match (kind, mode) {
        (ObserverKind::Http, HttpMode::Ready) =>
            "\n(fires once when the target first responds 2xx, then completes.)"@,
        (ObserverKind::Http, HttpMode::Change) =>
            "\n(first poll is silent; the next change wakes the agent.)"@,
        _ => ""@,
    }
}

/// The answer to a start.
pub open spec fn started(
    id: int,
    kind: ObserverKind,
    label: Seq<char>,
    mode: HttpMode,
) -> Seq<char> {
    "started observer "@ + number::decimal(id as nat) + ": kind="@ + source::kind_name(kind)
        + ", label=\""@ + label + "\""@ + started_note(kind, mode)
        + "\nstop with action=stop, observer_id="@ + number::decimal(id as nat)
}

/// The answer to a start.
pub fn started_text(id: ObserverId, kind: ObserverKind, label: &str, mode: HttpMode) -> (r: String)
    ensures
        r@ == started(id as int, kind, label@, mode),
{
    let n: String = number::u64_text(id);
    let note: &'static str = match (kind, mode) {
        (ObserverKind::Http, HttpMode::Ready) => {
            "\n(fires once when the target first responds 2xx, then completes.)"
        },
        (ObserverKind::Http, HttpMode::Change) => {
            "\n(first poll is silent; the next change wakes the agent.)"
        },
        _ => "",
    };
    let mut out: String = "started observer ".to_owned();
    out.append(n.as_str());
    out.append(": kind=");
    out.append(kind.as_str());
    out.append(", label=\"");
    out.append(label);
    out.append("\"");
    out.append(note);
    out.append("\nstop with action=stop, observer_id=");
    out.append(n.as_str());
    out
}

/// One line of the list.
pub open spec fn info_line(info: ObserverInfo) -> Seq<char> {
    "#"@ + number::decimal(info.id as nat) + " ["@ + source::kind_name(info.kind) + "] label=\""@
        + info.label@ + "\" target="@ + info.target@ + " (started "@ + source::rfc3339(
        info.started_at@.0,
        info.started_at@.1,
    ) + ")\n"@
}

/// The first `n` lines of the list.
pub open spec fn info_lines(list: Seq<ObserverInfo>, n: int) -> Seq<char>
    decreases n,
{
    if n <= 0 {
        Seq::empty()
    } else {
        info_lines(list, n - 1) + info_line(list[n - 1])
    }
}

/// How observers are listed: a line each, or a word that there are none.
pub open spec fn listed(list: Seq<ObserverInfo>) -> Seq<char> {
    if list.len() == 0 {
        "No observers."@
    } else {
        text::trim_end(info_lines(list, list.len() as int))
    }
}

/// How observers are listed: a line each, or a word that there are none.
pub fn format_infos(list: &Vec<ObserverInfo>) -> (r: String)
    ensures
        r@ == listed(list@),
{
    if list.len() == 0 {
        return "No observers.".to_owned();
    }
    let mut out = String::new();
    let mut i: usize = 0;
    assert(out@ =~= Seq::<char>::empty());
    while i < list.len()
        invariant
            i <= list@.len(),
            out@ == info_lines(list@, i as int),
        decreases list@.len() - i,
    {
        let info: &ObserverInfo = &list[i];
        let n: String = number::u64_text(info.id);
        let at: String = info.started_at.to_rfc3339();
        let mut line: String = "#".to_owned();
        line.append(n.as_str());
        line.append(" [");
        line.append(info.kind.as_str());
        line.append("] label=\"");
        line.append(info.label.as_str());
        line.append("\" target=");
        line.append(info.target.as_str());
        line.append(" (started ");
        line.append(at.as_str());
        line.append(")\n");
        out.append(line.as_str());
        i = i + 1;
    }
    text::trim_end_text(out.as_str())
}

// ---------------------------------------------------------------------------
// Running a call
// ---------------------------------------------------------------------------

/// The answer to a call.
#[derive(Debug)]
pub struct ToolOutcome {
    pub success: bool,
    pub content: String,
}

/// How far a call got.
#[derive(Debug)]
pub enum ToolStep {
    /// It is answered.
    Done(ToolOutcome),
    /// An observer was accepted, whose source is to be opened.
    Open(Accepted),
}

/// Whether a step is the answer that something went wrong.
pub open spec fn errs(step: ToolStep, why: Seq<char>) -> bool {
    step is Done && !step->Done_0.success && step->Done_0.content@ == why
}

/// Whether a step is the answer that all went well.
pub open spec fn succeeds(step: ToolStep, content: Seq<char>) -> bool {
    step is Done && step->Done_0.success && step->Done_0.content@ == content
}

/// Carries out a call of a session: answers it, or accepts an observer whose
/// source is then to be opened.
pub fn run_with_session(
    sup: &mut ObserverSupervisor,
    args: &ToolArgs,
    root: &str,
    session_id: &str,
    processes: bool,
) -> (r: ToolStep)
    requires
        old(sup).wf(),
        forall|call: ToolCall| #[trigger]
            reads(call, *args, root@) && call is Start ==> old(sup).next_id < ObserverId::MAX,
    ensures
        final(sup).wf(),
        final(sup).deferred@ == old(sup).deferred@,
        exists|call: ToolCall| #[trigger]
            reads(call, *args, root@) && match call {
                ToolCall::Refused(why) => errs(r, why@) && final(sup).observers@ == old(
                    sup,
                ).observers@ && final(sup).next_id == old(sup).next_id,
                ToolCall::List => succeeds(
                    r,
                    listed(
                        supervisor::infos(
                            old(sup).observers@.filter(supervisor::owned_by(session_id@)),
                        ),
                    ),
                ) && final(sup).observers@ == old(sup).observers@ && final(sup).next_id == old(
                    sup,
                ).next_id,
                ToolCall::Stop(id) => {
                    &&& final(sup).next_id == old(sup).next_id
                    &&& if supervisor::runs_for(old(sup).observers@, id, session_id@) {
                        final(sup).observers@ == old(sup).observers@.remove(
                            supervisor::observer_place(old(sup).observers@, id),
                        ) && succeeds(
                            r,
                            "observer "@ + number::decimal(id as nat) + " stopped"@,
                        )
                    } else {
                        final(sup).observers@ == old(sup).observers@ && errs(
                            r,
                            "no such observer: "@ + number::decimal(id as nat),
                        )
                    }
                },
                ToolCall::Start(request) => {
                    &&& final(sup).observers@ == old(sup).observers@
                    &&& match supervisor::refusal(old(sup).observers@, request, session_id@) {
                        Some(why) => errs(r, why) && final(sup).next_id == old(sup).next_id,
                        None => final(sup).next_id == old(sup).next_id + 1
                            && match supervisor::failure(request, processes) {
                            Some(why) => errs(r, why),
                            None => {
                                &&& r is Open
                                &&& r->Open_0.ctx.id == old(sup).next_id
                                &&& r->Open_0.ctx.session_id@ == session_id@
                                &&& r->Open_0.ctx.label == request.label
                                &&& r->Open_0.kind == request.kind
                                &&& r->Open_0.target == request.target
                                &&& supervisor::plans(r->Open_0.plan, request, r->Open_0.ctx)
                            },
                        },
                    }
                },
            },
{
    let call: ToolCall = read_call(args, root);
    let ghost asked = call;
    assert(reads(asked, *args, root@));
    match call {
        ToolCall::Refused(why) => ToolStep::Done(ToolOutcome { success: false, content: why }),
        ToolCall::List => {
            let infos: Vec<ObserverInfo> = sup.list(session_id);
            ToolStep::Done(ToolOutcome { success: true, content: format_infos(&infos) })
        },
        ToolCall::Stop(id) => match sup.stop(id, session_id) {
            Ok(body) => ToolStep::Done(ToolOutcome { success: true, content: body }),
            Err(e) => ToolStep::Done(ToolOutcome { success: false, content: e }),
        },
        ToolCall::Start(request) => match sup.start(request, session_id, processes) {
            Ok(a) => ToolStep::Open(a),
            Err(e) => ToolStep::Done(ToolOutcome { success: false, content: e }),
        },
    }
}

/// Answers a start once its source was opened, or could not be: the observer
/// then runs since `opened`, or there is none for the reason given.
pub fn finish_start(
    sup: &mut ObserverSupervisor,
    accepted: Accepted,
    mode: HttpMode,
    opened: Result<Instant, String>,
) -> (r: ToolOutcome)
    requires
        old(sup).wf(),
        accepted.ctx.id < old(sup).next_id,
        forall|i: int|
            0 <= i < old(sup).observers@.len() ==> (#[trigger] old(sup).observers@[i]).info.id
                != accepted.ctx.id,
    ensures
        final(sup).wf(),
        final(sup).next_id == old(sup).next_id,
        final(sup).deferred@ == old(sup).deferred@,
        match opened {
            Ok(at) => {
                &&& r.success
                &&& r.content@ == started(
                    accepted.ctx.id as int,
                    accepted.kind,
                    accepted.ctx.label@,
                    mode,
                )
                &&& exists|k: int, o: supervisor::ManagedObserver|
                    0 <= k <= old(sup).observers@.len() && o.info == (ObserverInfo {
                        id: accepted.ctx.id,
                        label: accepted.ctx.label,
                        kind: accepted.kind,
                        target: accepted.target,
                        started_at: at,
                    }) && o.session_id@ == accepted.ctx.session_id@ && final(sup).observers@
                        == #[trigger] old(sup).observers@.insert(k, o)
            },
            Err(why) => {
                &&& !r.success
                &&& r.content@ == source::kind_name(accepted.kind) + " observer: "@ + why@
                &&& final(sup).observers@ == old(sup).observers@
            },
        },
{
    match opened {
        Ok(at) => {
            let content: String = started_text(
                accepted.ctx.id,
                accepted.kind,
                accepted.ctx.label.as_str(),
                mode,
            );
            let info = ObserverInfo {
                id: accepted.ctx.id,
                label: accepted.ctx.label,
                kind: accepted.kind,
                target: accepted.target,
                started_at: at,
            };
            sup.attach(info, accepted.ctx.session_id.as_str());
            ToolOutcome { success: true, content }
        },
        Err(why) => ToolOutcome {
            success: false,
            content: source_failure(accepted.kind, why.as_str()),
        },
    }
}

} // verus!
