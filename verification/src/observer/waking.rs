//! What wakes the agent and what it is told, in terms of what the outside says; and
//! what becomes of a request for an observer.
use vstd::prelude::*;
use vstd::string::*;
use crate::number;
use crate::observer::event;
use crate::observer::event::ObserverError;
use crate::observer::file;
use crate::observer::file::{ChangeFlags, RawChange};
use crate::observer::http;
use crate::observer::http::WatchState;
use crate::observer::process;
use crate::observer::source;
use crate::observer::source::{
    HttpMode,
    ObserverContext,
    ObserverEvent,
    ObserverId,
    ObserverInfo,
    ObserverKind,
    ObserverSpec,
};
use crate::observer::supervisor;
use crate::observer::supervisor::{ManagedObserver, SourcePlan};
use crate::observer::tool;
use crate::observer::tool::{IdArg, ToolArgs, ToolCall};
use crate::path;
use crate::seqs;
use crate::text;

verus! {

// ---------------------------------------------------------------------------
// Files
// ---------------------------------------------------------------------------

/// A change reads as what the system says of it. A child that comes, by creation or
/// by a move, is created; one that goes is removed; a path reads as modified just
/// where nothing came, went or moved. A change to the target itself is told as such.
pub proof fn law_each_change_reads_as_what_it_is(
    flags: ChangeFlags,
    path: Seq<char>,
    target: Seq<char>,
    is_dir: bool,
    change: RawChange,
)
    requires
        file::understood(flags, path, change),
    ensures
        ({
            let comes = flags.create || flags.moved_to;
            let goes = flags.delete || flags.moved_from;
            let itself = flags.delete_self || flags.move_self;
            let summary = file::change_text(target, is_dir, change);
            &&& comes ==> summary == "created "@ + path
            &&& !comes && goes ==> summary == "removed "@ + path
            &&& !comes && !goes && itself && is_dir ==> summary == "changed "@ + target
            &&& !comes && !goes && itself && !is_dir ==> summary == target
                + " was deleted, renamed, or had its attributes changed"@
            &&& !comes && !goes && !itself ==> summary == "modified "@ + path
            &&& change is Modified <==> !comes && !goes && !itself
            &&& change is Removed <==> !comes && goes
            &&& change is Created <==> comes
        }),
{
}

/// A change goes unreported just where it is one of a child of a watched directory
/// whose name the filter does not match.
pub proof fn law_just_the_children_that_do_not_match_are_passed_over(
    is_dir: bool,
    filter: Option<Seq<char>>,
    child: Option<Seq<char>>,
)
    ensures
        !file::reported(is_dir, filter, child) <==> is_dir && filter is Some && child is Some
            && !file::glob_match(filter->0, child->0),
{
}

/// A child of a directory is named by the directory, one slash and its name.
pub proof fn law_a_child_is_named_under_its_directory(dir: Seq<char>, name: Seq<char>)
    requires
        dir.len() > 0,
    ensures
        dir.last() != '/' ==> path::child_path(dir, name) == dir + seq!['/'] + name,
        dir.last() == '/' ==> path::child_path(dir, name) == dir + name,
{
    reveal_strlit("/");
    assert("/"@ =~= seq!['/']);
}

/// An event names the observer that it is of and says what it is to say.
pub proof fn law_an_event_names_its_observer(
    e: ObserverEvent,
    ctx: ObserverContext,
    summary: Seq<char>,
)
    requires
        source::reports(e, ctx, summary),
    ensures
        e.session_id == ctx.session_id,
        e.id == ctx.id,
        e.label == ctx.label,
        e.summary@ == summary,
{
}

// ---------------------------------------------------------------------------
// URLs
// ---------------------------------------------------------------------------

/// A watch for changes wakes on every body that is another than the last, where a
/// filter's text is in it or there is no filter, and on no other.
pub proof fn law_a_changed_body_wakes(s: WatchState, before: Seq<u8>, body: Seq<u8>)
    requires
        s.mode == HttpMode::Change,
        !s.finished,
        before.len() <= 1_048_576,
        body.len() <= 1_048_576,
    ensures
        ({
            let t = http::after_poll(s, true, before);
            let r = http::poll_summary(t, true, body);
            &&& t.last == Some(before)
            &&& t.mode == s.mode && t.filter == s.filter && !t.finished
            &&& body != before && s.filter is None ==> r == Some("content changed"@)
            &&& body != before && s.filter is Some && text::contains_text(
                text::utf8_lossy(body),
                s.filter->0,
            ) ==> r == Some("filtered match: \""@ + s.filter->0 + "\""@)
            &&& body != before && s.filter is Some && !text::contains_text(
                text::utf8_lossy(body),
                s.filter->0,
            ) ==> r is None
            &&& body == before ==> r is None
        }),
{
}

/// A body is looked at up to its first mebibyte, and to no less of it.
pub proof fn law_a_body_is_looked_at_up_to_a_mebibyte(body: Seq<u8>)
    ensures
        body.len() <= 1_048_576 ==> http::capped(body) == body,
        body.len() > 1_048_576 ==> http::capped(body) == body.take(1_048_576),
{
}

/// A readiness probe waits through every failure and wakes on the first success.
pub proof fn law_a_probe_waits_for_success(s: WatchState, body: Seq<u8>, later: Seq<u8>)
    requires
        s.mode == HttpMode::Ready,
        !s.finished,
    ensures
        http::poll_summary(s, false, body) is None,
        http::poll_summary(http::after_poll(s, false, body), true, later) == Some(
            "target is ready"@,
        ),
        http::after_poll(s, true, later).finished,
{
}

/// Polls are as far apart as was asked for, but no closer than is allowed: half a
/// minute for changes, where a minute is the rule, and a second for readiness, where
/// two are.
pub proof fn law_polls_keep_their_distance(asked: Option<u64>)
    ensures
        asked is None ==> http::poll_interval(HttpMode::Change, asked) == 60
            && http::poll_interval(HttpMode::Ready, asked) == 2,
        asked is Some && asked->0 >= 30 ==> http::poll_interval(HttpMode::Change, asked)
            == asked->0,
        asked is Some && asked->0 < 30 ==> http::poll_interval(HttpMode::Change, asked) == 30,
        asked is Some && asked->0 >= 1 ==> http::poll_interval(HttpMode::Ready, asked) == asked->0,
        asked is Some && asked->0 < 1 ==> http::poll_interval(HttpMode::Ready, asked) == 1,
{
}

/// A target can be polled just where it is a URL of the web with a host.
pub proof fn law_web_addresses_can_be_polled(target: Seq<char>)
    ensures
        http::target_fault(target) is None <==> (match http::url_parts(target) {
            Ok((scheme, host)) => (scheme == "http"@ || scheme == "https"@) && host is Some
                && host->0.len() > 0,
            Err(_) => false,
        }),
        http::url_parts(target) matches Err(why) ==> http::target_fault(target) == Some(
            "invalid URL `"@ + target + "`: "@ + why,
        ),
{
}

// ---------------------------------------------------------------------------
// Processes
// ---------------------------------------------------------------------------

/// New output wakes just where the filter matches some of it, or there is no filter
/// and some output. What is told is the match on one line: each of its characters,
/// with a blank for a line end, up to two hundred, and dots where there are more.
pub proof fn law_matching_output_wakes(filter: Seq<char>, output: Seq<char>, m: Seq<char>)
    ensures
        output.len() > 0 ==> process::output_summary(None, output) == Some(
            "matched: \""@ + output + "\""@,
        ),
        output.len() == 0 ==> process::output_summary(None, output) is None,
        process::regex_match("(?m)"@ + filter, output) is None ==> process::output_summary(
            Some(filter),
            output,
        ) is None,
        process::regex_match("(?m)"@ + filter, output) == Some(m) && 0 < m.len() <= 200
            ==> process::output_summary(Some(filter), output) == Some(
            "matched: \""@ + process::flat(m) + "\""@,
        ),
        process::regex_match("(?m)"@ + filter, output) == Some(m) && m.len() > 200
            ==> process::output_summary(Some(filter), output) == Some(
            "matched: \""@ + (process::flat(m).take(200) + "..."@) + "\""@,
        ),
        process::flat(m).len() == m.len(),
        forall|i: int|
            0 <= i < m.len() ==> #[trigger] process::flat(m)[i] == (if m[i] == '\n' || m[i] == '\r' {
                ' '
            } else {
                m[i]
            }),
{
}

// ---------------------------------------------------------------------------
// Requests
// ---------------------------------------------------------------------------

/// A request that has a label and a target, whose glob can be read, of a session with
/// fewer than eight observers, is not refused; every other is.
pub proof fn law_just_the_requests_out_of_order_are_refused(
    s: Seq<ManagedObserver>,
    request: ObserverSpec,
    session: Seq<char>,
)
    ensures
        supervisor::refusal(s, request, session) is None <==> {
            &&& !text::blank(request.label@)
            &&& !text::blank(request.target@)
            &&& !(request.kind == ObserverKind::File && request.filter is Some && file::glob_fault(
                request.filter->0@,
            ) is Some)
            &&& s.filter(|o: ManagedObserver| o.session_id@ == session).len() < 8
        },
        !text::blank(request.label@) && !text::blank(request.target@) && !(request.kind
            == ObserverKind::File && request.filter is Some && file::glob_fault(
            request.filter->0@,
        ) is Some) && s.filter(|o: ManagedObserver| o.session_id@ == session).len() >= 8
            ==> supervisor::refusal(s, request, session) == Some(
            "too many observers for this session (max 8); stop one first"@,
        ),
{
    assert(supervisor::owned_by(session) =~= |o: ManagedObserver| o.session_id@ == session);
}

/// A request that is not refused fails just where its URL cannot be polled, its
/// process has no number, or there are no processes.
pub proof fn law_just_the_targets_that_do_not_suit_fail(request: ObserverSpec, processes: bool)
    ensures
        request.kind == ObserverKind::File ==> supervisor::failure(request, processes) is None,
        request.kind == ObserverKind::Http ==> (supervisor::failure(request, processes) is None
            <==> http::target_fault(request.target@) is None),
        request.kind == ObserverKind::Process ==> (supervisor::failure(request, processes) is None
            <==> processes && number::number_of(text::trim(request.target@)) is Some
            && number::number_of(text::trim(request.target@))->0 <= u64::MAX),
{
}

/// The source of an observer is the one that was asked for: the path with its glob,
/// the URL with its filter, its mode and its interval and nothing polled yet, or the
/// process with its filter.
pub proof fn law_the_source_is_the_one_asked_for(
    plan: SourcePlan,
    request: ObserverSpec,
    ctx: ObserverContext,
)
    requires
        supervisor::plans(plan, request, ctx),
    ensures
        request.kind == ObserverKind::File ==> plan is File && plan->File_target == request.target
            && (plan->names is Some <==> request.filter is Some) && (request.filter is Some
            ==> plan->names->0@ == request.filter->0@),
        request.kind == ObserverKind::Http ==> plan is Http && plan->Http_0.target@
            == request.target@ && plan->Http_0.mode == request.http_mode && plan->Http_0.interval_secs
            == http::poll_interval(request.http_mode, request.interval_secs) && plan->Http_0.last
            is None && !plan->Http_0.finished && text::opt_view(plan->Http_0.filter)
            == text::opt_view(request.filter) && plan->Http_0.ctx == ctx,
        request.kind == ObserverKind::Process ==> plan is Process && plan->Process_filter
            == request.filter && number::number_of(text::trim(request.target@)) == Some(
            plan->pid as nat,
        ),
{
}

/// A session's list shows each of its observers, and those alone.
pub proof fn law_a_list_shows_each_observer_of_its_session(
    s: Seq<ManagedObserver>,
    session: Seq<char>,
    info: ObserverInfo,
)
    ensures
        supervisor::infos(s.filter(supervisor::owned_by(session))).contains(info) <==> exists|i: int|
            0 <= i < s.len() && (#[trigger] s[i]).info == info && s[i].session_id@ == session,
{
    let f = supervisor::owned_by(session);
    let own = s.filter(f);
    let list = supervisor::infos(own);
    if list.contains(info) {
        let k = choose|k: int| 0 <= k < list.len() && list[k] == info;
        seqs::lemma_filter_from(s, f, k);
        let i = choose|i: int| 0 <= i < s.len() && s[i] == own[k];
        assert(s[i].info == info);
    }
    if exists|i: int| 0 <= i < s.len() && (#[trigger] s[i]).info == info && s[i].session_id@ == session {
        let i = choose|i: int|
            0 <= i < s.len() && (#[trigger] s[i]).info == info && s[i].session_id@ == session;
        s.lemma_filter_contains(f, i);
        let k = choose|k: int| 0 <= k < own.len() && own[k] == s[i];
        assert(list[k] == info);
    }
}

/// A stopped observer is gone, and no other is.
pub proof fn law_just_the_stopped_observer_goes(
    s: Seq<ManagedObserver>,
    next: ObserverId,
    id: ObserverId,
    session: Seq<char>,
    i: int,
)
    requires
        supervisor::numbered(s, next),
        supervisor::runs_for(s, id, session),
        0 <= i < s.len(),
    ensures
        ({
            let t = s.remove(supervisor::observer_place(s, id));
            &&& t.len() == s.len() - 1
            &&& s[i].info.id != id ==> t.contains(s[i])
            &&& forall|j: int| 0 <= j < t.len() ==> (#[trigger] t[j]).info.id != id
        }),
{
    let p = supervisor::observer_place(s, id);
    assert(supervisor::has_number(s, id));
    let t = s.remove(p);
    if i < p {
        assert(t[i] == s[i]);
    } else if i > p {
        assert(t[i - 1] == s[i]);
    }
    assert forall|j: int| 0 <= j < t.len() implies (#[trigger] t[j]).info.id != id by {
        if j < p {
            assert(t[j] == s[j]);
            assert(s[j].info.id < s[p].info.id);
        } else {
            assert(t[j] == s[j + 1]);
            assert(s[p].info.id < s[j + 1].info.id);
        }
    }
}

/// An event goes to the session and under the number that its source gave it, and to
/// those of its observer where the source gave none.
pub proof fn law_an_event_keeps_the_routing_of_its_source(
    e: ObserverEvent,
    id: ObserverId,
    session: Seq<char>,
)
    ensures
        e.session_id@.len() > 0 ==> supervisor::stamped(e, id, session).0 == e.session_id@,
        e.session_id@.len() == 0 ==> supervisor::stamped(e, id, session).0 == session,
        e.id != 0 ==> supervisor::stamped(e, id, session).1 == e.id,
        e.id == 0 ==> supervisor::stamped(e, id, session).1 == id,
{
}

// ---------------------------------------------------------------------------
// Calls
// ---------------------------------------------------------------------------

/// A call is read by its action: it starts what its arguments describe, stops the
/// observer that it names, or lists; without an action that is known, or what the
/// action needs, it is refused.
pub proof fn law_a_call_is_read_by_its_action(args: ToolArgs, root: Seq<char>, call: ToolCall)
    requires
        tool::reads(call, args, root),
    ensures
        args.action is None ==> call is Refused,
        call is List <==> args.action is Some && args.action->0@ == "list"@,
        call is Start ==> args.action is Some && args.action->0@ == "start"@,
        call is Stop ==> args.action is Some && args.action->0@ == "stop"@,
        args.action is Some && args.action->0@ == "stop"@ ==> (match args.observer_id {
            Some(IdArg::Number(n)) => call is Stop && call->Stop_0 == n,
            Some(IdArg::Text(s)) => match number::number_of(text::trim(s@)) {
                Some(n) => if n <= u64::MAX {
                    call is Stop && call->Stop_0 == n
                } else {
                    call is Refused
                },
                None => call is Refused,
            },
            _ => call is Refused,
        }),
        args.action is Some && args.action->0@ == "start"@ && args.label is Some && !text::blank(
            args.label->0@,
        ) && args.kind is None ==> call is Start,
        args.action is Some && args.action->0@ == "start"@ && (args.label is None || text::blank(
            args.label->0@,
        )) ==> call is Refused,
{
    reveal_strlit("start");
    reveal_strlit("stop");
    reveal_strlit("list");
    assert("start"@.len() == 5 && "stop"@.len() == 4 && "list"@.len() == 4);
    assert("stop"@[0] == 's' && "list"@[0] == 'l');
}

/// What is started is what the arguments describe: their label, the kind that they
/// name, or a file, the target as it is, or for a file the path that it means, and a
/// filter where it is not blank.
pub proof fn law_what_is_started_is_what_was_described(
    args: ToolArgs,
    root: Seq<char>,
    call: ToolCall,
)
    requires
        tool::reads(call, args, root),
        call is Start,
    ensures
        ({
            let q = call->Start_0;
            &&& args.label is Some && q.label@ == args.label->0@
            &&& args.kind is None ==> q.kind == ObserverKind::File
            &&& args.kind is Some && args.kind->0@ == "file"@ ==> q.kind == ObserverKind::File
            &&& args.kind is Some && args.kind->0@ == "http"@ ==> q.kind == ObserverKind::Http
            &&& args.kind is Some && args.kind->0@ == "process"@ ==> q.kind
                == ObserverKind::Process
            &&& q.kind != ObserverKind::File ==> args.target is Some && q.target@
                == args.target->0@
            &&& q.kind == ObserverKind::File && args.target is None ==> q.target@ == root
            &&& q.kind == ObserverKind::File && args.target is Some && !text::blank(
                args.target->0@,
            ) && args.target->0@[0] == '/' ==> q.target@ == args.target->0@
            &&& q.kind == ObserverKind::File && args.target is Some && !text::blank(
                args.target->0@,
            ) && args.target->0@[0] != '/' ==> q.target@ == path::child_path(
                root,
                args.target->0@,
            )
            &&& q.filter is Some <==> args.filter is Some && !text::blank(args.filter->0@)
            &&& q.filter is Some ==> q.filter == args.filter
            &&& q.interval_secs == args.interval_secs
            &&& q.http_mode == HttpMode::Ready <==> args.mode is Some && args.mode->0@ == "ready"@
        }),
{
    reveal_strlit("start");
    reveal_strlit("stop");
    reveal_strlit("list");
    reveal_strlit("file");
    reveal_strlit("http");
    reveal_strlit("process");
    reveal_strlit("/");
    assert("file"@[0] == 'f' && "http"@[0] == 'h' && "process"@[0] == 'p');
    assert("/"@ =~= seq!['/']);
    if args.target is Some && !text::blank(args.target->0@) {
        let t = args.target->0@;
        assert(t.len() > 0);
        assert(t.take(1) =~= seq![t[0]]);
        if t[0] != '/' {
            assert(t.take(1)[0] != "/"@[0]);
        }
    }
}

/// Observers are listed by a line each, in order, that tells their number, kind,
/// label, target and start.
pub proof fn law_a_list_has_a_line_for_each_observer(list: Seq<ObserverInfo>, more: ObserverInfo)
    ensures
        list.len() == 0 ==> tool::listed(list) == "No observers."@,
        list.len() > 0 ==> tool::listed(list) == text::trim_end(
            tool::info_lines(list, list.len() as int),
        ),
        tool::info_lines(list, 0).len() == 0,
        tool::info_lines(list.push(more), list.len() as int + 1) == tool::info_lines(
            list,
            list.len() as int,
        ) + ("#"@ + number::decimal(more.id as nat) + " ["@ + source::kind_name(more.kind)
            + "] label=\""@ + more.label@ + "\" target="@ + more.target@ + " (started "@
            + source::rfc3339(more.started_at@.0, more.started_at@.1) + ")\n"@),
{
    lemma_lines_before(list, more, list.len() as int);
}

proof fn lemma_lines_before(list: Seq<ObserverInfo>, more: ObserverInfo, n: int)
    requires
        0 <= n <= list.len(),
    ensures
        tool::info_lines(list.push(more), n) == tool::info_lines(list, n),
    decreases n,
{
    if n > 0 {
        lemma_lines_before(list, more, n - 1);
        assert(list.push(more)[n - 1] == list[n - 1]);
    }
}

/// The answer to a start tells the number to stop the observer by, its kind and its
/// label.
pub proof fn law_a_start_is_answered_with_its_number(
    id: int,
    kind: ObserverKind,
    label: Seq<char>,
    mode: HttpMode,
)
    requires
        0 <= id,
    ensures
        ({
            let r = tool::started(id, kind, label, mode);
            let head = "started observer "@ + number::decimal(id as nat) + ": kind="@
                + source::kind_name(kind) + ", label=\""@ + label + "\""@;
            let tail = "\nstop with action=stop, observer_id="@ + number::decimal(id as nat);
            &&& head.is_prefix_of(r)
            &&& tail.is_suffix_of(r)
            &&& kind != ObserverKind::Http ==> r == head + tail
        }),
{
    let r = tool::started(id, kind, label, mode);
    let head = "started observer "@ + number::decimal(id as nat) + ": kind="@ + source::kind_name(
        kind,
    ) + ", label=\""@ + label + "\""@;
    let note = tool::started_note(kind, mode);
    let tail = "\nstop with action=stop, observer_id="@ + number::decimal(id as nat);
    assert(r =~= head + note + tail);
    assert(r.subrange(r.len() - tail.len(), r.len() as int) =~= tail);
    if kind != ObserverKind::Http {
        reveal_strlit("");
        assert(r =~= head + tail);
    }
}

/// Each kind has a name of its own, by which a call names it.
pub proof fn law_a_kind_is_named_by_its_name(kind: ObserverKind)
    ensures
        tool::named_kind(Some(source::kind_name(kind))) == Some(kind),
{
    reveal_strlit("file");
    reveal_strlit("http");
    reveal_strlit("process");
    assert("file"@[0] == 'f' && "http"@[0] == 'h' && "process"@[0] == 'p');
}

/// An error tells what it is about: the kind, the reason, the number.
pub proof fn law_an_error_tells_what_it_is_about(e: ObserverError)
    ensures
        e matches ObserverError::UnknownKind(k) ==> k@.is_suffix_of(event::error_text(e)),
        e matches ObserverError::InvalidTarget { kind, reason } ==> text::contains_text(
            event::error_text(e),
            kind@,
        ) && reason@.is_suffix_of(event::error_text(e)),
        e matches ObserverError::InvalidFilter(why) ==> why@.is_suffix_of(event::error_text(e)),
        e matches ObserverError::NotFound(id) ==> event::error_text(e) == "observer "@
            + number::decimal(id as nat) + " not found"@,
        e matches ObserverError::Io(why) ==> why@.is_suffix_of(event::error_text(e)),
        e matches ObserverError::Other(why) ==> event::error_text(e) == why@,
{
    let t = event::error_text(e);
    match e {
        ObserverError::UnknownKind(k) => {
            assert(t.subrange(t.len() - k@.len(), t.len() as int) =~= k@);
        },
        ObserverError::InvalidTarget { kind, reason } => {
            let n = "invalid target for "@.len() as int;
            assert(t.subrange(n, n + kind@.len()) =~= kind@);
            assert(text::stands_at(t, kind@, n));
            assert(t.subrange(t.len() - reason@.len(), t.len() as int) =~= reason@);
        },
        ObserverError::InvalidFilter(why) => {
            assert(t.subrange(t.len() - why@.len(), t.len() as int) =~= why@);
        },
        ObserverError::Io(why) => {
            assert(t.subrange(t.len() - why@.len(), t.len() as int) =~= why@);
        },
        _ => {},
    }
}

/// A start is read where it has a label and a kind that is known, and for a kind other
/// than a file a target; else the answer says what it lacks. A blank target of a file
/// stands for the root.
pub proof fn law_a_start_is_read_where_it_tells_enough(
    args: ToolArgs,
    root: Seq<char>,
    call: ToolCall,
)
    requires
        tool::reads(call, args, root),
        args.action is Some,
        args.action->0@ == "start"@,
    ensures
        ({
            let labelled = args.label is Some && !text::blank(args.label->0@);
            let file = args.kind is None || args.kind->0@ == "file"@;
            let http = args.kind is Some && args.kind->0@ == "http"@;
            let process = args.kind is Some && args.kind->0@ == "process"@;
            &&& call is Start <==> labelled && (file || ((http || process) && args.target is Some))
            &&& !(call is Start) ==> call is Refused
            &&& !labelled ==> call->Refused_0@ == "start requires a non-empty `label`"@
            &&& labelled && http && args.target is None ==> call->Refused_0@
                == "start requires a `target` URL for kind=http"@
            &&& labelled && process && args.target is None ==> call->Refused_0@
                == "start requires a numeric `target` process_id for kind=process"@
            &&& labelled && !file && !http && !process ==> call->Refused_0@ == "unknown kind '"@
                + args.kind->0@ + "'; expected one of: file, http, process"@
            &&& call is Start && file && args.target is Some && text::blank(args.target->0@)
                ==> call->Start_0.target@ == root
        }),
{
    reveal_strlit("start");
    reveal_strlit("stop");
    reveal_strlit("list");
    reveal_strlit("file");
    reveal_strlit("http");
    reveal_strlit("process");
    assert("start"@.len() == 5 && "stop"@.len() == 4 && "list"@.len() == 4);
    assert("file"@.len() == 4 && "http"@.len() == 4 && "process"@.len() == 7);
    assert("file"@[0] == 'f' && "http"@[0] == 'h');
}

/// An observer is found by its number, for its own session alone.
pub proof fn law_an_observer_is_found_by_its_number(
    s: Seq<ManagedObserver>,
    i: int,
    session: Seq<char>,
)
    requires
        0 <= i < s.len(),
        forall|a: int, b: int|
            #![trigger s[a], s[b]]
            0 <= a < b < s.len() ==> s[a].info.id != s[b].info.id,
    ensures
        supervisor::observer_place(s, s[i].info.id) == i,
        supervisor::runs_for(s, s[i].info.id, session) <==> s[i].session_id@ == session,
{
    let id = s[i].info.id;
    let k = supervisor::observer_place(s, id);
    assert(0 <= k < s.len() && s[k].info.id == id);
    if k < i {
        assert(s[k].info.id != s[i].info.id);
    }
    if i < k {
        assert(s[i].info.id != s[k].info.id);
    }
    if supervisor::runs_for(s, id, session) {
        let a = choose|a: int|
            0 <= a < s.len() && (#[trigger] s[a]).info.id == id && s[a].session_id@ == session;
        if a < i {
            assert(s[a].info.id != s[i].info.id);
        }
        if i < a {
            assert(s[i].info.id != s[a].info.id);
        }
    }
}

/// A summary of more than the characters that it may have is cut behind them and ends in
/// three dots; any other is whole.
pub proof fn law_a_long_summary_is_cut(s: Seq<char>)
    ensures
        s.len() <= 200 ==> process::clamped(s) == s,
        s.len() > 200 ==> process::clamped(s) == s.take(200) + "..."@,
{
}

} // verus!
