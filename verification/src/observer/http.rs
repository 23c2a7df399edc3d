//! Watching a URL: when to poll it, and which answers wake the agent.
//!
//! A poll that fails, or that is not answered with success, never wakes. In
//! change mode the first body is kept silently and a later body wakes when it
//! differs from the one before; with a filter it must also hold the filter's
//! text. In ready mode the first success wakes, once.
use vstd::prelude::*;
use vstd::string::*;
use crate::observer::source;
use crate::observer::source::{HttpMode, ObserverContext, ObserverEvent};
use crate::text;
use crate::text::same_text;

verus! {

/// The seconds between polls for changes, unless it is said otherwise.
pub const DEFAULT_INTERVAL_SECS: u64 = 60;

/// The fewest seconds between polls for changes.
pub const MIN_INTERVAL_SECS: u64 = 30;

/// The seconds between probes for readiness, unless it is said otherwise.
pub const READY_INTERVAL_SECS: u64 = 2;

/// The fewest seconds between probes for readiness.
pub const MIN_READY_INTERVAL_SECS: u64 = 1;

/// The most bytes of a body that are looked at.
pub const MAX_BODY_BYTES: usize = 1_048_576;

/// The scheme and the host of a URL, or what is wrong with it in words.
pub uninterp spec fn url_parts(s: Seq<char>) -> Result<
    (Seq<char>, Option<Seq<char>>),
    Seq<char>,
>;

/// Reads a URL by `url::Url::parse` and gives its `scheme` and its `host_str`, or
/// the text of the error. They depend on the text of the URL alone.
#[verifier::external_body]
fn read_url(s: &str) -> (r: Result<(String, Option<String>), String>)
    ensures
        match r {
            Ok((scheme, host)) => url_parts(s@) == Ok::<(Seq<char>, Option<Seq<char>>), Seq<char>>(
                (scheme@, text::opt_view(host)),
            ),
            Err(e) => url_parts(s@) == Err::<(Seq<char>, Option<Seq<char>>), Seq<char>>(e@),
        },
{
    match url::Url::parse(s) {
        Ok(u) => Ok((u.scheme().to_string(), u.host_str().map(|h| h.to_string()))),
        Err(e) => Err(format!("{e}")),
    }
}

/// Why a target cannot be polled: it is no URL, its scheme is neither `http` nor
/// `https`, or it names no host. `None` where it can be.
pub open spec fn target_fault(target: Seq<char>) -> Option<Seq<char>> {
    match url_parts(target) {
        Err(why) => Some("invalid URL `"@ + target + "`: "@ + why),
        Ok((scheme, host)) => {
            if scheme != "http"@ && scheme != "https"@ {
                Some("unsupported URL scheme `"@ + scheme + "` (only http/https allowed)"@)
            } else if host is None || host->0.len() == 0 {
                Some("URL has no host: `"@ + target + "`"@)
            } else {
                None
            }
        },
    }
}

/// Why a target cannot be polled.
fn check_target(target: &str) -> (r: Option<String>)
    ensures
        text::opt_view(r) == target_fault(target@),
{
    let (scheme, host): (String, Option<String>) = match read_url(target) {
        Ok(parts) => parts,
        Err(why) => {
            let mut e: String = "invalid URL `".to_owned();
            e.append(target);
            e.append("`: ");
            e.append(why.as_str());
            return Some(e);
        },
    };
    if !same_text(scheme.as_str(), "http") && !same_text(scheme.as_str(), "https") {
        let mut e: String = "unsupported URL scheme `".to_owned();
        e.append(scheme.as_str());
        e.append("` (only http/https allowed)");
        return Some(e);
    }
    let named: bool = match &host {
        Some(h) => {
            proof {
                reveal_strlit("");
                assert(h@.len() == 0 ==> h@ =~= ""@);
            }
            !same_text(h.as_str(), "")
        },
        None => false,
    };
    if !named {
        let mut e: String = "URL has no host: `".to_owned();
        e.append(target);
        e.append("`");
        return Some(e);
    }
    None
}

/// The seconds between polls: what was asked for, but not below the minimum of
/// the mode, or the default of the mode.
pub open spec fn poll_interval(mode: HttpMode, asked: Option<u64>) -> int {
    let (default, least) = match mode {
        HttpMode::Change => (DEFAULT_INTERVAL_SECS as int, MIN_INTERVAL_SECS as int),
        HttpMode::Ready => (READY_INTERVAL_SECS as int, MIN_READY_INTERVAL_SECS as int),
    };
    match asked {
        None => default,
        Some(n) => if n < least {
            least
        } else {
            n as int
        },
    }
}

/// The part of a body that is looked at.
pub open spec fn capped(body: Seq<u8>) -> Seq<u8> {
    if body.len() <= MAX_BODY_BYTES {
        body
    } else {
        body.take(MAX_BODY_BYTES as int)
    }
}

/// What a watch remembers between polls.
pub struct WatchState {
    pub mode: HttpMode,
    pub filter: Option<Seq<char>>,
    /// The last body, once there was one.
    pub last: Option<Seq<u8>>,
    /// Whether the watch has reported all that it ever will.
    pub finished: bool,
}

/// What a watch remembers after a poll.
pub open spec fn after_poll(s: WatchState, success: bool, body: Seq<u8>) -> WatchState {
    if !success || s.finished {
        s
    } else {
        match s.mode {
            HttpMode::Change => WatchState { last: Some(capped(body)), ..s },
            HttpMode::Ready => WatchState { finished: true, ..s },
        }
    }
}

/// What a watch reports on a poll.
pub open spec fn poll_summary(s: WatchState, success: bool, body: Seq<u8>) -> Option<Seq<char>> {
    if !success || s.finished {
        None
    } else {
        match s.mode {
            HttpMode::Ready => Some("target is ready"@),
            HttpMode::Change => {
                if s.last is None || s.last->0 == capped(body) {
                    None
                } else {
                    match s.filter {
                        None => Some("content changed"@),
                        Some(f) => if text::contains_text(text::utf8_lossy(capped(body)), f) {
                            Some("filtered match: \""@ + f + "\""@)
                        } else {
                            None
                        },
                    }
                }
            },
        }
    }
}

/// A watched URL.
#[derive(Debug)]
pub struct HttpSource {
    pub ctx: ObserverContext,
    pub target: String,
    pub interval_secs: u64,
    pub filter: Option<String>,
    pub mode: HttpMode,
    /// The part of the last body that is looked at, once there was one.
    pub last: Option<Vec<u8>>,
    /// Whether the watch has reported all that it ever will.
    pub finished: bool,
}

impl View for HttpSource {
    type V = WatchState;

    open spec fn view(&self) -> WatchState {
        WatchState {
            mode: self.mode,
            filter: text::opt_view(self.filter),
            last: match self.last {
                Some(b) => Some(b@),
                None => None,
            },
            finished: self.finished,
        }
    }
}

/// Adds a part of a body to what was read so far, up to the most that is looked
/// at. Tells whether to read on.
pub fn read_part(body: &mut Vec<u8>, part: &Vec<u8>) -> (r: bool)
    requires
        old(body)@.len() <= MAX_BODY_BYTES,
    ensures
        final(body)@ == capped(old(body)@ + part@),
        final(body)@.len() <= MAX_BODY_BYTES,
        r == (old(body)@.len() < MAX_BODY_BYTES && old(body)@.len() + part@.len()
            <= MAX_BODY_BYTES),
{
    let ghost before = body@;
    let room: bool = body.len() < MAX_BODY_BYTES;
    let mut i: usize = 0;
    while i < part.len() && body.len() < MAX_BODY_BYTES
        invariant
            i <= part@.len(),
            before.len() <= MAX_BODY_BYTES,
            body@ == before + part@.take(i as int),
            body@.len() <= MAX_BODY_BYTES,
        decreases part@.len() - i,
    {
        body.push(part[i]);
        i = i + 1;
        proof {
            assert(part@.take(i as int) =~= part@.take(i - 1).push(part@[i - 1]));
            assert(body@ =~= before + part@.take(i as int));
        }
    }
    proof {
        let all = before + part@;
        if i == part@.len() {
            assert(part@.take(i as int) =~= part@);
        } else {
            assert(body@ =~= all.take(MAX_BODY_BYTES as int));
        }
        if before.len() + part@.len() == MAX_BODY_BYTES {
            assert(i == part@.len());
        }
    }
    room && i == part.len()
}

/// Whether two bodies are the same.
fn same_body(a: &Vec<u8>, b: &Vec<u8>) -> (r: bool)
    ensures
        r == (a@ == b@),
{
    if a.len() != b.len() {
        return false;
    }
    let mut i: usize = 0;
    while i < a.len()
        invariant
            i <= a@.len(),
            a@.len() == b@.len(),
            forall|j: int| 0 <= j < i ==> a@[j] == b@[j],
        decreases a@.len() - i,
    {
        if a[i] != b[i] {
            return false;
        }
        i = i + 1;
    }
    assert(a@ =~= b@);
    true
}

impl HttpSource {
    /// A watch of `target` that has polled nothing yet.
    pub fn new(
        ctx: ObserverContext,
        target: &str,
        interval_secs: Option<u64>,
        filter: Option<String>,
        mode: HttpMode,
    ) -> (r: Result<Self, String>)
        ensures
            match r {
                Ok(s) => {
                    &&& target_fault(target@) is None
                    &&& s.ctx == ctx
                    &&& s.target@ == target@
                    &&& s.interval_secs == poll_interval(mode, interval_secs)
                    &&& s@ == (WatchState {
                        mode,
                        filter: text::opt_view(filter),
                        last: None,
                        finished: false,
                    })
                },
                Err(e) => target_fault(target@) == Some(e@),
            },
    {
        if let Some(e) = check_target(target) {
            return Err(e);
        }
        let (default, least): (u64, u64) = match mode {
            HttpMode::Change => (DEFAULT_INTERVAL_SECS, MIN_INTERVAL_SECS),
            HttpMode::Ready => (READY_INTERVAL_SECS, MIN_READY_INTERVAL_SECS),
        };
        let secs: u64 = match interval_secs {
            None => default,
            Some(n) => if n < least {
                least
            } else {
                n
            },
        };
        Ok(
            HttpSource {
                ctx,
                target: target.to_owned(),
                interval_secs: secs,
                filter,
                mode,
                last: None,
                finished: false,
            },
        )
    }

    /// Takes in the answer to one poll: whether it was a success, and its body.
    /// Gives the event that it makes, if any. A change that does not hold the
    /// filter's text is kept all the same, so that the next body is compared
    /// with it.
    pub fn poll_once(&mut self, success: bool, body: &Vec<u8>) -> (r: Option<ObserverEvent>)
        ensures
            final(self).ctx == old(self).ctx,
            final(self).target == old(self).target,
            final(self).interval_secs == old(self).interval_secs,
            final(self)@ == after_poll(old(self)@, success, body@),
            match poll_summary(old(self)@, success, body@) {
                Some(summary) => r is Some && source::reports(r->0, old(self).ctx, summary),
                None => r is None,
            },
    {
        if !success || self.finished {
            return None;
        }
        match self.mode {
            HttpMode::Ready => {
                self.finished = true;
                return Some(self.ctx.event("target is ready".to_owned()));
            },
            HttpMode::Change => {},
        }
        let mut seen: Vec<u8> = Vec::new();
        let _whole: bool = read_part(&mut seen, body);
        proof {
            assert(Seq::<u8>::empty() + body@ =~= body@);
        }
        let text_of: String = text::lossy_text(&seen);
        let fresh: bool = match &self.last {
            Some(b) => !same_body(b, &seen),
            None => false,
        };
        self.last = Some(seen);
        if !fresh {
            return None;
        }
        match &self.filter {
            None => Some(self.ctx.event("content changed".to_owned())),
            Some(f) => {
                if !text::text_contains(text_of.as_str(), f.as_str()) {
                    return None;
                }
                let mut summary: String = "filtered match: \"".to_owned();
                summary.append(f.as_str());
                summary.append("\"");
                Some(self.ctx.event(summary))
            },
        }
    }
}

/// Reading a body in two parts gives what reading it whole gives.
pub proof fn law_parts_make_the_body(a: Seq<u8>, b: Seq<u8>)
    ensures
        capped(capped(a) + b) == capped(a + b),
{
    assert(capped(capped(a) + b) =~= capped(a + b));
}

/// The first body in change mode is silent, whatever it holds.
pub proof fn law_first_poll_is_silent(s: WatchState, success: bool, body: Seq<u8>)
    requires
        s.mode == HttpMode::Change,
        s.last is None,
    ensures
        poll_summary(s, success, body) is None,
{
}

/// A body that has not changed is silent, and so is a failed poll, which also
/// leaves the watch as it was.
pub proof fn law_unchanged_body_is_silent(s: WatchState, success: bool, body: Seq<u8>, again: bool)
    requires
        s.mode == HttpMode::Change,
    ensures
        success ==> poll_summary(after_poll(s, success, body), again, body) is None,
        poll_summary(s, false, body) is None,
        after_poll(s, false, body) == s,
{
}

/// What lies behind the first bytes of a body that are looked at never wakes.
pub proof fn law_the_tail_of_a_body_is_not_seen(s: WatchState, body: Seq<u8>)
    ensures
        poll_summary(s, true, body) == poll_summary(s, true, capped(body)),
        after_poll(s, true, body) == after_poll(s, true, capped(body)),
{
    assert(capped(capped(body)) =~= capped(body));
}

/// A readiness probe reports once: on the first success, and never again.
pub proof fn law_ready_fires_once(
    s: WatchState,
    body: Seq<u8>,
    success: bool,
    later: Seq<u8>,
)
    requires
        s.mode == HttpMode::Ready,
        !s.finished,
    ensures
        poll_summary(s, true, body) is Some,
        poll_summary(s, false, body) is None,
        poll_summary(after_poll(s, true, body), success, later) is None,
        after_poll(after_poll(s, true, body), success, later) == after_poll(s, true, body),
{
}

} // verus!
