//! What an observer is made of, what it reports and how it is listed.
use vstd::prelude::*;
use vstd::string::*;

verus! {

/// The number of an observer. Numbers start at 1 and are not used twice.
pub type ObserverId = u64;

/// What an observer watches.
#[derive(Debug, Clone, Copy, PartialEq, Eq, Structural)]
pub enum ObserverKind {
    /// A file or a directory.
    File,
    /// A URL, polled.
    Http,
    /// The output of a background process.
    Process,
}

/// The name of a kind.
pub open spec fn kind_name(kind: ObserverKind) -> Seq<char> {
    match kind {
        ObserverKind::File => "file"@,
        ObserverKind::Http => "http"@,
        ObserverKind::Process => "process"@,
    }
}

impl ObserverKind {
    /// The name of the kind.
    pub fn as_str(self) -> (r: &'static str)
        ensures
            r@ == kind_name(self),
    {
        match self {
            ObserverKind::File => "file",
            ObserverKind::Http => "http",
            ObserverKind::Process => "process",
        }
    }
}

/// When a polled URL wakes the agent.
#[derive(Debug, Clone, Copy, PartialEq, Eq, Structural)]
pub enum HttpMode {
    /// Whenever the body changes.
    Change,
    /// Once, when the URL first answers with success.
    Ready,
}

/// What an observer is asked to do.
#[derive(Debug)]
pub struct ObserverSpec {
    /// The name that wakes and lists show.
    pub label: String,
    pub kind: ObserverKind,
    /// A path, a URL or the number of a process.
    pub target: String,
    /// For a directory, a glob that limits which children are reported; for a
    /// URL, a text that the body must hold; for a process, a regular expression.
    pub filter: Option<String>,
    /// For a URL, the seconds between polls.
    pub interval_secs: Option<u64>,
    /// For a URL, when to wake.
    pub http_mode: HttpMode,
}

/// An instant of the years 1 to 9999: whole seconds since 1970 and the
/// nanoseconds past them.
#[derive(Debug, Clone, Copy, PartialEq, Eq)]
pub struct Instant {
    secs: i64,
    nanos: u32,
}

/// Whether seconds since 1970 and nanoseconds past them make an instant.
pub open spec fn is_instant(secs: int, nanos: int) -> bool {
    -62_135_596_800 <= secs <= 253_402_300_799 && 0 <= nanos < 1_000_000_000
}

/// How an instant is written by RFC 3339, in universal time.
pub uninterp spec fn rfc3339(secs: int, nanos: int) -> Seq<char>;

/// Writes an instant by `chrono::DateTime::<Utc>::to_rfc3339`, which depends on
/// the instant alone.
#[verifier::external_body]
fn rfc3339_text(secs: i64, nanos: u32) -> (r: String)
    requires
        is_instant(secs as int, nanos as int),
    ensures
        r@ == rfc3339(secs as int, nanos as int),
{
    match chrono::DateTime::from_timestamp(secs, nanos) {
        Some(at) => at.to_rfc3339(),
        None => String::new(),
    }
}

impl View for Instant {
    type V = (int, int);

    closed spec fn view(&self) -> (int, int) {
        (self.secs as int, self.nanos as int)
    }
}

impl Instant {
    #[verifier::type_invariant]
    closed spec fn in_range(self) -> bool {
        is_instant(self.secs as int, self.nanos as int)
    }

    /// The instant of those seconds and nanoseconds, if there is one.
    pub fn new(secs: i64, nanos: u32) -> (r: Option<Instant>)
        ensures
            match r {
                Some(at) => is_instant(secs as int, nanos as int) && at@ == (
                    secs as int,
                    nanos as int,
                ),
                None => !is_instant(secs as int, nanos as int),
            },
    {
        if secs < -62_135_596_800 || secs > 253_402_300_799 || nanos >= 1_000_000_000 {
            None
        } else {
            Some(Instant { secs, nanos })
        }
    }

    /// How the instant is written by RFC 3339.
    pub fn to_rfc3339(&self) -> (r: String)
        ensures
            r@ == rfc3339(self@.0, self@.1),
    {
        proof {
            use_type_invariant(self);
        }
        rfc3339_text(self.secs, self.nanos)
    }
}

/// An observer as it is listed.
#[derive(Debug)]
pub struct ObserverInfo {
    pub id: ObserverId,
    pub label: String,
    pub kind: ObserverKind,
    pub target: String,
    pub started_at: Instant,
}

impl Clone for ObserverInfo {
    fn clone(&self) -> (r: Self)
        ensures
            r == *self,
    {
        ObserverInfo {
            id: self.id,
            label: self.label.clone(),
            kind: self.kind,
            target: self.target.clone(),
            started_at: self.started_at,
        }
    }
}

/// Something that an observer reports to its session.
#[derive(Debug)]
pub struct ObserverEvent {
    pub session_id: String,
    pub id: ObserverId,
    pub label: String,
    pub summary: String,
}

impl Clone for ObserverEvent {
    fn clone(&self) -> (r: Self)
        ensures
            r == *self,
    {
        ObserverEvent {
            session_id: self.session_id.clone(),
            id: self.id,
            label: self.label.clone(),
            summary: self.summary.clone(),
        }
    }
}

/// Who an observer is: what its events are stamped with.
#[derive(Debug)]
pub struct ObserverContext {
    pub session_id: String,
    pub id: ObserverId,
    pub label: String,
}

impl Clone for ObserverContext {
    fn clone(&self) -> (r: Self)
        ensures
            r == *self,
    {
        ObserverContext {
            session_id: self.session_id.clone(),
            id: self.id,
            label: self.label.clone(),
        }
    }
}

/// Whether an event is that of an observer, with that summary.
pub open spec fn reports(e: ObserverEvent, ctx: ObserverContext, summary: Seq<char>) -> bool {
    e.session_id == ctx.session_id && e.id == ctx.id && e.label == ctx.label && e.summary@
        == summary
}

impl ObserverContext {
    /// An event of this observer.
    pub fn event(&self, summary: String) -> (r: ObserverEvent)
        ensures
            reports(r, *self, summary@),
    {
        ObserverEvent {
            session_id: self.session_id.clone(),
            id: self.id,
            label: self.label.clone(),
            summary,
        }
    }
}

} // verus!
