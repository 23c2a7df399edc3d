//! How observers and what went wrong with them are named to users.
use vstd::prelude::*;
use vstd::string::*;
use crate::number;

verus! {

/// The handle of an observer, shown as `obs#7`.
#[derive(Debug, Clone, Copy, PartialEq, Eq, Hash, Structural)]
pub struct ObserverId(pub u64);

impl ObserverId {
    /// The handle as it is shown.
    pub fn to_text(self) -> (r: String)
        ensures
            r@ == "obs#"@ + number::decimal(self.0 as nat),
    {
        let mut out: String = "obs#".to_owned();
        let n: String = number::u64_text(self.0);
        out.append(n.as_str());
        out
    }
}

/// What can go wrong with an observer.
#[derive(Debug)]
pub enum ObserverError {
    /// There is no kind of that name.
    UnknownKind(String),
    /// The target does not suit the kind.
    InvalidTarget { kind: &'static str, reason: String },
    /// The filter cannot be read.
    InvalidFilter(String),
    /// The session has as many observers as it may have.
    SessionCapReached(usize),
    /// There is no observer of that number.
    NotFound(u64),
    /// Reading or writing failed.
    Io(String),
    /// Anything else.
    Other(String),
}

/// What went wrong, in words.
pub open spec fn error_text(e: ObserverError) -> Seq<char> {
    match e {
        ObserverError::UnknownKind(k) => "unknown observer kind: "@ + k@,
        ObserverError::InvalidTarget { kind, reason } => "invalid target for "@ + kind@ + ": "@
            + reason@,
        ObserverError::InvalidFilter(why) => "invalid filter regex: "@ + why@,
        ObserverError::SessionCapReached(n) => "too many observers for this session (max "@
            + number::decimal(n as nat) + ")"@,
        ObserverError::NotFound(id) => "observer "@ + number::decimal(id as nat) + " not found"@,
        ObserverError::Io(why) => "io error: "@ + why@,
        ObserverError::Other(why) => why@,
    }
}

impl ObserverError {
    /// What went wrong, in words.
    pub fn message(&self) -> (r: String)
        ensures
            r@ == error_text(*self),
    {
        let mut out = String::new();
        match self {
            ObserverError::UnknownKind(k) => {
                out.append("unknown observer kind: ");
                out.append(k.as_str());
            },
            ObserverError::InvalidTarget { kind, reason } => {
                out.append("invalid target for ");
                out.append(kind);
                out.append(": ");
                out.append(reason.as_str());
            },
            ObserverError::InvalidFilter(why) => {
                out.append("invalid filter regex: ");
                out.append(why.as_str());
            },
            ObserverError::SessionCapReached(n) => {
                let t: String = number::u64_text(*n as u64);
                out.append("too many observers for this session (max ");
                out.append(t.as_str());
                out.append(")");
            },
            ObserverError::NotFound(id) => {
                let t: String = number::u64_text(*id);
                out.append("observer ");
                out.append(t.as_str());
                out.append(" not found");
            },
            ObserverError::Io(why) => {
                out.append("io error: ");
                out.append(why.as_str());
            },
            ObserverError::Other(why) => {
                out.append(why.as_str());
            },
        }
        assert(out@ =~= error_text(*self));
        out
    }
}

} // verus!
