//! Watching a file or a directory: how a change that the system reports is
//! understood, which changes are reported on, and in which words.
use vstd::prelude::*;
use vstd::string::*;
use crate::observer::source;
use crate::observer::source::{ObserverContext, ObserverEvent};
use crate::path;
use crate::path::join_path;
use crate::text;

verus! {

/// What is wrong with a glob, in words; `None` where it can be read.
pub uninterp spec fn glob_fault(pattern: Seq<char>) -> Option<Seq<char>>;

/// Whether a glob matches a path.
pub uninterp spec fn glob_match(pattern: Seq<char>, path: Seq<char>) -> bool;

/// A compiled set of globs of the `globset` crate.
#[verifier::external_type_specification]
#[verifier::external_body]
pub struct ExGlobSet(globset::GlobSet);

/// A glob, compiled once.
#[derive(Debug)]
pub struct NameFilter {
    source: String,
    compiled: globset::GlobSet,
}

impl View for NameFilter {
    type V = Seq<char>;

    closed spec fn view(&self) -> Seq<char> {
        self.source@
    }
}

impl NameFilter {
    /// Compiles a glob by `globset::Glob::new` and `GlobSetBuilder::build`.
    /// Whether it can be compiled, and the text of the error if not, depend on
    /// the glob alone.
    #[verifier::external_body]
    pub(crate) fn compile(pattern: &str) -> (r: Result<NameFilter, String>)
        ensures
            match r {
                Ok(f) => glob_fault(pattern@) is None && f@ == pattern@,
                Err(e) => glob_fault(pattern@) == Some(e@),
            },
    {
        let glob = globset::Glob::new(pattern).map_err(|e| format!("{e}"))?;
        let set = globset::GlobSetBuilder::new().add(glob).build().map_err(|e| format!("{e}"))?;
        Ok(NameFilter { source: pattern.to_string(), compiled: set })
    }

    /// Whether the glob matches a path, by `globset::GlobSet::is_match`. It
    /// depends on the glob and the path alone, on systems whose paths are
    /// separated by `/` only; the sources that watch files run on no others.
    #[verifier::external_body]
    fn matches(&self, path: &str) -> (r: bool)
        ensures
            r == glob_match(self@, path@),
    {
        self.compiled.is_match(path)
    }
}

/// What the system says of a change, as flags.
#[derive(Debug, Clone, Copy)]
pub struct ChangeFlags {
    /// A child was created.
    pub create: bool,
    /// A child was moved in.
    pub moved_to: bool,
    /// A child was deleted.
    pub delete: bool,
    /// A child was moved out.
    pub moved_from: bool,
    /// The target itself was deleted.
    pub delete_self: bool,
    /// The target itself was moved.
    pub move_self: bool,
}

/// What the system says of a change to a watched node where it tells no children.
#[derive(Debug, Clone, Copy)]
pub enum NodeChange {
    Write,
    Extend,
    Truncate,
    Attrib,
    Delete,
    Rename,
    Revoke,
    Link,
    /// Anything else.
    Unknown,
}

/// A change, understood.
#[derive(Debug)]
pub enum RawChange {
    /// That path was modified.
    Modified(String),
    /// That path came to be.
    Created(String),
    /// That path went away.
    Removed(String),
    /// The target itself changed.
    RootChanged,
}

/// How a change reads. What the target is matters only where it changed itself.
pub open spec fn change_text(target: Seq<char>, is_dir: bool, change: RawChange) -> Seq<char> {
    match change {
        RawChange::Modified(p) => "modified "@ + p@,
        RawChange::Created(p) => "created "@ + p@,
        RawChange::Removed(p) => "removed "@ + p@,
        RawChange::RootChanged => if is_dir {
            "changed "@ + target
        } else {
            target + " was deleted, renamed, or had its attributes changed"@
        },
    }
}

/// The event of a change.
pub fn make_event(
    ctx: &ObserverContext,
    target: &str,
    is_dir: bool,
    change: &RawChange,
) -> (r: ObserverEvent)
    ensures
        source::reports(r, *ctx, change_text(target@, is_dir, *change)),
{
    let mut summary = String::new();
    match change {
        RawChange::Modified(p) => {
            summary.append("modified ");
            summary.append(p.as_str());
        },
        RawChange::Created(p) => {
            summary.append("created ");
            summary.append(p.as_str());
        },
        RawChange::Removed(p) => {
            summary.append("removed ");
            summary.append(p.as_str());
        },
        RawChange::RootChanged => {
            if is_dir {
                summary.append("changed ");
                summary.append(target);
            } else {
                summary.append(target);
                summary.append(" was deleted, renamed, or had its attributes changed");
            }
        },
    }
    assert(summary@ =~= change_text(target@, is_dir, *change));
    ctx.event(summary)
}

/// Whether `change` is what the flags say of `path`. What comes outweighs what
/// goes, and a child outweighs the target.
pub open spec fn understood(flags: ChangeFlags, path: Seq<char>, change: RawChange) -> bool {
    if flags.create || flags.moved_to {
        change is Created && change->Created_0@ == path
    } else if flags.delete || flags.moved_from {
        change is Removed && change->Removed_0@ == path
    } else if flags.delete_self || flags.move_self {
        change is RootChanged
    } else {
        change is Modified && change->Modified_0@ == path
    }
}

/// What the flags say of a path.
pub fn classify(flags: ChangeFlags, path: String) -> (r: RawChange)
    ensures
        understood(flags, path@, r),
{
    if flags.create || flags.moved_to {
        RawChange::Created(path)
    } else if flags.delete || flags.moved_from {
        RawChange::Removed(path)
    } else if flags.delete_self || flags.move_self {
        RawChange::RootChanged
    } else {
        RawChange::Modified(path)
    }
}

/// What a change to a watched node says. A change of attributes counts as a
/// modification, since a save that keeps the length may be told as that alone.
pub fn classify_node(change: NodeChange, target: String) -> (r: RawChange)
    ensures
        match change {
            NodeChange::Write | NodeChange::Extend | NodeChange::Truncate | NodeChange::Attrib => r
                is Modified && r->Modified_0@ == target@,
            _ => r is RootChanged,
        },
{
    match change {
        NodeChange::Write | NodeChange::Extend | NodeChange::Truncate | NodeChange::Attrib => {
            RawChange::Modified(target)
        },
        _ => RawChange::RootChanged,
    }
}

/// A watched file or directory.
#[derive(Debug)]
pub struct FileSource {
    pub ctx: ObserverContext,
    pub target: String,
    pub is_dir: bool,
    /// Which children of a directory are reported on; all of them without one.
    pub filter: Option<NameFilter>,
}

/// Whether a change to a child of that name, or to the target itself, is
/// reported on: in a directory a filter leaves out the children that it does not
/// match.
pub open spec fn reported(
    is_dir: bool,
    filter: Option<Seq<char>>,
    child: Option<Seq<char>>,
) -> bool {
    match (filter, child) {
        (Some(f), Some(name)) => !is_dir || glob_match(f, name),
        _ => true,
    }
}

impl FileSource {
    /// The glob of the filter.
    pub open spec fn glob(&self) -> Option<Seq<char>> {
        match self.filter {
            Some(f) => Some(f@),
            None => None,
        }
    }

    /// Takes in one change: what the system says of it, and the name of the
    /// child where it is one. Gives the event that it makes, if any.
    pub fn observe(&self, flags: ChangeFlags, child: Option<String>) -> (r: Option<ObserverEvent>)
        ensures
            match r {
                Some(e) => {
                    &&& reported(self.is_dir, self.glob(), text::opt_view(child))
                    &&& exists|change: RawChange|
                        #![trigger change_text(self.target@, self.is_dir, change)]
                        understood(
                            flags,
                            match child {
                                Some(name) => path::child_path(self.target@, name@),
                                None => self.target@,
                            },
                            change,
                        ) && source::reports(
                            e,
                            self.ctx,
                            change_text(self.target@, self.is_dir, change),
                        )
                },
                None => !reported(self.is_dir, self.glob(), text::opt_view(child)),
            },
    {
        if self.is_dir {
            if let (Some(f), Some(name)) = (&self.filter, &child) {
                if !f.matches(name.as_str()) {
                    return None;
                }
            }
        }
        let path: String = match &child {
            Some(name) => join_path(self.target.as_str(), name.as_str()),
            None => self.target.clone(),
        };
        let change: RawChange = classify(flags, path);
        Some(make_event(&self.ctx, self.target.as_str(), self.is_dir, &change))
    }
}

/// Every change to the target itself is reported on, and without a filter every
/// change is.
pub proof fn law_only_children_are_filtered(
    is_dir: bool,
    filter: Option<Seq<char>>,
    child: Option<Seq<char>>,
)
    ensures
        reported(is_dir, filter, None),
        reported(is_dir, None, child),
        reported(false, filter, child),
{
}

} // verus!
