//! The sections of the curated file, and where a write lands.
use vstd::prelude::*;
use vstd::string::*;
use crate::text;
use crate::text::same_text;

verus! {

/// Where a memory write lands.
#[derive(Debug, Clone, Copy, PartialEq, Eq)]
pub enum WriteTarget {
    /// Append to today's daily log.
    Daily,
    /// Append to the curated file.
    Curated,
}

/// A section of the curated file: who, how and what.
#[derive(Debug, Clone, Copy, PartialEq, Eq)]
pub enum Stratum {
    /// Role, stable traits, hard preferences.
    Identity,
    /// Conventions, working style, recurring decisions.
    Patterns,
    /// Current priorities and active work.
    Focus,
}

/// The heading line of a stratum.
pub open spec fn stratum_line(s: Stratum) -> Seq<char> {
    match s {
        Stratum::Identity => "## Identity"@,
        Stratum::Patterns => "## Patterns"@,
        Stratum::Focus => "## Focus"@,
    }
}

/// The name of a stratum in tool calls.
pub open spec fn stratum_name(s: Stratum) -> Seq<char> {
    match s {
        Stratum::Identity => "identity"@,
        Stratum::Patterns => "patterns"@,
        Stratum::Focus => "focus"@,
    }
}

impl Stratum {
    /// The canonical heading line of this stratum.
    pub fn heading(self) -> (r: &'static str)
        ensures
            r@ == stratum_line(self),
    {
        match self {
            Stratum::Identity => "## Identity",
            Stratum::Patterns => "## Patterns",
            Stratum::Focus => "## Focus",
        }
    }

    /// The stratum of that lowercase name.
    pub fn parse(s: &str) -> (r: Option<Stratum>)
        ensures
            match r {
                Some(t) => s@ == stratum_name(t),
                None => forall|t: Stratum| s@ != #[trigger] stratum_name(t),
            },
    {
        if same_text(s, "identity") {
            Some(Stratum::Identity)
        } else if same_text(s, "patterns") {
            Some(Stratum::Patterns)
        } else if same_text(s, "focus") {
            Some(Stratum::Focus)
        } else {
            None
        }
    }
}

/// The three names are told apart.
pub proof fn lemma_names_distinct()
    ensures
        forall|a: Stratum, b: Stratum|
            #![trigger stratum_name(a), stratum_name(b)]
            stratum_name(a) == stratum_name(b) ==> a == b,
        forall|a: Stratum, b: Stratum|
            #![trigger stratum_line(a), stratum_line(b)]
            stratum_line(a) == stratum_line(b) ==> a == b,
{
    reveal_strlit("identity");
    reveal_strlit("patterns");
    reveal_strlit("focus");
    reveal_strlit("## Identity");
    reveal_strlit("## Patterns");
    reveal_strlit("## Focus");
    assert("identity"@[0] != "patterns"@[0]);
    assert("identity"@[0] != "focus"@[0]);
    assert("patterns"@[0] != "focus"@[0]);
    assert("## Identity"@[3] != "## Patterns"@[3]);
    assert("## Identity"@[3] != "## Focus"@[3]);
    assert("## Patterns"@[3] != "## Focus"@[3]);
}

/// The stratum whose heading line a heading makes, if it is one.
pub open spec fn stratum_of(heading: Seq<char>) -> Option<Stratum> {
    let line = seq!['#', '#', ' '] + text::trim(heading);
    if line == stratum_line(Stratum::Identity) {
        Some(Stratum::Identity)
    } else if line == stratum_line(Stratum::Patterns) {
        Some(Stratum::Patterns)
    } else if line == stratum_line(Stratum::Focus) {
        Some(Stratum::Focus)
    } else {
        None
    }
}

/// Maps a heading without its `#`s to the stratum that it names, if any.
pub fn stratum_for_heading(heading: &str) -> (r: Option<Stratum>)
    ensures
        r == stratum_of(heading@),
{
    let mut line = String::new();
    line.push('#');
    line.push('#');
    line.push(' ');
    let t: String = text::trim_text(heading);
    line.append(t.as_str());
    proof {
        assert(line@ =~= seq!['#', '#', ' '] + text::trim(heading@));
    }
    if same_text(line.as_str(), Stratum::Identity.heading()) {
        Some(Stratum::Identity)
    } else if same_text(line.as_str(), Stratum::Patterns.heading()) {
        Some(Stratum::Patterns)
    } else if same_text(line.as_str(), Stratum::Focus.heading()) {
        Some(Stratum::Focus)
    } else {
        None
    }
}

} // verus!
