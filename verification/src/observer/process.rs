//! Watching the output of a background process: which new output wakes the
//! agent, and what the wake says.
use vstd::prelude::*;
use vstd::string::*;
use crate::number;
use crate::observer::source;
use crate::observer::source::{ObserverContext, ObserverEvent};
use crate::text;

verus! {

/// The most characters of a match that a wake shows.
pub const SUMMARY_MAX_CHARS: usize = 200;

/// What is wrong with a regular expression, in words; `None` where it can be
/// read.
pub uninterp spec fn regex_fault(pattern: Seq<char>) -> Option<Seq<char>>;

/// The text of the first match of a regular expression in a text.
pub uninterp spec fn regex_match(pattern: Seq<char>, s: Seq<char>) -> Option<Seq<char>>;

/// A compiled regular expression of the `regex` crate.
#[verifier::external_type_specification]
#[verifier::external_body]
pub struct ExRegex(regex::Regex);

/// A regular expression, compiled once.
#[derive(Debug)]
pub struct Pattern {
    source: String,
    compiled: regex::Regex,
}

impl View for Pattern {
    type V = Seq<char>;

    closed spec fn view(&self) -> Seq<char> {
        self.source@
    }
}

impl Pattern {
    /// Compiles a regular expression by `regex::Regex::new`. Whether it can be
    /// compiled, and the text of the error if not, depend on the expression
    /// alone.
    #[verifier::external_body]
    fn compile(pattern: &str) -> (r: Result<Pattern, String>)
        ensures
            match r {
                Ok(p) => regex_fault(pattern@) is None && p@ == pattern@,
                Err(e) => regex_fault(pattern@) == Some(e@),
            },
    {
        match regex::Regex::new(pattern) {
            Ok(compiled) => Ok(Pattern { source: pattern.to_string(), compiled }),
            Err(e) => Err(format!("{e}")),
        }
    }

    /// The text of the first match, found by `regex::Regex::find`. It depends on
    /// the expression and the text alone.
    #[verifier::external_body]
    fn first_match(&self, s: &str) -> (r: Option<String>)
        ensures
            text::opt_view(r) == regex_match(self@, s@),
    {
        self.compiled.find(s).map(|m| m.as_str().to_string())
    }
}

/// A filter as it is compiled: `^` and `$` match at line ends.
pub open spec fn line_pattern(filter: Seq<char>) -> Seq<char> {
    "(?m)"@ + filter
}

/// A text on one line: each line end becomes a space.
pub open spec fn flat(s: Seq<char>) -> Seq<char> {
    s.map_values(
        |c: char|
            if c == '\n' || c == '\r' {
                ' '
            } else {
                c
            },
    )
}

/// A text cut to the most that a wake shows, with dots where it was cut.
pub open spec fn clamped(s: Seq<char>) -> Seq<char> {
    if s.len() <= SUMMARY_MAX_CHARS {
        s
    } else {
        s.take(SUMMARY_MAX_CHARS as int) + "..."@
    }
}

/// What a wake shows of new output: the first match, flat and cut short;
/// without a filter, the output itself. Empty where nothing matches.
pub open spec fn shown(filter: Option<Seq<char>>, output: Seq<char>) -> Seq<char> {
    match filter {
        None => output,
        Some(f) => match regex_match(line_pattern(f), output) {
            Some(m) => clamped(flat(m)),
            None => Seq::empty(),
        },
    }
}

/// What new output is reported as. Output of which there is nothing to show is
/// not reported.
pub open spec fn output_summary(filter: Option<Seq<char>>, output: Seq<char>) -> Option<Seq<char>> {
    if shown(filter, output).len() == 0 {
        None
    } else {
        Some("matched: \""@ + shown(filter, output) + "\""@)
    }
}

/// A watched process.
#[derive(Debug)]
pub struct ProcessSource {
    pub ctx: ObserverContext,
    pub pid: u64,
    pub filter: Option<String>,
    pub pattern: Option<Pattern>,
}

/// A text on one line, cut to the most that a wake shows.
fn one_line(s: &str) -> (r: String)
    ensures
        r@ == clamped(flat(s@)),
{
    let v: Vec<char> = text::chars_of(s);
    let mut out = String::new();
    let mut i: usize = 0;
    while i < v.len() && i < SUMMARY_MAX_CHARS
        invariant
            i <= v@.len(),
            i <= SUMMARY_MAX_CHARS,
            v@ == s@,
            out@ == flat(s@).take(i as int),
        decreases v@.len() - i,
    {
        let c: char = v[i];
        let d: char = if c == '\n' || c == '\r' {
            ' '
        } else {
            c
        };
        out.push(d);
        proof {
            assert(flat(s@)[i as int] == d);
            assert(out@ =~= flat(s@).take(i + 1));
        }
        i = i + 1;
    }
    if i < v.len() {
        out.append("...");
    }
    proof {
        if i == v@.len() {
            assert(flat(s@).take(i as int) =~= flat(s@));
        }
    }
    out
}

impl ProcessSource {
    /// Whether the pattern is the filter's, compiled.
    pub open spec fn wf(&self) -> bool {
        match self.filter {
            Some(f) => self.pattern is Some && self.pattern->0@ == line_pattern(f@),
            None => self.pattern is None,
        }
    }

    /// A watch of process `pid`, which is `alive` where it is known to the
    /// session and still runs. A filter that cannot be read is reported before
    /// an unknown process.
    pub fn new(
        ctx: ObserverContext,
        pid: u64,
        filter: Option<String>,
        alive: bool,
    ) -> (r: Result<Self, String>)
        ensures
            match r {
                Ok(s) => {
                    &&& s.wf()
                    &&& filter matches Some(f) ==> regex_fault(line_pattern(f@)) is None
                    &&& alive
                    &&& s.ctx == ctx
                    &&& s.pid == pid
                    &&& s.filter == filter
                },
                Err(e) => match filter {
                    Some(f) if regex_fault(line_pattern(f@)) is Some => e@
                        == "invalid filter regex '"@ + f@ + "': "@ + regex_fault(
                        line_pattern(f@),
                    )->0,
                    _ => !alive && e@ == "no such process: "@ + number::decimal(pid as nat),
                },
            },
    {
        let pattern: Option<Pattern> = match &filter {
            Some(f) => {
                let mut p: String = "(?m)".to_owned();
                p.append(f.as_str());
                match Pattern::compile(p.as_str()) {
                    Ok(c) => Some(c),
                    Err(why) => {
                        let mut e: String = "invalid filter regex '".to_owned();
                        e.append(f.as_str());
                        e.append("': ");
                        e.append(why.as_str());
                        return Err(e);
                    },
                }
            },
            None => None,
        };
        if !alive {
            let mut e: String = "no such process: ".to_owned();
            let n: String = number::u64_text(pid);
            e.append(n.as_str());
            return Err(e);
        }
        Ok(ProcessSource { ctx, pid, filter, pattern })
    }

    /// What a wake shows of new output.
    fn summarize(&self, output: &str) -> (r: String)
        requires
            self.wf(),
        ensures
            r@ == shown(text::opt_view(self.filter), output@),
    {
        match &self.pattern {
            Some(p) => match p.first_match(output) {
                Some(m) => one_line(m.as_str()),
                None => {
                    let out = String::new();
                    assert(out@ =~= Seq::<char>::empty());
                    out
                },
            },
            None => output.to_owned(),
        }
    }

    /// Takes in a piece of new output. Gives the event that it makes, if any:
    /// one for the first match, however many there are.
    pub fn observe(&self, bytes: &Vec<u8>) -> (r: Option<ObserverEvent>)
        requires
            self.wf(),
        ensures
            match output_summary(text::opt_view(self.filter), text::utf8_lossy(bytes@)) {
                Some(summary) => r is Some && source::reports(r->0, self.ctx, summary),
                None => r is None,
            },
    {
        let output: String = text::lossy_text(bytes);
        let line: String = self.summarize(output.as_str());
        let v: Vec<char> = text::chars_of(line.as_str());
        if v.len() == 0 {
            return None;
        }
        let mut summary: String = "matched: \"".to_owned();
        summary.append(line.as_str());
        summary.append("\"");
        Some(self.ctx.event(summary))
    }
}

/// What a wake shows of a match is one line of at most so many characters, dots
/// included.
pub proof fn law_match_is_shown_on_one_short_line(filter: Seq<char>, output: Seq<char>)
    ensures
        shown(Some(filter), output).len() <= SUMMARY_MAX_CHARS + 3,
        forall|i: int|
            0 <= i < shown(Some(filter), output).len() ==> #[trigger] shown(Some(filter), output)[i]
                != '\n' && shown(Some(filter), output)[i] != '\r',
{
    reveal_strlit("...");
    if let Some(m) = regex_match(line_pattern(filter), output) {
        let f = flat(m);
        assert forall|i: int| 0 <= i < f.len() implies #[trigger] f[i] != '\n' && f[i] != '\r' by {}
        let line = shown(Some(filter), output);
        assert forall|i: int| 0 <= i < line.len() implies #[trigger] line[i] != '\n' && line[i]
            != '\r' by {
            if f.len() > SUMMARY_MAX_CHARS && i >= SUMMARY_MAX_CHARS {
                assert(line[i] == "..."@[i - SUMMARY_MAX_CHARS]);
            } else {
                assert(line[i] == f[i]);
            }
        }
    }
}

} // verus!
