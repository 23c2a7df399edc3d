//! Rendering the curated file from its chunks, grouped by section.
use vstd::prelude::*;
use vstd::string::*;
use crate::memory::chunk;
use crate::memory::chunk::{ChunkView, MemoryChunk};
use crate::memory::chunking;
use crate::memory::strata;
use crate::memory::strata::{stratum_for_heading, Stratum};
use crate::text;
use crate::text::{
    char_index,
    chars_of,
    join_all,
    lines_of,
    same_text,
    string_of,
    text_starts_with,
    trim_start_char_text,
    trim_start_text,
    trim_text,
};

verus! {

/// The part of `s` before its first line feed.
pub open spec fn first_line(s: Seq<char>) -> Seq<char> {
    s.take(text::find_char(s, '\n', 0))
}

/// The part of `s` after its first line feed, if it has one.
pub open spec fn after_first_line(s: Seq<char>) -> Seq<char> {
    let n = text::find_char(s, '\n', 0);
    if n < s.len() {
        s.skip(n + 1)
    } else {
        Seq::empty()
    }
}

/// Whether `line` is a heading line of `heading`.
pub open spec fn names_heading(line: Seq<char>, heading: Seq<char>) -> bool {
    text::starts_with(text::trim_start(line), seq!['#']) && chunking::heading_text(line)
        == text::trim(heading)
}

/// The text of a chunk without its heading line.
pub open spec fn body(c: ChunkView) -> Seq<char> {
    let t = text::trim(c.text);
    match c.heading {
        None => t,
        Some(h) => if names_heading(first_line(t), h) {
            text::trim(after_first_line(t))
        } else {
            t
        },
    }
}

/// The first line of a chunk's text.
pub open spec fn opening_line(c: ChunkView) -> Seq<char> {
    let ls = text::lines(text::trim(c.text));
    if ls.len() == 0 {
        Seq::empty()
    } else {
        text::trim(ls[0])
    }
}

/// Whether a chunk stands under a heading that names no stratum.
pub open spec fn freeform(c: ChunkView) -> bool {
    c.heading is Some && strata::stratum_of(c.heading->0) is None
}

/// The bodies, where not empty, of the first `n` chunks that have no heading.
pub open spec fn preamble(cs: Seq<ChunkView>, n: int) -> Seq<Seq<char>>
    decreases n,
{
    if n <= 0 {
        Seq::empty()
    } else if cs[n - 1].heading is None && body(cs[n - 1]).len() > 0 {
        preamble(cs, n - 1).push(body(cs[n - 1]))
    } else {
        preamble(cs, n - 1)
    }
}

/// Whether a chunk stands under the heading of a stratum.
pub open spec fn under_stratum(c: ChunkView, s: Stratum) -> bool {
    c.heading is Some && strata::stratum_of(c.heading->0) == Some(s)
}

/// Whether a chunk stands under that heading, which names no stratum.
pub open spec fn under_heading(c: ChunkView, h: Seq<char>) -> bool {
    freeform(c) && c.heading == Some(h)
}

/// The bodies, where not empty, of the chunks among the first `n` under a
/// stratum.
pub open spec fn stratum_bodies(cs: Seq<ChunkView>, n: int, s: Stratum) -> Seq<Seq<char>>
    decreases n,
{
    if n <= 0 {
        Seq::empty()
    } else if under_stratum(cs[n - 1], s) && body(cs[n - 1]).len() > 0 {
        stratum_bodies(cs, n - 1, s).push(body(cs[n - 1]))
    } else {
        stratum_bodies(cs, n - 1, s)
    }
}

/// The bodies, where not empty, of the chunks among the first `n` under a
/// heading that names no stratum.
pub open spec fn heading_bodies(cs: Seq<ChunkView>, n: int, h: Seq<char>) -> Seq<Seq<char>>
    decreases n,
{
    if n <= 0 {
        Seq::empty()
    } else if under_heading(cs[n - 1], h) && body(cs[n - 1]).len() > 0 {
        heading_bodies(cs, n - 1, h).push(body(cs[n - 1]))
    } else {
        heading_bodies(cs, n - 1, h)
    }
}

/// Whether one of the first `n` chunks stands under a stratum.
pub open spec fn has_stratum(cs: Seq<ChunkView>, n: int, s: Stratum) -> bool {
    exists|i: int| 0 <= i < n && under_stratum(#[trigger] cs[i], s)
}

/// The other headings of the first `n` chunks in the order of their first
/// chunk, each with the opening line of that chunk.
pub open spec fn other_headings(cs: Seq<ChunkView>, n: int) -> Seq<(Seq<char>, Seq<char>)>
    decreases n,
{
    if n <= 0 {
        Seq::empty()
    } else {
        let prev = other_headings(cs, n - 1);
        let c = cs[n - 1];
        if freeform(c) && !listed(prev, c.heading->0) {
            prev.push((c.heading->0, opening_line(c)))
        } else {
            prev
        }
    }
}

/// Whether a heading is in the list.
pub open spec fn listed(list: Seq<(Seq<char>, Seq<char>)>, h: Seq<char>) -> bool {
    exists|i: int| 0 <= i < list.len() && (#[trigger] list[i]).0 == h
}

/// A section: its heading line, then its bodies on lines of their own.
pub open spec fn section(line: Seq<char>, bodies: Seq<Seq<char>>) -> Seq<char> {
    let b = text::join(bodies, seq!['\n']);
    if b.len() == 0 {
        line
    } else {
        line + seq!['\n'] + b
    }
}

/// The section of a stratum, if it has a chunk.
pub open spec fn stratum_section(cs: Seq<ChunkView>, s: Stratum) -> Seq<Seq<char>> {
    let n = cs.len() as int;
    if has_stratum(cs, n, s) {
        seq![section(strata::stratum_line(s), stratum_bodies(cs, n, s))]
    } else {
        Seq::empty()
    }
}

/// The preamble as a section, if it has text.
pub open spec fn preamble_section(cs: Seq<ChunkView>) -> Seq<Seq<char>> {
    let p = text::join(preamble(cs, cs.len() as int), seq!['\n', '\n']);
    if p.len() > 0 {
        seq![p]
    } else {
        Seq::empty()
    }
}

/// The sections of the first `k` other headings.
pub open spec fn other_sections(cs: Seq<ChunkView>, k: int) -> Seq<Seq<char>>
    decreases k,
{
    if k <= 0 {
        Seq::empty()
    } else {
        let (h, line) = other_headings(cs, cs.len() as int)[k - 1];
        other_sections(cs, k - 1).push(section(line, heading_bodies(cs, cs.len() as int, h)))
    }
}

/// All sections: the preamble, the strata in their fixed order, then the other
/// headings in the order of their first chunk.
pub open spec fn sections(cs: Seq<ChunkView>) -> Seq<Seq<char>> {
    preamble_section(cs) + stratum_section(cs, Stratum::Identity) + stratum_section(
        cs,
        Stratum::Patterns,
    ) + stratum_section(cs, Stratum::Focus) + other_sections(
        cs,
        other_headings(cs, cs.len() as int).len() as int,
    )
}

/// The curated file made of those chunks: its sections with a blank line
/// between, and a line feed at the end.
pub open spec fn rendered(cs: Seq<ChunkView>) -> Seq<char> {
    let out = text::join(sections(cs), seq!['\n', '\n']);
    if out.len() > 0 {
        out + seq!['\n']
    } else {
        out
    }
}

/// The text of a chunk without its heading line.
pub fn body_without_heading(c: &MemoryChunk) -> (r: String)
    ensures
        r@ == body(c@),
{
    let t: String = trim_text(c.text.as_str());
    match &c.heading {
        None => t,
        Some(h) => {
            let v: Vec<char> = chars_of(t.as_str());
            let n: usize = char_index(&v, '\n', 0);
            let first: String = string_of(&v, 0, n);
            let lead: String = trim_start_text(first.as_str());
            let bare: String = trim_start_char_text(lead.as_str(), '#');
            let name: String = trim_text(bare.as_str());
            let wanted: String = trim_text(h.as_str());
            proof {
                reveal_strlit("#");
                assert("#"@ =~= seq!['#']);
                assert(first@ =~= first_line(t@));
            }
            if text_starts_with(lead.as_str(), "#") && same_text(name.as_str(), wanted.as_str()) {
                if n < v.len() {
                    let rest: String = string_of(&v, n + 1, v.len());
                    proof {
                        assert(rest@ =~= after_first_line(t@));
                    }
                    trim_text(rest.as_str())
                } else {
                    proof {
                        assert(text::trim(Seq::<char>::empty()) =~= Seq::<char>::empty());
                    }
                    String::new()
                }
            } else {
                t
            }
        },
    }
}

/// The first line of a chunk's text.
fn opening_line_of(c: &MemoryChunk) -> (r: String)
    ensures
        r@ == opening_line(c@),
{
    let t: String = trim_text(c.text.as_str());
    let ls: Vec<String> = lines_of(t.as_str());
    proof {
        assert(text::views(ls@).len() == ls@.len());
    }
    if ls.len() == 0 {
        String::new()
    } else {
        proof {
            assert(text::views(ls@)[0] == ls@[0]@);
        }
        trim_text(ls[0].as_str())
    }
}

/// The bodies of the chunks without a heading.
fn preamble_of(cs: &Vec<MemoryChunk>) -> (r: Vec<String>)
    ensures
        text::views(r@) == preamble(chunk::chunk_views(cs@), cs@.len() as int),
{
    let ghost cv = chunk::chunk_views(cs@);
    let mut out: Vec<String> = Vec::new();
    let mut i: usize = 0;
    assert(text::views(out@) =~= preamble(cv, 0));
    while i < cs.len()
        invariant
            i <= cs@.len(),
            cv == chunk::chunk_views(cs@),
            text::views(out@) == preamble(cv, i as int),
        decreases cs@.len() - i,
    {
        let ghost before = text::views(out@);
        assert(cv[i as int] == cs@[i as int]@);
        if cs[i].heading.is_none() {
            let b: String = body_without_heading(&cs[i]);
            if !b.as_str().is_empty() {
                out.push(b);
                assert(text::views(out@) =~= before.push(b@));
            }
        }
        i = i + 1;
    }
    out
}

/// Whether a stratum has a chunk, and the bodies of its chunks.
fn stratum_bodies_of(cs: &Vec<MemoryChunk>, s: Stratum) -> (r: (bool, Vec<String>))
    ensures
        r.0 == has_stratum(chunk::chunk_views(cs@), cs@.len() as int, s),
        text::views(r.1@) == stratum_bodies(chunk::chunk_views(cs@), cs@.len() as int, s),
{
    let ghost cv = chunk::chunk_views(cs@);
    let mut out: Vec<String> = Vec::new();
    let mut any: bool = false;
    let mut i: usize = 0;
    assert(text::views(out@) =~= stratum_bodies(cv, 0, s));
    while i < cs.len()
        invariant
            i <= cs@.len(),
            cv == chunk::chunk_views(cs@),
            any == has_stratum(cv, i as int, s),
            text::views(out@) == stratum_bodies(cv, i as int, s),
        decreases cs@.len() - i,
    {
        let ghost before = text::views(out@);
        assert(cv[i as int] == cs@[i as int]@);
        let mut found: bool = false;
        if let Some(h) = &cs[i].heading {
            if let Some(t) = stratum_for_heading(h.as_str()) {
                found = same_stratum(t, s);
            }
        }
        assert(found == under_stratum(cv[i as int], s));
        if found {
            any = true;
            assert(under_stratum(cv[i as int], s));
            let b: String = body_without_heading(&cs[i]);
            if !b.as_str().is_empty() {
                out.push(b);
                assert(text::views(out@) =~= before.push(b@));
            }
        }
        i = i + 1;
    }
    (any, out)
}

/// Whether two strata are the same.
pub fn same_stratum(a: Stratum, b: Stratum) -> (r: bool)
    ensures
        r == (a == b),
{
    match (a, b) {
        (Stratum::Identity, Stratum::Identity) => true,
        (Stratum::Patterns, Stratum::Patterns) => true,
        (Stratum::Focus, Stratum::Focus) => true,
        _ => false,
    }
}

/// The bodies of the chunks under a heading that names no stratum.
fn heading_bodies_of(cs: &Vec<MemoryChunk>, heading: &str) -> (r: Vec<String>)
    ensures
        text::views(r@) == heading_bodies(chunk::chunk_views(cs@), cs@.len() as int, heading@),
{
    let ghost cv = chunk::chunk_views(cs@);
    let mut out: Vec<String> = Vec::new();
    let mut i: usize = 0;
    assert(text::views(out@) =~= heading_bodies(cv, 0, heading@));
    while i < cs.len()
        invariant
            i <= cs@.len(),
            cv == chunk::chunk_views(cs@),
            text::views(out@) == heading_bodies(cv, i as int, heading@),
        decreases cs@.len() - i,
    {
        let ghost before = text::views(out@);
        assert(cv[i as int] == cs@[i as int]@);
        let mut found: bool = false;
        if let Some(h) = &cs[i].heading {
            if same_text(h.as_str(), heading) && stratum_for_heading(h.as_str()).is_none() {
                found = true;
            }
        }
        assert(found == under_heading(cv[i as int], heading@));
        if found {
            let b: String = body_without_heading(&cs[i]);
            if !b.as_str().is_empty() {
                out.push(b);
                assert(text::views(out@) =~= before.push(b@));
            }
        }
        i = i + 1;
    }
    out
}

/// Pairs of strings as pairs of texts.
pub open spec fn pair_views(s: Seq<(String, String)>) -> Seq<(Seq<char>, Seq<char>)> {
    Seq::new(s.len(), |i: int| (s[i].0@, s[i].1@))
}

/// The headings that name no stratum, with the opening lines.
fn other_headings_of(cs: &Vec<MemoryChunk>) -> (r: Vec<(String, String)>)
    ensures
        pair_views(r@) == other_headings(chunk::chunk_views(cs@), cs@.len() as int),
{
    let ghost cv = chunk::chunk_views(cs@);
    let mut out: Vec<(String, String)> = Vec::new();
    let mut i: usize = 0;
    assert(pair_views(out@) =~= other_headings(cv, 0));
    while i < cs.len()
        invariant
            i <= cs@.len(),
            cv == chunk::chunk_views(cs@),
            pair_views(out@) == other_headings(cv, i as int),
        decreases cs@.len() - i,
    {
        let ghost before = pair_views(out@);
        assert(cv[i as int] == cs@[i as int]@);
        if let Some(h) = &cs[i].heading {
            if stratum_for_heading(h.as_str()).is_none() && !pair_listed(&out, h.as_str()) {
                let line: String = opening_line_of(&cs[i]);
                out.push((h.clone(), line));
                assert(pair_views(out@) =~= before.push((h@, line@)));
            }
        }
        i = i + 1;
    }
    out
}

/// Whether a heading is in the list.
fn pair_listed(list: &Vec<(String, String)>, h: &str) -> (r: bool)
    ensures
        r == listed(pair_views(list@), h@),
{
    let mut i: usize = 0;
    while i < list.len()
        invariant
            i <= list@.len(),
            forall|j: int| 0 <= j < i ==> (#[trigger] pair_views(list@)[j]).0 != h@,
        decreases list@.len() - i,
    {
        if same_text(list[i].0.as_str(), h) {
            assert(pair_views(list@)[i as int].0 == h@);
            return true;
        }
        i = i + 1;
    }
    false
}

/// A section: its heading line, then its bodies on lines of their own.
fn section_text(line: &str, bodies: &Vec<String>) -> (r: String)
    ensures
        r@ == section(line@, text::views(bodies@)),
{
    proof {
        reveal_strlit("\n");
        assert("\n"@ =~= seq!['\n']);
    }
    let b: String = join_all(bodies, "\n");
    let mut out: String = line.to_owned();
    if !b.as_str().is_empty() {
        out.append("\n");
        out.append(b.as_str());
    }
    out
}

/// Adds the section of a stratum, if it has a chunk.
fn push_stratum(out: &mut Vec<String>, cs: &Vec<MemoryChunk>, s: Stratum)
    ensures
        text::views(final(out)@) == text::views(old(out)@) + stratum_section(
            chunk::chunk_views(cs@),
            s,
        ),
{
    let (any, bodies) = stratum_bodies_of(cs, s);
    let ghost before = text::views(out@);
    if any {
        let t: String = section_text(s.heading(), &bodies);
        out.push(t);
    }
    proof {
        assert(text::views(out@) =~= before + stratum_section(chunk::chunk_views(cs@), s));
    }
}

/// Renders the curated file from its chunks: a preamble of the chunks without a
/// heading, then the strata in their fixed order, then the other headings in
/// the order of their first chunk. Chunks of one heading share one section.
pub fn render_curated(cs: &Vec<MemoryChunk>) -> (r: String)
    ensures
        r@ == rendered(chunk::chunk_views(cs@)),
{
    let ghost cv = chunk::chunk_views(cs@);
    proof {
        reveal_strlit("\n\n");
        assert("\n\n"@ =~= seq!['\n', '\n']);
    }
    let mut out: Vec<String> = Vec::new();
    let pre: Vec<String> = preamble_of(cs);
    let p: String = join_all(&pre, "\n\n");
    if !p.as_str().is_empty() {
        out.push(p);
    }
    assert(text::views(out@) =~= preamble_section(cv));
    push_stratum(&mut out, cs, Stratum::Identity);
    push_stratum(&mut out, cs, Stratum::Patterns);
    push_stratum(&mut out, cs, Stratum::Focus);
    let others: Vec<(String, String)> = other_headings_of(cs);
    let ghost base = text::views(out@);
    let mut k: usize = 0;
    assert(base + other_sections(cv, 0) =~= base);
    while k < others.len()
        invariant
            k <= others@.len(),
            cv == chunk::chunk_views(cs@),
            pair_views(others@) == other_headings(cv, cv.len() as int),
            text::views(out@) == base + other_sections(cv, k as int),
        decreases others@.len() - k,
    {
        let ghost before = text::views(out@);
        proof {
            assert(pair_views(others@)[k as int] == (others@[k as int].0@, others@[k as int].1@));
        }
        let bodies: Vec<String> = heading_bodies_of(cs, others[k].0.as_str());
        let t: String = section_text(others[k].1.as_str(), &bodies);
        out.push(t);
        proof {
            assert(text::views(out@) =~= before.push(t@));
            assert(before.push(t@) =~= base + other_sections(cv, k as int).push(t@));
        }
        k = k + 1;
    }
    proof {
        assert(pair_views(others@).len() == others@.len());
        assert(text::views(out@) =~= sections(cv));
    }
    let mut joined: String = join_all(&out, "\n\n");
    if !joined.as_str().is_empty() {
        joined.push('\n');
        proof {
            assert(joined@ =~= rendered(cv));
        }
    }
    joined
}

} // verus!
