//! Rendering the curated file again from what was rendered.
use vstd::prelude::*;
use crate::lines;
use crate::memory::chunk::{ChunkView, MemorySource};
use crate::memory::chunking;
use crate::memory::coalesce;
use crate::memory::config::Score;
use crate::memory::consolidate;
use crate::memory::document;
use crate::memory::rejoin;
use crate::memory::render;
use crate::memory::strata;
use crate::memory::strata::Stratum;
use crate::text;

verus! {

/// Whether a text is empty, or its lines can be read back from it, hold no
/// heading and close their code blocks, and it has no white space at its ends.
pub open spec fn tidy(b: Seq<char>) -> bool {
    b.len() == 0 || (lines::snug(b) && document::quiet(text::lines(b)) && b == lines::joined(
        text::lines(b),
    ))
}

/// Whether the body of a chunk is tidy, and the chunk opens with the heading
/// that it stands under, unless that names a stratum.
pub open spec fn proper(c: ChunkView) -> bool {
    &&& tidy(render::body(c))
    &&& render::freeform(c) ==> document::marks_heading(render::opening_line(c))
        && chunking::heading_text(render::opening_line(c)) == c.heading->0
}

/// Whether all of the texts are tidy and none is empty.
pub open spec fn all_tidy(bs: Seq<Seq<char>>) -> bool {
    forall|i: int| 0 <= i < bs.len() ==> tidy(#[trigger] bs[i]) && bs[i].len() > 0
}

/// The lines of each text.
pub open spec fn line_lists(bs: Seq<Seq<char>>) -> Seq<Seq<Seq<char>>> {
    Seq::new(bs.len(), |i: int| text::lines(bs[i]))
}

/// The lines of all texts, one after the other.
pub open spec fn all_lines(bs: Seq<Seq<char>>) -> Seq<Seq<char>>
    decreases bs.len(),
{
    if bs.len() == 0 {
        Seq::empty()
    } else {
        all_lines(bs.drop_last()) + text::lines(bs.last())
    }
}

/// A text that is not empty has lines.
proof fn lemma_has_lines(b: Seq<char>)
    requires
        b.len() > 0,
    ensures
        text::lines(b).len() > 0,
{
}

/// Tidy bodies on lines of their own make a tidy body.
proof fn lemma_bodies(bs: Seq<Seq<char>>)
    requires
        all_tidy(bs),
    ensures
        document::quiet(all_lines(bs)),
        bs.len() > 0 ==> all_lines(bs).len() > 0 && lines::joined(all_lines(bs)) == text::join(
            bs,
            seq!['\n'],
        ) && lines::snug(text::join(bs, seq!['\n'])),
    decreases bs.len(),
{
    document::lemma_quiet_empty_line();
    if bs.len() > 0 {
        let prev = bs.drop_last();
        let b = bs.last();
        assert(tidy(bs[bs.len() - 1]));
        assert forall|i: int| 0 <= i < prev.len() implies tidy(#[trigger] prev[i])
            && prev[i].len() > 0 by {
            assert(prev[i] == bs[i]);
        }
        lemma_bodies(prev);
        document::lemma_quiet_concat(all_lines(prev), text::lines(b));
        lemma_has_lines(b);
        if prev.len() == 0 {
            assert(all_lines(prev) + text::lines(b) =~= text::lines(b));
        } else {
            lines::lemma_join_concat(all_lines(prev), text::lines(b), seq!['\n']);
            let t = text::join(bs, seq!['\n']);
            assert(t[0] == text::join(prev, seq!['\n'])[0]);
            assert(t.last() == b.last());
        }
    }
}

/// The text of a document is the texts of its sections with a blank line
/// between.
proof fn lemma_document_text(bs: Seq<Seq<char>>)
    requires
        bs.len() > 0,
        forall|i: int|
            0 <= i < bs.len() ==> (#[trigger] bs[i]).len() > 0 && bs[i] == lines::joined(
                text::lines(bs[i]),
            ),
    ensures
        document::document(line_lists(bs)).len() > 0,
        lines::joined(document::document(line_lists(bs))) == text::join(bs, seq!['\n', '\n']),
    decreases bs.len(),
{
    let ss = line_lists(bs);
    let b = bs.last();
    assert(b == bs[bs.len() - 1]);
    lemma_has_lines(b);
    if bs.len() > 1 {
        let prev = bs.drop_last();
        assert forall|i: int| 0 <= i < prev.len() implies (#[trigger] prev[i]).len() > 0
            && prev[i] == lines::joined(text::lines(prev[i])) by {
            assert(prev[i] == bs[i]);
        }
        lemma_document_text(prev);
        assert(ss.drop_last() =~= line_lists(prev));
        assert(ss.last() == text::lines(b));
        let p = document::document(line_lists(prev));
        let gap = seq![Seq::<char>::empty()];
        lines::lemma_join_concat(p, gap, seq!['\n']);
        lines::lemma_join_concat(p + gap, text::lines(b), seq!['\n']);
        assert(lines::joined(gap) =~= Seq::<char>::empty());
        assert(lines::joined(p) + seq!['\n'] + lines::joined(gap) + seq!['\n'] + b
            =~= lines::joined(p) + seq!['\n', '\n'] + b);
    }
}

/// Tidy bodies with blank lines between make a tidy body.
proof fn lemma_preamble(bs: Seq<Seq<char>>)
    requires
        all_tidy(bs),
        bs.len() > 0,
    ensures
        ({
            let t = text::join(bs, seq!['\n', '\n']);
            &&& tidy(t)
            &&& t.len() > 0
            &&& text::lines(t).len() > 0
            &&& !document::headed(text::lines(t))
        }),
{
    let t = text::join(bs, seq!['\n', '\n']);
    let ss = line_lists(bs);
    let d = document::document(ss);
    assert forall|i: int| 0 <= i < bs.len() implies (#[trigger] bs[i]).len() > 0 && bs[i]
        == lines::joined(text::lines(bs[i])) by {
        assert(tidy(bs[i]));
    }
    lemma_document_text(bs);
    assert forall|i: int| 0 <= i < ss.len() implies document::quiet(#[trigger] ss[i]) by {
        assert(tidy(bs[i]));
    }
    lemma_quiet_document(ss);
    assert(tidy(bs[0]));
    assert(tidy(bs[bs.len() - 1]));
    lines::lemma_joined_ends(bs, seq!['\n', '\n']);
    assert(d.last().len() > 0) by {
        if d.last().len() == 0 {
            if d.len() == 1 {
                assert(lines::joined(d) =~= d[0]);
            } else {
                assert(lines::joined(d) == lines::joined(d.drop_last()) + seq!['\n'] + d.last());
                assert(t.last() == '\n');
            }
        }
    }
    lines::lemma_lines_of_joined(d);
    if document::headed(d) {
        document::lemma_headed(d);
        assert(!chunking::heading_line(d, 0));
    }
}

proof fn lemma_quiet_document(ss: Seq<Seq<Seq<char>>>)
    requires
        forall|i: int| 0 <= i < ss.len() ==> document::quiet(#[trigger] ss[i]),
    ensures
        document::quiet(document::document(ss)),
    decreases ss.len(),
{
    document::lemma_quiet_empty_line();
    if ss.len() > 1 {
        let prev = ss.drop_last();
        assert forall|i: int| 0 <= i < prev.len() implies document::quiet(#[trigger] prev[i]) by {
            assert(prev[i] == ss[i]);
        }
        lemma_quiet_document(prev);
        let gap = seq![Seq::<char>::empty()];
        document::lemma_quiet_concat(document::document(prev), gap);
        assert(document::quiet(ss[ss.len() - 1]));
        document::lemma_quiet_concat(document::document(prev) + gap, ss.last());
    }
}

/// A heading line and tidy bodies make a section that can be read back.
proof fn lemma_section(line: Seq<char>, bs: Seq<Seq<char>>)
    requires
        all_tidy(bs),
        lines::plain(line),
        lines::snug(line),
        document::marks_heading(line),
    ensures
        ({
            let t = render::section(line, bs);
            let ls = text::lines(t);
            &&& lines::snug(t)
            &&& document::headed(ls)
            &&& ls[0] == line
            &&& t == lines::joined(ls)
            &&& render::first_line(t) == line
            &&& text::trim(render::after_first_line(t)) == text::join(bs, seq!['\n'])
            &&& text::lines(t)[0] == line
        }),
{
    let t = render::section(line, bs);
    let b = text::join(bs, seq!['\n']);
    let x = seq![line] + all_lines(bs);
    lemma_bodies(bs);
    assert(x.skip(1) =~= all_lines(bs));
    assert(x[0] == line);
    assert(document::headed(x));
    document::lemma_headed(x);
    if bs.len() == 0 {
        assert(b =~= Seq::<char>::empty());
        assert(all_lines(bs) =~= Seq::<Seq<char>>::empty());
        assert(x =~= seq![line]);
        assert(lines::joined(x) =~= line);
        lines::lemma_lines_of_joined(x);
        lines::lemma_find_after_line(line, Seq::empty(), 0);
        assert(line.take(line.len() as int) =~= line);
        assert(text::trim(Seq::<char>::empty()) =~= Seq::<char>::empty());
    } else {
        lines::lemma_join_concat(seq![line], all_lines(bs), seq!['\n']);
        assert(lines::joined(seq![line]) =~= line);
        assert(lines::joined(x) == t);
        assert(t[0] == line[0]);
        assert(t.last() == b.last());
        assert(x.last() == all_lines(bs).last());
        if x.last().len() == 0 {
            let y = all_lines(bs);
            if y.len() == 1 {
                assert(lines::joined(y) =~= y[0]);
            } else {
                assert(b == lines::joined(y.drop_last()) + seq!['\n'] + y.last());
                assert(b.last() == '\n');
            }
            assert(false);
        }
        lines::lemma_lines_of_joined(x);
        lines::lemma_find_after_line(line, b, 0);
        assert(t.take(line.len() as int) =~= line);
        assert(t.skip(line.len() as int + 1) =~= b);
        lines::lemma_trim_snug(b);
    }
}

// ---------------------------------------------------------------------------
// The sections of proper chunks
// ---------------------------------------------------------------------------

/// Whether a line can head the section of a heading.
pub open spec fn heads(line: Seq<char>, h: Seq<char>) -> bool {
    &&& lines::plain(line)
    &&& lines::snug(line)
    &&& document::marks_heading(line)
    &&& chunking::heading_text(line) == h
}

/// Whether all of the chunks are proper.
pub open spec fn all_proper(cs: Seq<ChunkView>) -> bool {
    forall|i: int| 0 <= i < cs.len() ==> proper(#[trigger] cs[i])
}

/// The opening line of a proper chunk heads its section.
proof fn lemma_opening_line(c: ChunkView)
    requires
        proper(c),
        render::freeform(c),
    ensures
        heads(render::opening_line(c), c.heading->0),
{
    let ls = text::lines(text::trim(c.text));
    let line = render::opening_line(c);
    if ls.len() == 0 {
        assert(text::trim_start(line) =~= line);
        assert(false);
    }
    assert forall|j: int| 0 <= j < ls[0].len() implies #[trigger] ls[0][j] != '\n' by {
        lines::lemma_lines_hold_no_feed(text::trim(c.text), 0, j);
    }
    lines::lemma_trim_brings_no_feed(ls[0]);
    lines::lemma_trimmed_is_snug(ls[0]);
    if line.len() == 0 {
        assert(text::trim_start(line) =~= line);
        assert(false);
    }
}

/// The heading line of a stratum heads its section.
proof fn lemma_stratum_line(s: Stratum)
    ensures
        heads(strata::stratum_line(s), chunking::heading_text(strata::stratum_line(s))),
        strata::stratum_of(chunking::heading_text(strata::stratum_line(s))) == Some(s),
{
    reveal_strlit("## Identity");
    reveal_strlit("## Patterns");
    reveal_strlit("## Focus");
    let line = strata::stratum_line(s);
    assert(text::trim_start(line) == line);
    assert(line.take(1) =~= seq!['#']);
    reveal_with_fuel(text::trim_start_char, 4);
    assert(line.skip(1).skip(1) =~= line.skip(2));
    let name = line.skip(2);
    assert(text::trim_start_char(line, '#') == name);
    assert(text::trim_start(name) == name.skip(1)) by {
        reveal_with_fuel(text::trim_start, 3);
    }
    let bare = name.skip(1);
    assert(lines::snug(bare));
    lines::lemma_trim_snug(bare);
    assert(chunking::heading_text(line) == bare);
    assert(seq!['#', '#', ' '] + bare =~= line);
    strata::lemma_names_distinct();
}

proof fn lemma_gathered_tidy(cs: Seq<ChunkView>, n: int, s: Stratum, h: Seq<char>)
    requires
        all_proper(cs),
        0 <= n <= cs.len(),
    ensures
        all_tidy(render::preamble(cs, n)),
        all_tidy(render::stratum_bodies(cs, n, s)),
        all_tidy(render::heading_bodies(cs, n, h)),
    decreases n,
{
    if n > 0 {
        lemma_gathered_tidy(cs, n - 1, s, h);
        assert(proper(cs[n - 1]));
    }
}

/// The other headings are told apart, and each heads its section.
proof fn lemma_other_headings(cs: Seq<ChunkView>, n: int)
    requires
        all_proper(cs),
        0 <= n <= cs.len(),
    ensures
        ({
            let hs = render::other_headings(cs, n);
            &&& forall|k: int|
                0 <= k < hs.len() ==> heads((#[trigger] hs[k]).1, hs[k].0) && strata::stratum_of(
                    hs[k].0,
                ) is None
            &&& forall|i: int, j: int|
                0 <= i < j < hs.len() ==> (#[trigger] hs[i]).0 != (#[trigger] hs[j]).0
        }),
    decreases n,
{
    if n > 0 {
        lemma_other_headings(cs, n - 1);
        let c = cs[n - 1];
        assert(proper(c));
        let prev = render::other_headings(cs, n - 1);
        if render::freeform(c) && !render::listed(prev, c.heading->0) {
            lemma_opening_line(c);
        }
    }
}

/// What is rendered again of a section.
proof fn lemma_again(c: ChunkView, line: Seq<char>, bs: Seq<Seq<char>>)
    requires
        all_tidy(bs),
        heads(line, chunking::heading_text(line)),
        text::trim(c.text) == render::section(line, bs),
        c.heading == Some(chunking::heading_text(line)),
    ensures
        render::opening_line(c) == line,
        render::body(c) == text::join(bs, seq!['\n']),
        render::section(
            line,
            if render::body(c).len() > 0 {
                seq![render::body(c)]
            } else {
                Seq::empty()
            },
        ) == render::section(line, bs),
{
    lemma_section(line, bs);
    lines::lemma_trim_snug(line);
    let h = chunking::heading_text(line);
    let raw = text::trim_start_char(text::trim_start(line), '#');
    lines::lemma_trimmed_is_snug(raw);
    if h.len() > 0 {
        lines::lemma_trim_snug(h);
    } else {
        assert(text::trim(h) =~= h);
    }
    let b = render::body(c);
    if b.len() > 0 {
        assert(text::join(seq![b], seq!['\n']) =~= b);
    } else {
        assert(text::join(Seq::<Seq<char>>::empty(), seq!['\n']) =~= b);
    }
}

// ---------------------------------------------------------------------------
// Gathering from one chunk per section
// ---------------------------------------------------------------------------

/// The body of one chunk, if it has one.
pub open spec fn lone_body(c: ChunkView) -> Seq<Seq<char>> {
    if render::body(c).len() > 0 {
        seq![render::body(c)]
    } else {
        Seq::empty()
    }
}

proof fn lemma_lone_preamble(w: Seq<ChunkView>, p: int, n: int)
    requires
        0 <= p <= 1,
        p <= n <= w.len(),
        p == 1 ==> w[0].heading is None,
        forall|i: int| p <= i < w.len() ==> (#[trigger] w[i]).heading is Some,
    ensures
        render::preamble(w, n) == (if p == 1 {
            lone_body(w[0])
        } else {
            Seq::empty()
        }),
    decreases n,
{
    if n > p {
        lemma_lone_preamble(w, p, n - 1);
        assert(w[n - 1].heading is Some);
    } else if n == 1 {
        assert(render::preamble(w, 0) =~= Seq::<Seq<char>>::empty());
        assert(render::preamble(w, 1) =~= lone_body(w[0]));
    }
}

proof fn lemma_lone_stratum(w: Seq<ChunkView>, q: int, n: int, s: Stratum)
    requires
        0 <= n <= w.len(),
        0 <= q < w.len(),
        render::under_stratum(w[q], s),
        forall|i: int|
            0 <= i < w.len() && i != q ==> !render::under_stratum(#[trigger] w[i], s),
    ensures
        render::stratum_bodies(w, n, s) == (if q < n {
            lone_body(w[q])
        } else {
            Seq::empty()
        }),
    decreases n,
{
    if n > 0 {
        lemma_lone_stratum(w, q, n - 1, s);
        assert(n - 1 != q ==> !render::under_stratum(w[n - 1], s));
        if n - 1 == q {
            assert(render::stratum_bodies(w, n, s) =~= lone_body(w[q]));
        }
    }
}

proof fn lemma_no_stratum(w: Seq<ChunkView>, n: int, s: Stratum)
    requires
        0 <= n <= w.len(),
        forall|i: int| 0 <= i < w.len() ==> !render::under_stratum(#[trigger] w[i], s),
    ensures
        !render::has_stratum(w, n, s),
{
}

proof fn lemma_lone_heading(w: Seq<ChunkView>, q: int, n: int, h: Seq<char>)
    requires
        0 <= n <= w.len(),
        0 <= q < w.len(),
        render::under_heading(w[q], h),
        forall|i: int|
            0 <= i < w.len() && i != q ==> !render::under_heading(#[trigger] w[i], h),
    ensures
        render::heading_bodies(w, n, h) == (if q < n {
            lone_body(w[q])
        } else {
            Seq::empty()
        }),
    decreases n,
{
    if n > 0 {
        lemma_lone_heading(w, q, n - 1, h);
        assert(n - 1 != q ==> !render::under_heading(w[n - 1], h));
        if n - 1 == q {
            assert(render::heading_bodies(w, n, h) =~= lone_body(w[q]));
        }
    }
}

proof fn lemma_lone_headings(
    w: Seq<ChunkView>,
    hs: Seq<(Seq<char>, Seq<char>)>,
    off: int,
    n: int,
)
    requires
        0 <= off <= w.len(),
        0 <= n <= w.len(),
        hs.len() == w.len() - off,
        forall|i: int| 0 <= i < off ==> !render::freeform(#[trigger] w[i]),
        forall|i: int|
            off <= i < w.len() ==> render::freeform(#[trigger] w[i]) && w[i].heading == Some(
                hs[i - off].0,
            ) && render::opening_line(w[i]) == hs[i - off].1,
        forall|i: int, j: int|
            0 <= i < j < hs.len() ==> (#[trigger] hs[i]).0 != (#[trigger] hs[j]).0,
    ensures
        render::other_headings(w, n) == (if n <= off {
            Seq::empty()
        } else {
            hs.take(n - off)
        }),
    decreases n,
{
    if n > 0 {
        lemma_lone_headings(w, hs, off, n - 1);
        let prev = render::other_headings(w, n - 1);
        let c = w[n - 1];
        if n > off {
            let k = n - 1 - off;
            assert(c.heading == Some(hs[k].0));
            assert(!render::listed(prev, hs[k].0)) by {
                assert forall|i: int| 0 <= i < prev.len() implies (#[trigger] prev[i]).0
                    != hs[k].0 by {
                    assert(prev[i] == hs[i]);
                }
            }
            if k == 0 {
                assert(prev =~= hs.take(0));
            }
            assert(hs.take(k).push(hs[k]) =~= hs.take(k + 1));
        } else {
            assert(!render::freeform(c));
        }
    }
}

// ---------------------------------------------------------------------------
// The fixpoint
// ---------------------------------------------------------------------------

/// Whether every section of the rendered file can be joined again from its
/// windows; a section of at most 2048 bytes always can.
pub open spec fn sections_rejoin(cs: Seq<ChunkView>) -> bool {
    let t = render::sections(cs);
    forall|i: int|
        0 <= i < t.len() ==> rejoin::rejoins(
            if i < t.len() - 1 {
                document::padded(text::lines(#[trigger] t[i]))
            } else {
                text::lines(t[i])
            },
        )
}

/// The place of the first section of a stratum, or of what follows it.
pub open spec fn stratum_offset(cs: Seq<ChunkView>, s: Stratum) -> int {
    let a = render::preamble_section(cs).len() as int;
    match s {
        Stratum::Identity => a,
        Stratum::Patterns => a + render::stratum_section(cs, Stratum::Identity).len(),
        Stratum::Focus => a + render::stratum_section(cs, Stratum::Identity).len()
            + render::stratum_section(cs, Stratum::Patterns).len(),
    }
}

/// The place of the first section of another heading.
pub open spec fn other_offset(cs: Seq<ChunkView>) -> int {
    stratum_offset(cs, Stratum::Focus) + render::stratum_section(cs, Stratum::Focus).len()
}

/// What a section of the rendered file is by its place.
pub open spec fn laid_out(cs: Seq<ChunkView>, i: int) -> bool {
    let t = render::sections(cs);
    let n = cs.len() as int;
    let hs = render::other_headings(cs, n);
    &&& render::preamble_section(cs).len() <= 1
    &&& other_offset(cs) + hs.len() == t.len()
    &&& i < stratum_offset(cs, Stratum::Identity) ==> i == 0 && render::preamble_section(cs)
        =~= seq![t[0]]
    &&& forall|s: Stratum|
        #![trigger stratum_offset(cs, s)]
        stratum_offset(cs, s) <= i < stratum_offset(cs, s) + render::stratum_section(cs, s).len()
            ==> i == stratum_offset(cs, s) && render::has_stratum(cs, n, s) && t[i]
            == render::section(strata::stratum_line(s), render::stratum_bodies(cs, n, s))
    &&& i >= other_offset(cs) ==> t[i] == render::section(
        hs[i - other_offset(cs)].1,
        render::heading_bodies(cs, n, hs[i - other_offset(cs)].0),
    )
}

proof fn lemma_other_sections(cs: Seq<ChunkView>, k: int)
    requires
        0 <= k <= render::other_headings(cs, cs.len() as int).len(),
    ensures
        ({
            let hs = render::other_headings(cs, cs.len() as int);
            let o = render::other_sections(cs, k);
            &&& o.len() == k
            &&& forall|i: int|
                0 <= i < k ==> #[trigger] o[i] == render::section(
                    hs[i].1,
                    render::heading_bodies(cs, cs.len() as int, hs[i].0),
                )
        }),
    decreases k,
{
    if k > 0 {
        lemma_other_sections(cs, k - 1);
    }
}

proof fn lemma_laid_out(cs: Seq<ChunkView>, i: int)
    requires
        0 <= i < render::sections(cs).len(),
    ensures
        laid_out(cs, i),
{
    let hs = render::other_headings(cs, cs.len() as int);
    lemma_other_sections(cs, hs.len() as int);
    let a = render::preamble_section(cs);
    let b1 = render::stratum_section(cs, Stratum::Identity);
    let b2 = render::stratum_section(cs, Stratum::Patterns);
    let b3 = render::stratum_section(cs, Stratum::Focus);
    let o = render::other_sections(cs, hs.len() as int);
    let t = render::sections(cs);
    assert(t =~= a + b1 + b2 + b3 + o);
    assert(b1.len() <= 1 && b2.len() <= 1 && b3.len() <= 1);
    assert forall|s: Stratum|
        #![trigger stratum_offset(cs, s)]
        stratum_offset(cs, s) <= i < stratum_offset(cs, s) + render::stratum_section(
            cs,
            s,
        ).len() implies i == stratum_offset(cs, s) && render::has_stratum(cs, cs.len() as int, s)
        && t[i] == render::section(
        strata::stratum_line(s),
        render::stratum_bodies(cs, cs.len() as int, s),
    ) by {
        assert(t[i] == render::stratum_section(cs, s)[0]);
    }
}

/// Whether a place is that of the section of a stratum.
pub open spec fn at_stratum(cs: Seq<ChunkView>, i: int, s: Stratum) -> bool {
    stratum_offset(cs, s) <= i < stratum_offset(cs, s) + render::stratum_section(cs, s).len()
}

/// A section of the rendered file can be read back.
proof fn lemma_section_facts(cs: Seq<ChunkView>, i: int)
    requires
        all_proper(cs),
        0 <= i < render::sections(cs).len(),
    ensures
        ({
            let t = render::sections(cs)[i];
            let ls = text::lines(t);
            &&& lines::snug(t)
            &&& t == lines::joined(ls)
            &&& i < stratum_offset(cs, Stratum::Identity) ==> document::quiet(ls)
                && !document::headed(ls)
            &&& i >= stratum_offset(cs, Stratum::Identity) ==> document::headed(ls)
        }),
{
    lemma_laid_out(cs, i);
    let n = cs.len() as int;
    let t = render::sections(cs)[i];
    if i < stratum_offset(cs, Stratum::Identity) {
        let bs = render::preamble(cs, n);
        lemma_gathered_tidy(cs, n, Stratum::Identity, Seq::empty());
        if bs.len() == 0 {
            assert(text::join(bs, seq!['\n', '\n']) =~= Seq::<char>::empty());
        }
        lemma_preamble(bs);
    } else if i >= other_offset(cs) {
        let (h, line) = render::other_headings(cs, n)[i - other_offset(cs)];
        lemma_other_headings(cs, n);
        lemma_gathered_tidy(cs, n, Stratum::Identity, h);
        lemma_section(line, render::heading_bodies(cs, n, h));
    } else {
        let s = if at_stratum(cs, i, Stratum::Identity) {
            Stratum::Identity
        } else if at_stratum(cs, i, Stratum::Patterns) {
            Stratum::Patterns
        } else {
            Stratum::Focus
        };
        assert(at_stratum(cs, i, s));
        lemma_stratum_line(s);
        lemma_gathered_tidy(cs, n, s, Seq::empty());
        lemma_section(strata::stratum_line(s), render::stratum_bodies(cs, n, s));
    }
}

/// Whether a chunk stands for the section of the rendered file at a place, and
/// is rendered as it.
pub open spec fn renders_again(cs: Seq<ChunkView>, c: ChunkView, i: int) -> bool {
    let t = render::sections(cs)[i];
    let hs = render::other_headings(cs, cs.len() as int);
    &&& i < stratum_offset(cs, Stratum::Identity) ==> c.heading is None && lone_body(c) == seq![t]
    &&& forall|s: Stratum| #[trigger]
        at_stratum(cs, i, s) ==> render::under_stratum(c, s) && render::section(
            strata::stratum_line(s),
            lone_body(c),
        ) == t
    &&& i >= other_offset(cs) ==> ({
        let (h, line) = hs[i - other_offset(cs)];
        &&& render::freeform(c)
        &&& c.heading == Some(h)
        &&& render::opening_line(c) == line
        &&& render::section(line, lone_body(c)) == t
    })
}

proof fn lemma_renders_again(
    cs: Seq<ChunkView>,
    c: ChunkView,
    i: int,
    source: MemorySource,
    path: Seq<char>,
)
    requires
        all_proper(cs),
        0 <= i < render::sections(cs).len(),
        document::holds_section(c, text::lines(render::sections(cs)[i]), source, path),
    ensures
        renders_again(cs, c, i),
{
    lemma_laid_out(cs, i);
    lemma_section_facts(cs, i);
    let n = cs.len() as int;
    let t = render::sections(cs)[i];
    if i < stratum_offset(cs, Stratum::Identity) {
        assert(lone_body(c) =~= seq![t]);
    }
    assert forall|s: Stratum| #[trigger] at_stratum(cs, i, s) implies render::under_stratum(c, s)
        && render::section(strata::stratum_line(s), lone_body(c)) == t by {
        assert(i == stratum_offset(cs, s));
        let bs = render::stratum_bodies(cs, n, s);
        let line = strata::stratum_line(s);
        lemma_stratum_line(s);
        lemma_gathered_tidy(cs, n, s, Seq::empty());
        lemma_section(line, bs);
        lemma_again(c, line, bs);
    }
    if i >= other_offset(cs) {
        let (h, line) = render::other_headings(cs, n)[i - other_offset(cs)];
        lemma_other_headings(cs, n);
        lemma_gathered_tidy(cs, n, Stratum::Identity, h);
        let bs = render::heading_bodies(cs, n, h);
        lemma_section(line, bs);
        lemma_again(c, line, bs);
    }
}

/// The section of a stratum is rendered again, or still missing.
proof fn lemma_stratum_again(cs: Seq<ChunkView>, w: Seq<ChunkView>, s: Stratum)
    requires
        w.len() == render::sections(cs).len(),
        forall|i: int| 0 <= i < w.len() ==> renders_again(cs, #[trigger] w[i], i),
    ensures
        render::stratum_section(w, s) == render::stratum_section(cs, s),
{
    let n = w.len() as int;
    let q = stratum_offset(cs, s);
    let t = render::sections(cs);
    assert(other_offset(cs) <= t.len()) by {
        lemma_other_sections(cs, render::other_headings(cs, cs.len() as int).len() as int);
    }
    assert forall|i: int| 0 <= i < n && !at_stratum(cs, i, s) implies !render::under_stratum(
        #[trigger] w[i],
        s,
    ) by {
        assert(renders_again(cs, w[i], i));
        if i >= stratum_offset(cs, Stratum::Identity) && i < other_offset(cs) {
            let r = if at_stratum(cs, i, Stratum::Identity) {
                Stratum::Identity
            } else if at_stratum(cs, i, Stratum::Patterns) {
                Stratum::Patterns
            } else {
                Stratum::Focus
            };
            assert(at_stratum(cs, i, r));
        }
    }
    if render::stratum_section(cs, s).len() > 0 {
        assert(at_stratum(cs, q, s));
        assert(renders_again(cs, w[q], q));
        lemma_laid_out(cs, q);
        lemma_lone_stratum(w, q, n, s);
        assert(render::has_stratum(w, n, s));
        assert(render::stratum_section(w, s) =~= seq![t[q]]);
        assert(render::stratum_section(cs, s) =~= seq![t[q]]);
    } else {
        lemma_no_stratum(w, n, s);
        assert(render::stratum_section(w, s) =~= render::stratum_section(cs, s));
    }
}

proof fn lemma_others_again(cs: Seq<ChunkView>, w: Seq<ChunkView>, k: int)
    requires
        all_proper(cs),
        w.len() == render::sections(cs).len(),
        forall|i: int| 0 <= i < w.len() ==> renders_again(cs, #[trigger] w[i], i),
        render::other_headings(w, w.len() as int) == render::other_headings(cs, cs.len() as int),
        0 <= k <= render::other_headings(cs, cs.len() as int).len(),
    ensures
        render::other_sections(w, k) == render::other_sections(cs, k),
    decreases k,
{
    if k > 0 {
        lemma_others_again(cs, w, k - 1);
        let hs = render::other_headings(cs, cs.len() as int);
        let off = other_offset(cs);
        let n = w.len() as int;
        lemma_other_sections(cs, hs.len() as int);
        let q = off + k - 1;
        lemma_laid_out(cs, q);
        assert(renders_again(cs, w[q], q));
        lemma_other_headings(cs, cs.len() as int);
        let h = hs[k - 1].0;
        assert forall|i: int| 0 <= i < n && i != q implies !render::under_heading(
            #[trigger] w[i],
            h,
        ) by {
            assert(renders_again(cs, w[i], i));
            if i >= off {
                assert(w[i].heading == Some(hs[i - off].0));
                if i < q {
                    assert(hs[i - off].0 != hs[k - 1].0);
                } else {
                    assert(hs[k - 1].0 != hs[i - off].0);
                }
            } else if i >= stratum_offset(cs, Stratum::Identity) {
                let r = if at_stratum(cs, i, Stratum::Identity) {
                    Stratum::Identity
                } else if at_stratum(cs, i, Stratum::Patterns) {
                    Stratum::Patterns
                } else {
                    Stratum::Focus
                };
                assert(at_stratum(cs, i, r));
            }
        }
        lemma_lone_heading(w, q, n, h);
    }
}

/// One chunk for each section of the rendered file is rendered as that file.
proof fn lemma_sections_again(cs: Seq<ChunkView>, w: Seq<ChunkView>)
    requires
        all_proper(cs),
        w.len() == render::sections(cs).len(),
        forall|i: int| 0 <= i < w.len() ==> renders_again(cs, #[trigger] w[i], i),
    ensures
        render::sections(w) == render::sections(cs),
{
    let n = w.len() as int;
    let p = stratum_offset(cs, Stratum::Identity);
    let off = other_offset(cs);
    let hs = render::other_headings(cs, cs.len() as int);
    lemma_other_sections(cs, hs.len() as int);
    lemma_other_headings(cs, cs.len() as int);
    assert(off + hs.len() == n);
    assert forall|i: int| p <= i < n implies (#[trigger] w[i]).heading is Some && (i < off
        ==> !render::freeform(w[i])) by {
        assert(renders_again(cs, w[i], i));
        if i < off {
            let r = if at_stratum(cs, i, Stratum::Identity) {
                Stratum::Identity
            } else if at_stratum(cs, i, Stratum::Patterns) {
                Stratum::Patterns
            } else {
                Stratum::Focus
            };
            assert(at_stratum(cs, i, r));
        }
    }
    assert forall|i: int| 0 <= i < off implies !render::freeform(#[trigger] w[i]) by {
        assert(renders_again(cs, w[i], i));
    }
    assert forall|i: int| off <= i < n implies render::freeform(#[trigger] w[i]) && w[i].heading
        == Some(hs[i - off].0) && render::opening_line(w[i]) == hs[i - off].1 by {
        assert(renders_again(cs, w[i], i));
    }
    if p == 1 {
        assert(renders_again(cs, w[0], 0));
    }
    lemma_lone_preamble(w, p, n);
    lemma_lone_headings(w, hs, off, n);
    assert(hs.take(n - off) =~= hs);
    if n == off {
        assert(hs =~= Seq::<(Seq<char>, Seq<char>)>::empty());
    }
    lemma_stratum_again(cs, w, Stratum::Identity);
    lemma_stratum_again(cs, w, Stratum::Patterns);
    lemma_stratum_again(cs, w, Stratum::Focus);
    lemma_others_again(cs, w, hs.len() as int);
    assert(render::preamble_section(w) == render::preamble_section(cs)) by {
        if p == 1 {
            lemma_laid_out(cs, 0);
            let t = render::sections(cs)[0];
            assert(text::join(seq![t], seq!['\n', '\n']) =~= t);
            assert(render::preamble_section(w) =~= seq![t]);
        } else {
            assert(text::join(Seq::<Seq<char>>::empty(), seq!['\n', '\n']) =~= Seq::<
                char,
            >::empty());
            assert(render::preamble_section(w) =~= render::preamble_section(cs));
        }
    }
}

/// The lines of a rendered file are those of its sections, with an empty line
/// between, and it ends with a single line feed.
pub proof fn lemma_rendered_lines(cs: Seq<ChunkView>)
    requires
        all_proper(cs),
        render::sections(cs).len() > 0,
    ensures
        ({
            let ss = line_lists(render::sections(cs));
            &&& document::well_cut(ss)
            &&& text::lines(render::rendered(cs)) == document::document(ss)
            &&& forall|i: int| 0 <= i < ss.len() ==> lines::snug(lines::joined(#[trigger] ss[i]))
        }),
        ends_with_one_feed(render::rendered(cs)),
{
    let t = render::sections(cs);
    let ss = line_lists(t);
    let file = render::rendered(cs);
    assert forall|i: int| 0 <= i < t.len() implies (#[trigger] t[i]).len() > 0 && t[i]
        == lines::joined(text::lines(t[i])) by {
        lemma_section_facts(cs, i);
    }
    lemma_document_text(t);
    let d = document::document(ss);
    assert(document::well_cut(ss)) by {
        lemma_section_facts(cs, 0);
        assert(ss[0] == text::lines(t[0]));
        assert(!text::blank(lines::joined(ss[0])));
        lemma_laid_out(cs, 0);
        assert forall|i: int| 1 <= i < ss.len() implies document::headed(#[trigger] ss[i]) by {
            lemma_section_facts(cs, i);
        }
    }
    assert forall|i: int| 0 <= i < ss.len() implies lines::snug(
        lines::joined(#[trigger] ss[i]),
    ) by {
        lemma_section_facts(cs, i);
        assert(t[i] == lines::joined(text::lines(t[i])));
    }
    document::lemma_document(ss, MemorySource::Curated, Seq::empty());
    lines::lemma_lines_of_joined(d);
    lemma_section_facts(cs, 0);
    lemma_section_facts(cs, t.len() - 1);
    lines::lemma_joined_ends(t, seq!['\n', '\n']);
    let out = text::join(t, seq!['\n', '\n']);
    assert(file == out + seq!['\n']);
    assert(file[file.len() - 2] == out.last());
    assert(lines::snug(t.last()));
}

/// Whether a text ends with one line feed and no more.
pub open spec fn ends_with_one_feed(s: Seq<char>) -> bool {
    s.len() > 1 && s.last() == '\n' && s[s.len() - 2] != '\n'
}

/// Whether no two of the chunks stand under the same heading, and no more than one
/// stands under none.
pub open spec fn told_apart(cs: Seq<ChunkView>) -> bool {
    forall|i: int, j: int|
        0 <= i < j < cs.len() ==> (#[trigger] cs[i]).heading != (#[trigger] cs[j]).heading
}

proof fn lemma_told_apart_again(cs: Seq<ChunkView>, w: Seq<ChunkView>)
    requires
        all_proper(cs),
        w.len() == render::sections(cs).len(),
        forall|i: int| 0 <= i < w.len() ==> renders_again(cs, #[trigger] w[i], i),
    ensures
        told_apart(w),
{
    lemma_other_headings(cs, cs.len() as int);
    assert forall|i: int, j: int| 0 <= i < j < w.len() implies (#[trigger] w[i]).heading != (
    #[trigger] w[j]).heading by {
        lemma_laid_out(cs, i);
        lemma_laid_out(cs, j);
        assert(renders_again(cs, w[i], i));
        assert(renders_again(cs, w[j], j));
        lemma_placed(cs, i);
        lemma_placed(cs, j);
    }
}

/// Every section but a preamble is that of a stratum or of another heading.
proof fn lemma_placed(cs: Seq<ChunkView>, i: int)
    requires
        0 <= i < render::sections(cs).len(),
    ensures
        ({
            ||| i < stratum_offset(cs, Stratum::Identity)
            ||| at_stratum(cs, i, Stratum::Identity)
            ||| at_stratum(cs, i, Stratum::Patterns)
            ||| at_stratum(cs, i, Stratum::Focus)
            ||| i >= other_offset(cs)
        }),
{
}

/// Rendering is a fixpoint: the rendered file, cut into chunks again and its
/// windows joined, has one chunk for each section, no two under one heading, and
/// is rendered as it was; it is empty or ends with a single line feed. It holds for
/// chunks whose bodies hold no heading, close their code blocks and have no
/// carriage return before a line feed, and for sections whose windows can be joined
/// without loss.
pub proof fn law_rendering_is_a_fixpoint(
    cs: Seq<ChunkView>,
    source: MemorySource,
    path: Seq<char>,
)
    requires
        all_proper(cs),
        sections_rejoin(cs),
    ensures
        ({
            let file = render::rendered(cs);
            let again = chunking::chunks(text::lines(file), source, path);
            let whole = coalesce::coalesced(again, again.len() as int);
            &&& render::rendered(whole) == file
            &&& whole.len() == render::sections(cs).len()
            &&& told_apart(whole)
            &&& forall|i: int| 0 <= i < whole.len() ==> (#[trigger] whole[i]).source == source
            &&& file.len() == 0 || ends_with_one_feed(file)
        }),
{
    let t = render::sections(cs);
    let file = render::rendered(cs);
    if t.len() == 0 {
        assert(text::join(t, seq!['\n', '\n']) =~= Seq::<char>::empty());
        let none = Seq::<Seq<char>>::empty();
        assert(text::lines(file) =~= none);
        assert(none.subrange(0, 0) =~= none);
        assert(chunking::blank_lines(none, 0, 0));
        assert(chunking::closed_chunks(none, 0, source, path) =~= Seq::<ChunkView>::empty());
        assert(chunking::chunks(none, source, path) =~= Seq::<ChunkView>::empty());
        let w = Seq::<ChunkView>::empty();
        assert(coalesce::coalesced(w, 0) =~= w);
        lemma_sections_again(cs, w);
    } else {
        let ss = line_lists(t);
        lemma_rendered_lines(cs);
        let d = document::document(ss);
        assert(document::joinable(ss)) by {
            assert forall|i: int| 0 <= i < ss.len() implies lines::snug(
                lines::joined(#[trigger] ss[i]),
            ) && rejoin::rejoins(
                if i < ss.len() - 1 {
                    document::padded(ss[i])
                } else {
                    ss[i]
                },
            ) by {
                assert(ss[i] == text::lines(t[i]));
            }
        }
        document::law_one_chunk_per_section(ss, source, path);
        let again = chunking::chunks(d, source, path);
        let w = coalesce::coalesced(again, again.len() as int);
        assert forall|i: int| 0 <= i < w.len() implies renders_again(cs, #[trigger] w[i], i) by {
            assert(document::holds_section(w[i], ss[i], source, path));
            lemma_renders_again(cs, w[i], i, source, path);
        }
        assert forall|i: int| 0 <= i < w.len() implies (#[trigger] w[i]).source == source by {
            assert(document::holds_section(w[i], ss[i], source, path));
        }
        lemma_told_apart_again(cs, w);
        lemma_sections_again(cs, w);
    }
}

// ---------------------------------------------------------------------------
// A second pass
// ---------------------------------------------------------------------------

/// Joining keeps where the chunks come from.
proof fn lemma_coalesced_source(cs: Seq<ChunkView>, n: int)
    requires
        0 <= n <= cs.len(),
        forall|i: int| 0 <= i < cs.len() ==> (#[trigger] cs[i]).source is Daily,
    ensures
        forall|i: int|
            0 <= i < coalesce::coalesced(cs, n).len() ==> (#[trigger] coalesce::coalesced(
                cs,
                n,
            )[i]).source is Daily,
    decreases n,
{
    if n > 0 {
        lemma_coalesced_source(cs, n - 1);
        assert(cs[n - 1].source is Daily);
    }
}

/// The curated chunks before the daily ones are the curated chunks.
proof fn lemma_told_apart(w: Seq<ChunkView>, d: Seq<ChunkView>, n: int)
    requires
        0 <= n <= w.len() + d.len(),
        forall|i: int| 0 <= i < w.len() ==> (#[trigger] w[i]).source is Curated,
        forall|i: int| 0 <= i < d.len() ==> (#[trigger] d[i]).source is Daily,
    ensures
        consolidate::curated_only(w + d, n) == (if n <= w.len() {
            w.take(n)
        } else {
            w
        }),
        consolidate::daily_only(w + d, n) == (if n <= w.len() {
            Seq::empty()
        } else {
            d.take(n - w.len())
        }),
    decreases n,
{
    let all = w + d;
    if n > 0 {
        lemma_told_apart(w, d, n - 1);
        if n <= w.len() {
            assert(all[n - 1] == w[n - 1]);
            assert(w.take(n - 1).push(w[n - 1]) =~= w.take(n));
        } else {
            let k = n - 1 - w.len();
            assert(all[n - 1] == d[k]);
            assert(d.take(k).push(d[k]) =~= d.take(k + 1));
            if k == 0 {
                assert(w.take(w.len() as int) =~= w);
                assert(d.take(0) =~= Seq::<ChunkView>::empty());
            }
        }
    } else {
        assert(w.take(0) =~= Seq::<ChunkView>::empty());
    }
}

/// Without a fact that is fit for promotion there is none to promote.
proof fn lemma_none_promoted(
    daily: Seq<ChunkView>,
    scores: Seq<Score>,
    kept: Seq<ChunkView>,
    n: int,
)
    requires
        0 <= n <= daily.len(),
        forall|i: int|
            0 <= i < daily.len() ==> !(#[trigger] consolidate::eligible(daily, scores, kept, i)),
    ensures
        consolidate::promoted_keys(daily, scores, kept, n).len() == 0,
    decreases n,
{
    if n > 0 {
        lemma_none_promoted(daily, scores, kept, n - 1);
        assert(!consolidate::eligible(daily, scores, kept, n - 1));
    }
}

/// One chunk makes no more than one section.
proof fn lemma_one_chunk_one_section(cs: Seq<ChunkView>)
    requires
        cs.len() <= 1,
    ensures
        render::sections(cs).len() <= 1,
{
    let n = cs.len() as int;
    let hs = render::other_headings(cs, n);
    lemma_other_sections(cs, hs.len() as int);
    assert(render::other_headings(cs, 0) =~= Seq::<(Seq<char>, Seq<char>)>::empty());
    assert(render::preamble(cs, 0) =~= Seq::<Seq<char>>::empty());
    if n == 1 {
        let c = cs[0];
        if c.heading is None {
            assert(hs.len() == 0);
            lemma_no_stratum(cs, n, Stratum::Identity);
            lemma_no_stratum(cs, n, Stratum::Patterns);
            lemma_no_stratum(cs, n, Stratum::Focus);
        } else {
            assert(render::preamble(cs, 1) =~= Seq::<Seq<char>>::empty());
            assert(render::preamble_section(cs).len() == 0);
        }
    } else {
        lemma_no_stratum(cs, n, Stratum::Identity);
        lemma_no_stratum(cs, n, Stratum::Patterns);
        lemma_no_stratum(cs, n, Stratum::Focus);
    }
}

/// A pass over the file that a pass has left changes nothing: it merges,
/// promotes and evicts nothing and renders the same file, and so does not run.
/// It holds where rendering is a fixpoint, no two sections share their content
/// key, and no daily fact is fit for promotion.
pub proof fn law_second_pass_changes_nothing(
    cs: Seq<ChunkView>,
    path: Seq<char>,
    daily: Seq<ChunkView>,
    index: Seq<ChunkView>,
    daily_scores: Seq<Score>,
    curated_scores: Seq<Score>,
    evict: bool,
    budget: int,
)
    requires
        all_proper(cs),
        sections_rejoin(cs),
        evict ==> !consolidate::over_budget(cs, budget),
        forall|i: int| 0 <= i < daily.len() ==> (#[trigger] daily[i]).source is Daily,
        ({
            let again = chunking::chunks(
                text::lines(render::rendered(cs)),
                MemorySource::Curated,
                path,
            );
            let whole = coalesce::coalesced(again, again.len() as int);
            let facts = consolidate::daily_of(again + daily);
            &&& forall|i: int, j: int|
                0 <= i < j < whole.len() ==> consolidate::ckey(#[trigger] whole[i])
                    != consolidate::ckey(#[trigger] whole[j])
            &&& forall|i: int|
                0 <= i < facts.len() ==> !(#[trigger] consolidate::eligible(
                    facts,
                    daily_scores,
                    whole,
                    i,
                ))
        }),
    ensures
        ({
            let file = render::rendered(cs);
            let again = chunking::chunks(text::lines(file), MemorySource::Curated, path);
            let p = consolidate::pass(
                again + daily,
                index,
                daily_scores,
                curated_scores,
                evict,
                budget,
            );
            &&& p.merged == 0
            &&& p.added.len() == 0
            &&& p.evicted.len() == 0
            &&& render::rendered(p.curated) == file
        }),
{
    let file = render::rendered(cs);
    let source = MemorySource::Curated;
    let again = chunking::chunks(text::lines(file), source, path);
    let w = coalesce::coalesced(again, again.len() as int);
    let d = coalesce::coalesced(daily, daily.len() as int);
    law_rendering_is_a_fixpoint(cs, source, path);
    if again.len() > 0 && daily.len() > 0 {
        document::lemma_coalesced_not_empty(again, again.len() as int);
        assert(w.last() == w[w.len() - 1]);
        assert(daily[0].source is Daily);
    }
    document::lemma_coalesced_apart(again, daily, daily.len() as int);
    let all = again + daily;
    assert(consolidate::whole(all) == w + d);
    lemma_coalesced_source(daily, daily.len() as int);
    lemma_told_apart(w, d, (w + d).len() as int);
    if d.len() == 0 {
        assert(w.take(w.len() as int) =~= w);
    } else {
        assert(d.take(d.len() as int) =~= d);
    }
    let cur = consolidate::curated_only(w + d, (w + d).len() as int);
    assert(cur =~= w);
    consolidate::lemma_distinct_of_distinct(w, w.len() as int);
    assert(w.take(w.len() as int) =~= w);
    let facts = consolidate::daily_of(all);
    lemma_none_promoted(facts, daily_scores, w, facts.len() as int);
    let added = consolidate::added_of(all, daily_scores);
    assert(added.len() == 0);
    assert(w + added =~= w);
    if cs.len() <= 1 {
        lemma_one_chunk_one_section(cs);
    }
    assert(evict ==> !consolidate::over_budget(w, budget));
}

} // verus!
