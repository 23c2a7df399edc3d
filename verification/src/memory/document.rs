//! Markdown files as lists of sections, and what cutting such a file gives.
use vstd::prelude::*;
use crate::lines;
use crate::memory::chunk::{ChunkView, MemorySource};
use crate::memory::chunking;
use crate::memory::coalesce;
use crate::memory::rejoin;
use crate::text;

verus! {

/// Whether lines hold no heading and close every code block that they open.
pub open spec fn quiet(ls: Seq<Seq<char>>) -> bool {
    &&& lines::all_plain(ls)
    &&& forall|i: int| 0 <= i < ls.len() ==> !(#[trigger] chunking::heading_line(ls, i))
    &&& !chunking::in_fence(ls, ls.len() as int)
}

/// Whether a line begins with `#`.
pub open spec fn marks_heading(line: Seq<char>) -> bool {
    text::starts_with(text::trim_start(line), seq!['#'])
}

/// Whether lines are a heading line and lines without one.
pub open spec fn headed(ls: Seq<Seq<char>>) -> bool {
    ls.len() > 0 && lines::plain(ls[0]) && marks_heading(ls[0]) && quiet(ls.skip(1))
}

/// Sections one after the other, with an empty line between.
pub open spec fn document(ss: Seq<Seq<Seq<char>>>) -> Seq<Seq<char>>
    decreases ss.len(),
{
    if ss.len() == 0 {
        Seq::empty()
    } else if ss.len() == 1 {
        ss[0]
    } else {
        document(ss.drop_last()) + seq![Seq::<char>::empty()] + ss.last()
    }
}

/// Where the last section starts.
pub open spec fn last_start(ss: Seq<Seq<Seq<char>>>) -> int {
    if ss.len() <= 1 {
        0
    } else {
        document(ss.drop_last()).len() as int + 1
    }
}

/// Whether every section has a heading, or all but the first, and the first has
/// text.
pub open spec fn well_cut(ss: Seq<Seq<Seq<char>>>) -> bool {
    &&& ss.len() > 0
    &&& headed(ss[0]) || (quiet(ss[0]) && !text::blank(lines::joined(ss[0])))
    &&& forall|i: int| 1 <= i < ss.len() ==> headed(#[trigger] ss[i])
}

/// The line that heads the last section, or -1.
pub open spec fn last_mark(ss: Seq<Seq<Seq<char>>>) -> int {
    if ss.len() <= 1 && !headed(ss[0]) {
        -1
    } else {
        last_start(ss)
    }
}

// ---------------------------------------------------------------------------
// Fences and headings of lines that stand among others
// ---------------------------------------------------------------------------

/// Lines that follow do not change what stands before them.
pub proof fn lemma_before(a: Seq<Seq<char>>, b: Seq<Seq<char>>, n: int)
    requires
        0 <= n <= a.len(),
    ensures
        chunking::in_fence(a + b, n) == chunking::in_fence(a, n),
        chunking::last_heading(a + b, n) == chunking::last_heading(a, n),
    decreases n,
{
    if n > 0 {
        lemma_before(a, b, n - 1);
        assert((a + b)[n - 1] == a[n - 1]);
    }
}

/// Lines that close their code blocks do not change what follows them.
pub proof fn lemma_after(a: Seq<Seq<char>>, b: Seq<Seq<char>>, n: int)
    requires
        0 <= n <= b.len(),
        !chunking::in_fence(a, a.len() as int),
    ensures
        chunking::in_fence(a + b, a.len() + n) == chunking::in_fence(b, n),
    decreases n,
{
    if n > 0 {
        lemma_after(a, b, n - 1);
        assert((a + b)[a.len() + n - 1] == b[n - 1]);
    } else {
        lemma_before(a, b, a.len() as int);
    }
}

/// Two lists of lines without headings are one.
pub proof fn lemma_quiet_concat(a: Seq<Seq<char>>, b: Seq<Seq<char>>)
    requires
        quiet(a),
        quiet(b),
    ensures
        quiet(a + b),
{
    let ab = a + b;
    assert forall|i: int| 0 <= i < ab.len() implies lines::plain(#[trigger] ab[i]) by {
        if i < a.len() {
            assert(ab[i] == a[i]);
        } else {
            assert(ab[i] == b[i - a.len()]);
        }
    }
    assert forall|i: int| 0 <= i < ab.len() implies !(#[trigger] chunking::heading_line(ab, i)) by {
        if i < a.len() {
            lemma_before(a, b, i);
            assert(ab[i] == a[i]);
            assert(!chunking::heading_line(a, i));
        } else {
            lemma_after(a, b, i - a.len());
            assert(ab[i] == b[i - a.len()]);
            assert(!chunking::heading_line(b, i - a.len()));
        }
    }
    lemma_after(a, b, b.len() as int);
}

/// An empty line is no heading.
pub proof fn lemma_quiet_empty_line()
    ensures
        quiet(seq![Seq::<char>::empty()]),
        quiet(Seq::<Seq<char>>::empty()),
{
    let e = seq![Seq::<char>::empty()];
    assert(text::trim_start(Seq::<char>::empty()) =~= Seq::<char>::empty());
    assert(!chunking::fence_line(e[0]));
    assert(!chunking::in_fence(e, 0));
    assert(!chunking::in_fence(e, 1));
    assert forall|i: int| 0 <= i < e.len() implies !(#[trigger] chunking::heading_line(e, i)) by {
        assert(e[i] == Seq::<char>::empty());
    }
}

/// A line that begins with `#` neither opens nor closes a code block.
pub proof fn lemma_mark_is_no_fence(line: Seq<char>)
    requires
        marks_heading(line),
    ensures
        !chunking::fence_line(line),
{
    let t = text::trim_start(line);
    assert(t.take(1)[0] == '#');
    assert(t[0] == '#');
    if text::starts_with(t, seq!['`', '`', '`']) {
        assert(t.take(3)[0] == '`');
    }
    if text::starts_with(t, seq!['~', '~', '~']) {
        assert(t.take(3)[0] == '~');
    }
}

/// The lines of a section with a heading: its first line is its only heading,
/// and it closes its code blocks.
pub proof fn lemma_headed(s: Seq<Seq<char>>)
    requires
        headed(s),
    ensures
        lines::all_plain(s),
        chunking::heading_line(s, 0),
        forall|i: int| 1 <= i < s.len() ==> !(#[trigger] chunking::heading_line(s, i)),
        !chunking::in_fence(s, s.len() as int),
        !text::blank(lines::joined(s)),
{
    let top = s.take(1);
    let rest = s.skip(1);
    assert(s =~= top + rest);
    assert(top[0] == s[0]);
    lemma_mark_is_no_fence(s[0]);
    assert(!chunking::in_fence(top, 0));
    assert(!chunking::in_fence(top, 1));
    assert forall|i: int| 0 <= i < s.len() implies lines::plain(#[trigger] s[i]) by {
        if i > 0 {
            assert(s[i] == rest[i - 1]);
        }
    }
    assert forall|i: int| 1 <= i < s.len() implies !(#[trigger] chunking::heading_line(s, i)) by {
        lemma_after(top, rest, i - 1);
        assert(s[i] == rest[i - 1]);
        assert(!chunking::heading_line(rest, i - 1));
    }
    lemma_after(top, rest, rest.len() as int);
    assert(!text::blank(s[0])) by {
        if text::blank(s[0]) {
            text::lemma_trim_start_empty(s[0]);
        }
    }
    rejoin::lemma_text_shows(s, 0);
}

// ---------------------------------------------------------------------------
// Cutting a document
// ---------------------------------------------------------------------------

/// What is cut from the lines before a place rests on them alone.
pub proof fn lemma_closed_before(
    a: Seq<Seq<char>>,
    b: Seq<Seq<char>>,
    n: int,
    source: MemorySource,
    path: Seq<char>,
)
    requires
        0 <= n <= a.len(),
    ensures
        chunking::closed_chunks(a + b, n, source, path) == chunking::closed_chunks(
            a,
            n,
            source,
            path,
        ),
    decreases n,
{
    if n > 0 {
        lemma_closed_before(a, b, n - 1, source, path);
        lemma_before(a, b, n - 1);
        assert((a + b)[n - 1] == a[n - 1]);
        if chunking::heading_line(a, n - 1) {
            let h = chunking::last_heading(a, n - 1);
            chunking::lemma_last_heading(a, n - 1);
            lemma_section_before(
                a,
                b,
                h,
                n - 1,
                source,
                path,
                chunking::closed_chunks(a, n - 1, source, path).len() as int,
            );
        }
    }
}

proof fn lemma_section_before(
    a: Seq<Seq<char>>,
    b: Seq<Seq<char>>,
    h: int,
    n: int,
    source: MemorySource,
    path: Seq<char>,
    base: int,
)
    requires
        -1 <= h,
        h < n || (h == -1 && n == 0),
        n <= a.len(),
    ensures
        chunking::section_chunks(a + b, h, n, source, path, base) == chunking::section_chunks(
            a,
            h,
            n,
            source,
            path,
            base,
        ),
{
    let s = if h < 0 {
        0
    } else {
        h
    };
    let ab = a + b;
    assert(ab.subrange(s, n) =~= a.subrange(s, n));
    if h >= 0 {
        assert(ab[h] == a[h]);
    }
    let ranges = chunking::section_windows(a, s, n);
    if s < n {
        crate::memory::markdown::law_windows_cover(
            crate::memory::markdown::line_lens(a.subrange(s, n)),
            0,
            crate::memory::markdown::CHUNK_TARGET_BYTES as int,
            crate::memory::markdown::CHUNK_OVERLAP_BYTES as int,
        );
        lemma_windows_before(a, b, h, s, n, ranges, ranges.len() as int, source, path, base);
    }
}

proof fn lemma_windows_before(
    a: Seq<Seq<char>>,
    b: Seq<Seq<char>>,
    h: int,
    s: int,
    n: int,
    ranges: Seq<(int, int)>,
    k: int,
    source: MemorySource,
    path: Seq<char>,
    base: int,
)
    requires
        -1 <= h < n,
        0 <= s <= n <= a.len(),
        0 <= k <= ranges.len(),
        forall|i: int|
            0 <= i < ranges.len() ==> 0 <= (#[trigger] ranges[i]).0 < ranges[i].1 <= n - s,
    ensures
        chunking::window_chunks(a + b, h, s, ranges, k, source, path, base)
            == chunking::window_chunks(a, h, s, ranges, k, source, path, base),
    decreases k,
{
    if k > 0 {
        lemma_windows_before(a, b, h, s, n, ranges, k - 1, source, path, base);
        let ab = a + b;
        let (i, j) = ranges[k - 1];
        assert(0 <= ranges[k - 1].0 < ranges[k - 1].1 <= n - s);
        assert(ab.subrange(s + i, s + j) =~= a.subrange(s + i, s + j));
        if h >= 0 {
            assert(ab[h] == a[h]);
        }
    }
}

/// The chunks of all sections of a document but the last, each section taken
/// with the empty line that follows it.
pub open spec fn earlier_chunks(
    ss: Seq<Seq<Seq<char>>>,
    source: MemorySource,
    path: Seq<char>,
) -> Seq<ChunkView>
    decreases ss.len(),
{
    if ss.len() <= 1 {
        Seq::empty()
    } else {
        let prev = ss.drop_last();
        let done = earlier_chunks(prev, source, path);
        done + chunking::section_chunks(
            document(ss),
            last_mark(prev),
            last_start(ss),
            source,
            path,
            done.len() as int,
        )
    }
}

/// Without a heading among them, more lines end no section.
proof fn lemma_quiet_stretch(
    ls: Seq<Seq<char>>,
    m: int,
    n: int,
    source: MemorySource,
    path: Seq<char>,
)
    requires
        0 <= m <= n <= ls.len(),
        forall|i: int| m <= i < n ==> !(#[trigger] chunking::heading_line(ls, i)),
    ensures
        chunking::closed_chunks(ls, n, source, path) == chunking::closed_chunks(
            ls,
            m,
            source,
            path,
        ),
        chunking::last_heading(ls, n) == chunking::last_heading(ls, m),
    decreases n - m,
{
    if m < n {
        lemma_quiet_stretch(ls, m, n - 1, source, path);
        assert(!chunking::heading_line(ls, n - 1));
    }
}

/// What cutting has found when it comes to the end of a document.
pub proof fn lemma_document(ss: Seq<Seq<Seq<char>>>, source: MemorySource, path: Seq<char>)
    requires
        well_cut(ss),
    ensures
        ({
            let d = document(ss);
            let n = d.len() as int;
            &&& lines::all_plain(d)
            &&& !chunking::in_fence(d, n)
            &&& chunking::last_heading(d, n) == last_mark(ss)
            &&& chunking::closed_chunks(d, n, source, path) == earlier_chunks(ss, source, path)
            &&& d.len() == last_start(ss) + ss.last().len()
            &&& d.subrange(last_start(ss), n) == ss.last()
            &&& ss.last().len() > 0
        }),
    decreases ss.len(),
{
    let d = document(ss);
    let n = d.len() as int;
    let s = ss.last();
    if ss.len() == 1 {
        assert(d.subrange(0, n) =~= s);
        if headed(s) {
            lemma_headed(s);
            assert(chunking::last_heading(d, 0) == -1);
            assert(chunking::last_heading(d, 1) == 0);
            lemma_quiet_stretch(d, 1, n, source, path);
            assert(d.subrange(0, 0) =~= Seq::<Seq<char>>::empty());
            assert(chunking::blank_lines(d, 0, 0));
            assert(chunking::closed_chunks(d, 0, source, path) =~= Seq::<ChunkView>::empty());
            assert(chunking::closed_chunks(d, 1, source, path) =~= Seq::<ChunkView>::empty());
        } else {
            lemma_quiet_stretch(d, 0, n, source, path);
            if s.len() == 0 {
                assert(lines::joined(s) =~= Seq::<char>::empty());
            }
        }
    } else {
        let prev = ss.drop_last();
        assert(prev[0] == ss[0]);
        assert forall|i: int| 1 <= i < prev.len() implies headed(#[trigger] prev[i]) by {
            assert(prev[i] == ss[i]);
        }
        lemma_document(prev, source, path);
        let p = document(prev);
        let gap = seq![Seq::<char>::empty()];
        let front = p + gap;
        assert(headed(s));
        lemma_headed(s);
        lemma_quiet_empty_line();
        assert(d =~= front + s);
        let a = front.len() as int;
        assert(d.subrange(a, n) =~= s);
        assert forall|i: int| 0 <= i < d.len() implies lines::plain(#[trigger] d[i]) by {
            if i < p.len() {
                assert(d[i] == p[i]);
            } else if i >= a {
                assert(d[i] == s[i - a]);
            }
        }
        lemma_after(p, gap, 1);
        assert(!chunking::in_fence(front, a));
        lemma_after(front, s, s.len() as int);
        assert forall|i: int| a < i < n implies !(#[trigger] chunking::heading_line(d, i)) by {
            lemma_after(front, s, i - a);
            assert(d[i] == s[i - a]);
            assert(!chunking::heading_line(s, i - a));
        }
        lemma_after(front, s, 0);
        assert(d[a] == s[0]);
        assert(chunking::heading_line(d, a));
        assert(!chunking::heading_line(d, a - 1)) by {
            assert(d[a - 1] == gap[0]);
            assert(!chunking::heading_line(gap, 0));
        }
        lemma_quiet_stretch(d, a + 1, n, source, path);
        lemma_quiet_stretch(d, a - 1, a, source, path);
        assert(d =~= p + (gap + s));
        lemma_closed_before(p, gap + s, p.len() as int, source, path);
        lemma_before(p, gap + s, p.len() as int);
    }
}

// ---------------------------------------------------------------------------
// Joining the windows of a document
// ---------------------------------------------------------------------------

/// Joining leaves something of what there is.
pub proof fn lemma_coalesced_not_empty(cs: Seq<ChunkView>, n: int)
    requires
        1 <= n <= cs.len(),
    ensures
        coalesce::coalesced(cs, n).len() > 0,
    decreases n,
{
    if n > 1 {
        lemma_coalesced_not_empty(cs, n - 1);
    }
}

/// Chunks that do not go on with those before are joined by themselves.
pub proof fn lemma_coalesced_apart(a: Seq<ChunkView>, b: Seq<ChunkView>, k: int)
    requires
        0 <= k <= b.len(),
        a.len() > 0 && b.len() > 0 ==> !coalesce::window_of(
            coalesce::coalesced(a, a.len() as int).last(),
            b[0],
        ),
    ensures
        coalesce::coalesced(a + b, a.len() + k) == coalesce::coalesced(a, a.len() as int)
            + coalesce::coalesced(b, k),
    decreases k,
{
    let n = a.len() as int;
    if k == 0 {
        rejoin::lemma_coalesced_prefix(a, b, n);
        assert(coalesce::coalesced(a, n) + coalesce::coalesced(b, 0) =~= coalesce::coalesced(a, n));
    } else {
        lemma_coalesced_apart(a, b, k - 1);
        let ja = coalesce::coalesced(a, n);
        let jb = coalesce::coalesced(b, k - 1);
        let c = b[k - 1];
        assert((a + b)[n + k - 1] == c);
        if k == 1 {
            assert(ja + jb =~= ja);
            assert(coalesce::coalesced(b, 1) =~= seq![c]);
            assert(ja.push(c) =~= ja + seq![c]);
        } else {
            lemma_coalesced_not_empty(b, k - 1);
            assert((ja + jb).last() == jb.last());
            if coalesce::window_of(jb.last(), c) {
                let x = coalesce::extended(jb.last(), c);
                assert((ja + jb).update((ja + jb).len() - 1, x) =~= ja + jb.update(
                    jb.len() - 1,
                    x,
                ));
            } else {
                assert((ja + jb).push(c) =~= ja + jb.push(c));
            }
        }
    }
}

/// A section and the empty line that follows it.
pub open spec fn padded(s: Seq<Seq<char>>) -> Seq<Seq<char>> {
    s.push(Seq::<char>::empty())
}

/// The heading of a section.
pub open spec fn heading_of(s: Seq<Seq<char>>) -> Option<Seq<char>> {
    if headed(s) {
        Some(chunking::heading_text(s[0]))
    } else {
        None
    }
}

/// Whether a chunk is a section of a file.
pub open spec fn holds_section(
    c: ChunkView,
    s: Seq<Seq<char>>,
    source: MemorySource,
    path: Seq<char>,
) -> bool {
    &&& c.source == source
    &&& c.path == path
    &&& c.heading == heading_of(s)
    &&& text::trim(c.text) == lines::joined(s)
}

/// Whether every section begins and ends with something other than white space
/// and can be joined again from its windows.
pub open spec fn joinable(ss: Seq<Seq<Seq<char>>>) -> bool {
    forall|i: int|
        0 <= i < ss.len() ==> lines::snug(lines::joined(#[trigger] ss[i])) && rejoin::rejoins(
            if i < ss.len() - 1 {
                padded(ss[i])
            } else {
                ss[i]
            },
        )
}

/// What is joined of a section is the section, but for white space.
proof fn lemma_covered(c: ChunkView, s: Seq<Seq<char>>, block: Seq<Seq<char>>)
    requires
        s.len() > 0,
        lines::snug(lines::joined(s)),
        block == s || block == padded(s),
        rejoin::covers(c, block, block.len() as int),
    ensures
        text::trim(c.text) == lines::joined(s),
{
    let t = lines::joined(s);
    let n = block.len() as int;
    assert(block.take(n) =~= block);
    lines::lemma_trim_snug(t);
    if block == padded(s) {
        assert(block.take(n - 1) =~= s);
        text::lemma_join_push(s, seq!['\n'], Seq::<char>::empty());
        assert(lines::joined(block) =~= t + seq!['\n']);
        lines::lemma_trim_end_padded(t, seq!['\n']);
    } else if s.last().len() == 0 {
        if s.len() == 1 {
            assert(t =~= s[0]);
        } else {
            assert(t == lines::joined(s.drop_last()) + seq!['\n'] + s.last());
            assert(t.last() == '\n');
        }
        assert(false);
    }
}

/// The chunks of the sections of a document but the last, joined.
proof fn lemma_earlier_whole(ss: Seq<Seq<Seq<char>>>, source: MemorySource, path: Seq<char>)
    requires
        well_cut(ss),
        forall|i: int|
            0 <= i < ss.len() - 1 ==> lines::snug(lines::joined(#[trigger] ss[i]))
                && rejoin::rejoins(padded(ss[i])),
    ensures
        ({
            let e = earlier_chunks(ss, source, path);
            let w = coalesce::coalesced(e, e.len() as int);
            &&& w.len() == ss.len() - 1
            &&& forall|i: int| 0 <= i < w.len() ==> holds_section(#[trigger] w[i], ss[i], source, path)
            &&& w.len() > 0 ==> w.last().line_end == last_start(ss)
            &&& ss.len() > 1 ==> e.len() > 0
        }),
    decreases ss.len(),
{
    let e = earlier_chunks(ss, source, path);
    if ss.len() > 1 {
        let prev = ss.drop_last();
        assert(prev[0] == ss[0]);
        assert forall|i: int| 1 <= i < prev.len() implies headed(#[trigger] prev[i]) by {
            assert(prev[i] == ss[i]);
        }
        assert forall|i: int| 0 <= i < prev.len() - 1 implies lines::snug(
            lines::joined(#[trigger] prev[i]),
        ) && rejoin::rejoins(padded(prev[i])) by {
            assert(prev[i] == ss[i]);
        }
        lemma_earlier_whole(prev, source, path);
        lemma_document(prev, source, path);
        lemma_document(ss, source, path);
        let d = document(ss);
        let p = document(prev);
        let s = prev.last();
        assert(s == ss[ss.len() - 2]);
        let h = last_mark(prev);
        let a = last_start(prev);
        let b = last_start(ss);
        let block = d.subrange(a, b);
        assert(block =~= padded(s)) by {
            assert(p.subrange(a, p.len() as int) == s);
            assert forall|i: int| 0 <= i < block.len() implies block[i] == padded(s)[i] by {
                if i < s.len() {
                    assert(d[a + i] == p[a + i]);
                    assert(p.subrange(a, p.len() as int)[i] == p[a + i]);
                }
            }
        }
        assert(lines::all_plain(block)) by {
            assert forall|i: int| 0 <= i < block.len() implies lines::plain(#[trigger] block[i]) by {
                assert(block[i] == d[a + i]);
            }
        }
        assert(!text::blank(lines::joined(s)));
        text::lemma_join_push(s, seq!['\n'], Seq::<char>::empty());
        assert(lines::joined(padded(s)) =~= lines::joined(s) + seq!['\n']);
        assert(!text::blank(lines::joined(padded(s)))) by {
            assert(lines::joined(padded(s))[0] == lines::joined(s)[0]);
        }
        let done = earlier_chunks(prev, source, path);
        let more = chunking::section_chunks(d, h, b, source, path, done.len() as int);
        assert(lines::snug(lines::joined(ss[ss.len() - 2])));
        rejoin::law_a_section_is_whole_again(d, h, b, source, path, done.len() as int);
        let j = coalesce::coalesced(more, more.len() as int);
        lemma_covered(j[0], s, block);
        lemma_coalesced_apart(done, more, more.len() as int);
        let wd = coalesce::coalesced(done, done.len() as int);
        let w = coalesce::coalesced(e, e.len() as int);
        assert(w == wd + j);
        if headed(s) {
            assert(d[a] == s[0]) by {
                assert(block[0] == d[a]);
            }
        }
        assert forall|i: int| 0 <= i < w.len() implies holds_section(
            #[trigger] w[i],
            ss[i],
            source,
            path,
        ) by {
            if i < wd.len() {
                assert(w[i] == wd[i]);
                assert(prev[i] == ss[i]);
            } else {
                assert(w[i] == j[0]);
            }
        }
    }
}

/// Cutting a document and joining windows gives one chunk for each section, in
/// their order.
pub proof fn law_one_chunk_per_section(
    ss: Seq<Seq<Seq<char>>>,
    source: MemorySource,
    path: Seq<char>,
)
    requires
        well_cut(ss),
        joinable(ss),
    ensures
        ({
            let cs = chunking::chunks(document(ss), source, path);
            let w = coalesce::coalesced(cs, cs.len() as int);
            &&& w.len() == ss.len()
            &&& forall|i: int| 0 <= i < w.len() ==> holds_section(#[trigger] w[i], ss[i], source, path)
        }),
{
    assert forall|i: int| 0 <= i < ss.len() - 1 implies lines::snug(
        lines::joined(#[trigger] ss[i]),
    ) && rejoin::rejoins(padded(ss[i])) by {
    }
    lemma_document(ss, source, path);
    lemma_earlier_whole(ss, source, path);
    let d = document(ss);
    let n = d.len() as int;
    let s = ss.last();
    assert(s == ss[ss.len() - 1]);
    let h = last_mark(ss);
    let a = last_start(ss);
    let done = earlier_chunks(ss, source, path);
    let more = chunking::section_chunks(d, h, n, source, path, done.len() as int);
    assert(lines::snug(lines::joined(ss[ss.len() - 1])));
    assert(lines::all_plain(d.subrange(a, n))) by {
        assert forall|i: int| 0 <= i < s.len() implies lines::plain(
            #[trigger] d.subrange(a, n)[i],
        ) by {
            assert(d.subrange(a, n)[i] == d[a + i]);
        }
    }
    assert(!text::blank(lines::joined(s)));
    rejoin::law_a_section_is_whole_again(d, h, n, source, path, done.len() as int);
    let j = coalesce::coalesced(more, more.len() as int);
    lemma_covered(j[0], s, d.subrange(a, n));
    lemma_coalesced_apart(done, more, more.len() as int);
    let wd = coalesce::coalesced(done, done.len() as int);
    let cs = chunking::chunks(d, source, path);
    assert(cs == done + more);
    let w = coalesce::coalesced(cs, cs.len() as int);
    if headed(s) {
        assert(d.subrange(a, n)[0] == d[a]);
    }
    assert forall|i: int| 0 <= i < w.len() implies holds_section(
        #[trigger] w[i],
        ss[i],
        source,
        path,
    ) by {
        if i < wd.len() {
            assert(w[i] == wd[i]);
        } else {
            assert(w[i] == j[0]);
        }
    }
}

} // verus!
