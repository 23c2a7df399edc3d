//! Nothing that a memory file says is lost when it is cut into chunks, rendered or
//! edited.
use vstd::prelude::*;
use vstd::string::*;
use crate::memory::chunk::{ChunkView, MemorySource};
use crate::memory::chunking;
use crate::memory::edit;
use crate::memory::markdown;
use crate::memory::render;
use crate::memory::strata;
use crate::memory::strata::Stratum;
use crate::text;

verus! {

// ---------------------------------------------------------------------------
// Chunks
// ---------------------------------------------------------------------------

/// Whether a chunk has a line of the file, counted from 0, among those that it gives
/// as its span.
pub open spec fn spans(c: ChunkView, i: int) -> bool {
    c.line_start <= i + 1 <= c.line_end
}

/// Every line with text stands in a chunk of its file.
pub proof fn law_every_line_with_text_is_in_a_chunk(
    ls: Seq<Seq<char>>,
    source: MemorySource,
    path: Seq<char>,
    i: int,
)
    requires
        0 <= i < ls.len(),
        !text::blank(ls[i]),
    ensures
        exists|k: int|
            0 <= k < chunking::chunks(ls, source, path).len() && spans(
                #[trigger] chunking::chunks(ls, source, path)[k],
                i,
            ),
{
    let n = ls.len() as int;
    let cs = chunking::chunks(ls, source, path);
    let closed = chunking::closed_chunks(ls, n, source, path);
    let h = chunking::last_heading(ls, n);
    chunking::lemma_last_heading(ls, n);
    let a = start_of(h);
    if i < a {
        lemma_closed_covers(ls, n, source, path, i);
        let k = choose|k: int| 0 <= k < closed.len() && spans(#[trigger] closed[k], i);
        assert(cs[k] == closed[k]);
    } else {
        let more = chunking::section_chunks(ls, h, n, source, path, closed.len() as int);
        lemma_section_covers(ls, h, n, source, path, closed.len() as int, i);
        let k = choose|k: int| 0 <= k < more.len() && spans(#[trigger] more[k], i);
        assert(cs[closed.len() + k] == more[k]);
    }
}

/// Where the section of a heading line starts.
pub open spec fn start_of(h: int) -> int {
    if h < 0 {
        0
    } else {
        h
    }
}

proof fn lemma_closed_covers(
    ls: Seq<Seq<char>>,
    n: int,
    source: MemorySource,
    path: Seq<char>,
    i: int,
)
    requires
        0 <= n <= ls.len(),
        0 <= i < start_of(chunking::last_heading(ls, n)),
        !text::blank(ls[i]),
    ensures
        exists|k: int|
            0 <= k < chunking::closed_chunks(ls, n, source, path).len() && spans(
                #[trigger] chunking::closed_chunks(ls, n, source, path)[k],
                i,
            ),
    decreases n,
{
    if n > 0 {
        let prev = chunking::closed_chunks(ls, n - 1, source, path);
        let out = chunking::closed_chunks(ls, n, source, path);
        let h = chunking::last_heading(ls, n - 1);
        chunking::lemma_last_heading(ls, n - 1);
        if chunking::heading_line(ls, n - 1) {
            if i < start_of(h) {
                lemma_closed_covers(ls, n - 1, source, path, i);
                let k = choose|k: int| 0 <= k < prev.len() && spans(#[trigger] prev[k], i);
                assert(out[k] == prev[k]);
            } else {
                let base = prev.len() as int;
                let more = chunking::section_chunks(ls, h, n - 1, source, path, base);
                lemma_section_covers(ls, h, n - 1, source, path, base, i);
                let k = choose|k: int| 0 <= k < more.len() && spans(#[trigger] more[k], i);
                assert(out[base + k] == more[k]);
            }
        } else {
            lemma_closed_covers(ls, n - 1, source, path, i);
        }
    }
}

proof fn lemma_section_covers(
    ls: Seq<Seq<char>>,
    h: int,
    b: int,
    source: MemorySource,
    path: Seq<char>,
    base: int,
    i: int,
)
    requires
        -1 <= h,
        start_of(h) <= i < b <= ls.len(),
        !text::blank(ls[i]),
    ensures
        exists|k: int|
            0 <= k < chunking::section_chunks(ls, h, b, source, path, base).len() && spans(
                #[trigger] chunking::section_chunks(ls, h, b, source, path, base)[k],
                i,
            ),
{
    let a = start_of(h);
    let cs = chunking::section_chunks(ls, h, b, source, path, base);
    lemma_text_is_not_blank(ls.subrange(a, b), i - a);
    if text::utf8_len(chunking::lines_text(ls, a, b)) <= markdown::CHUNK_TARGET_BYTES {
        assert(spans(cs[0], i));
    } else {
        let block = ls.subrange(a, b);
        let lens = markdown::line_lens(block);
        let ws = chunking::section_windows(ls, a, b);
        markdown::law_windows_cover(
            lens,
            0,
            markdown::CHUNK_TARGET_BYTES as int,
            markdown::CHUNK_OVERLAP_BYTES as int,
        );
        lemma_in_a_window(ws, lens.len() as int, i - a, ws.len() as int);
        let w = choose|w: int| 0 <= w < ws.len() && (#[trigger] ws[w]).0 <= i - a < ws[w].1;
        lemma_text_is_not_blank(ls.subrange(a + ws[w].0, a + ws[w].1), i - a - ws[w].0);
        lemma_window_gives_a_chunk(ls, h, a, ws, ws.len() as int, source, path, base, w);
        let k = choose|k: int|
            0 <= k < cs.len() && (#[trigger] cs[k]).line_start == a + ws[w].0 + 1 && cs[k].line_end
                == a + ws[w].1;
        assert(spans(cs[k], i));
    }
}

proof fn lemma_window_gives_a_chunk(
    ls: Seq<Seq<char>>,
    h: int,
    a: int,
    ws: Seq<(int, int)>,
    n: int,
    source: MemorySource,
    path: Seq<char>,
    base: int,
    w: int,
)
    requires
        0 <= w < n <= ws.len(),
        !chunking::blank_lines(ls, a + ws[w].0, a + ws[w].1),
    ensures
        ({
            let cs = chunking::window_chunks(ls, h, a, ws, n, source, path, base);
            exists|k: int|
                0 <= k < cs.len() && (#[trigger] cs[k]).line_start == a + ws[w].0 + 1
                    && cs[k].line_end == a + ws[w].1
        }),
    decreases n,
{
    let cs = chunking::window_chunks(ls, h, a, ws, n, source, path, base);
    let prev = chunking::window_chunks(ls, h, a, ws, n - 1, source, path, base);
    if w < n - 1 {
        lemma_window_gives_a_chunk(ls, h, a, ws, n - 1, source, path, base, w);
        let k = choose|k: int|
            0 <= k < prev.len() && (#[trigger] prev[k]).line_start == a + ws[w].0 + 1
                && prev[k].line_end == a + ws[w].1;
        assert(cs[k] == prev[k]);
    } else {
        assert(cs[prev.len() as int].line_start == a + ws[w].0 + 1);
    }
}

/// Windows that start at the first line, end behind the last and leave no gap have
/// every line.
proof fn lemma_in_a_window(ws: Seq<(int, int)>, len: int, k: int, n: int)
    requires
        0 < n <= ws.len(),
        ws[0].0 == 0,
        forall|i: int, j: int|
            0 <= i < ws.len() && j == i + 1 && j < ws.len() ==> (#[trigger] ws[j]).0 <= (
            #[trigger] ws[i]).1,
        0 <= k < ws[n - 1].1,
    ensures
        exists|w: int| 0 <= w < ws.len() && (#[trigger] ws[w]).0 <= k < ws[w].1,
    decreases n,
{
    if k < ws[n - 1].0 {
        assert(n > 1);
        assert(ws[n - 1].0 <= ws[n - 2].1);
        lemma_in_a_window(ws, len, k, n - 1);
    } else {
        assert(ws[n - 1].0 <= k < ws[n - 1].1);
    }
}

/// Lines of which one has text have text.
proof fn lemma_text_is_not_blank(ls: Seq<Seq<char>>, i: int)
    requires
        0 <= i < ls.len(),
        !text::blank(ls[i]),
    ensures
        !text::blank(text::join(ls, seq!['\n'])),
{
    lemma_part_is_in_join(ls, seq!['\n'], i);
    let t = text::join(ls, seq!['\n']);
    let at = choose|at: int| text::stands_at(t, ls[i], at);
    let k = choose|k: int| 0 <= k < ls[i].len() && !text::is_space(#[trigger] ls[i][k]);
    assert(t.subrange(at, at + ls[i].len())[k] == t[at + k]);
}

/// A chunk stands in one section: no line behind its first is a heading, and its
/// heading is that of the last heading line up to its first line.
pub proof fn law_a_chunk_stands_in_one_section(
    ls: Seq<Seq<char>>,
    source: MemorySource,
    path: Seq<char>,
    k: int,
)
    requires
        0 <= k < chunking::chunks(ls, source, path).len(),
    ensures
        ({
            let c = chunking::chunks(ls, source, path)[k];
            in_one_section(ls, c)
        }),
{
    let n = ls.len() as int;
    let closed = chunking::closed_chunks(ls, n, source, path);
    let h = chunking::last_heading(ls, n);
    chunking::lemma_last_heading(ls, n);
    lemma_closed_sections(ls, n, source, path);
    lemma_no_heading_after(ls, n);
    lemma_one_section(ls, h, n, source, path, closed.len() as int);
    let more = chunking::section_chunks(ls, h, n, source, path, closed.len() as int);
    if k >= closed.len() {
        assert(chunking::chunks(ls, source, path)[k] == more[k - closed.len()]);
    } else {
        assert(chunking::chunks(ls, source, path)[k] == closed[k]);
    }
}

/// Whether no line of a chunk behind its first is a heading, and its heading is that of
/// the last heading line up to its first line.
pub open spec fn in_one_section(ls: Seq<Seq<char>>, c: ChunkView) -> bool {
    &&& forall|i: int| c.line_start <= i < c.line_end ==> !#[trigger] chunking::heading_line(ls, i)
    &&& c.heading is None ==> forall|i: int|
        0 <= i < c.line_end ==> !#[trigger] chunking::heading_line(ls, i)
    &&& c.heading is Some ==> exists|h: int|
        0 <= h < c.line_start && #[trigger] chunking::heading_line(ls, h) && c.heading == Some(
            chunking::heading_text(ls[h]),
        ) && forall|i: int| h < i < c.line_end ==> !#[trigger] chunking::heading_line(ls, i)
}

proof fn lemma_no_heading_after(ls: Seq<Seq<char>>, n: int)
    requires
        0 <= n <= ls.len(),
    ensures
        forall|i: int|
            chunking::last_heading(ls, n) < i < n && 0 <= i ==> !#[trigger] chunking::heading_line(
                ls,
                i,
            ),
    decreases n,
{
    if n > 0 && !chunking::heading_line(ls, n - 1) {
        lemma_no_heading_after(ls, n - 1);
    }
}

proof fn lemma_closed_sections(ls: Seq<Seq<char>>, n: int, source: MemorySource, path: Seq<char>)
    requires
        0 <= n <= ls.len(),
    ensures
        forall|k: int|
            0 <= k < chunking::closed_chunks(ls, n, source, path).len() ==> in_one_section(
                ls,
                #[trigger] chunking::closed_chunks(ls, n, source, path)[k],
            ),
    decreases n,
{
    if n > 0 {
        lemma_closed_sections(ls, n - 1, source, path);
        let prev = chunking::closed_chunks(ls, n - 1, source, path);
        let out = chunking::closed_chunks(ls, n, source, path);
        if chunking::heading_line(ls, n - 1) {
            let h = chunking::last_heading(ls, n - 1);
            chunking::lemma_last_heading(ls, n - 1);
            lemma_no_heading_after(ls, n - 1);
            let base = prev.len() as int;
            lemma_one_section(ls, h, n - 1, source, path, base);
            let more = chunking::section_chunks(ls, h, n - 1, source, path, base);
            assert forall|k: int| 0 <= k < out.len() implies in_one_section(
                ls,
                #[trigger] out[k],
            ) by {
                if k < base {
                    assert(out[k] == prev[k]);
                } else {
                    assert(out[k] == more[k - base]);
                }
            }
        }
    }
}

proof fn lemma_one_section(
    ls: Seq<Seq<char>>,
    h: int,
    b: int,
    source: MemorySource,
    path: Seq<char>,
    base: int,
)
    requires
        -1 <= h,
        start_of(h) <= b <= ls.len(),
        h >= 0 ==> h < b && chunking::heading_line(ls, h),
        forall|i: int| h < i < b && 0 <= i ==> !#[trigger] chunking::heading_line(ls, i),
    ensures
        forall|k: int|
            0 <= k < chunking::section_chunks(ls, h, b, source, path, base).len() ==> in_one_section(
                ls,
                #[trigger] chunking::section_chunks(ls, h, b, source, path, base)[k],
            ),
{
    let a = start_of(h);
    let cs = chunking::section_chunks(ls, h, b, source, path, base);
    if chunking::blank_lines(ls, a, b) {
    } else if text::utf8_len(chunking::lines_text(ls, a, b)) <= markdown::CHUNK_TARGET_BYTES {
        lemma_span_section(ls, h, a, b, cs[0]);
    } else {
        let block = ls.subrange(a, b);
        let lens = markdown::line_lens(block);
        let ws = chunking::section_windows(ls, a, b);
        if lens.len() == 0 {
            assert(block =~= Seq::empty());
            assert(text::join(block, seq!['\n']) =~= Seq::<char>::empty());
        }
        markdown::law_windows_cover(
            lens,
            0,
            markdown::CHUNK_TARGET_BYTES as int,
            markdown::CHUNK_OVERLAP_BYTES as int,
        );
        lemma_window_sections(ls, h, a, b, ws, ws.len() as int, source, path, base);
    }
}

proof fn lemma_span_section(ls: Seq<Seq<char>>, h: int, i: int, j: int, c: ChunkView)
    requires
        -1 <= h,
        start_of(h) <= i <= j <= ls.len(),
        h >= 0 ==> chunking::heading_line(ls, h),
        forall|k: int| h < k < j && 0 <= k ==> !#[trigger] chunking::heading_line(ls, k),
        c.line_start == i + 1,
        c.line_end == j,
        c.heading == chunking::section_heading(ls, h),
    ensures
        in_one_section(ls, c),
{
    if h >= 0 {
        assert(chunking::heading_line(ls, h));
    }
}

proof fn lemma_window_sections(
    ls: Seq<Seq<char>>,
    h: int,
    a: int,
    b: int,
    ws: Seq<(int, int)>,
    n: int,
    source: MemorySource,
    path: Seq<char>,
    base: int,
)
    requires
        -1 <= h,
        a == start_of(h),
        a <= b <= ls.len(),
        h >= 0 ==> chunking::heading_line(ls, h),
        forall|k: int| h < k < b && 0 <= k ==> !#[trigger] chunking::heading_line(ls, k),
        0 <= n <= ws.len(),
        forall|i: int| 0 <= i < ws.len() ==> 0 <= (#[trigger] ws[i]).0 < ws[i].1 <= b - a,
    ensures
        ({
            let cs = chunking::window_chunks(ls, h, a, ws, n, source, path, base);
            forall|k: int| 0 <= k < cs.len() ==> in_one_section(ls, #[trigger] cs[k])
        }),
    decreases n,
{
    if n > 0 {
        lemma_window_sections(ls, h, a, b, ws, n - 1, source, path, base);
        let prev = chunking::window_chunks(ls, h, a, ws, n - 1, source, path, base);
        let (s, e) = ws[n - 1];
        let c = chunking::span_chunk(ls, h, a + s, a + e, source, path, base + prev.len());
        lemma_span_section(ls, h, a + s, a + e, c);
    }
}

/// A section of no more than two kibibytes is one chunk of all its lines; only a longer
/// one is cut.
pub proof fn law_a_small_section_is_one_chunk(
    ls: Seq<Seq<char>>,
    h: int,
    b: int,
    source: MemorySource,
    path: Seq<char>,
    base: int,
)
    requires
        -1 <= h,
        start_of(h) <= b <= ls.len(),
        !text::blank(text::join(ls.subrange(start_of(h), b), seq!['\n'])),
        text::utf8_len(text::join(ls.subrange(start_of(h), b), seq!['\n'])) <= 2048,
    ensures
        ({
            let cs = chunking::section_chunks(ls, h, b, source, path, base);
            &&& cs.len() == 1
            &&& cs[0].text == text::join(ls.subrange(start_of(h), b), seq!['\n'])
            &&& cs[0].line_start == start_of(h) + 1 && cs[0].line_end == b
        }),
{
}

/// A line is a heading where it begins with `#` outside of code, and says what follows
/// the `#`s; a line of three backticks or tildes turns code on and off.
pub proof fn law_headings_are_marked_outside_of_code(ls: Seq<Seq<char>>, i: int)
    requires
        0 <= i < ls.len(),
    ensures
        ({
            let t = text::trim_start(ls[i]);
            let fence = text::starts_with(t, seq!['`', '`', '`']) || text::starts_with(
                t,
                seq!['~', '~', '~'],
            );
            &&& chunking::heading_line(ls, i) <==> t.len() > 0 && t[0] == '#'
                && !chunking::in_fence(ls, i)
            &&& fence ==> chunking::in_fence(ls, i + 1) == !chunking::in_fence(ls, i)
            &&& !fence ==> chunking::in_fence(ls, i + 1) == chunking::in_fence(ls, i)
            &&& !chunking::in_fence(ls, 0)
        }),
{
    let t = text::trim_start(ls[i]);
    if t.len() > 0 {
        assert(t.take(1) =~= seq![t[0]]);
        if t[0] == '#' {
            if t.len() >= 3 {
                assert(t.take(3)[0] == t[0]);
            }
        } else {
            assert(t.take(1)[0] != '#');
        }
    }
}

/// A window of lines is full: the next line would not fit. The window that follows
/// starts as far back as it takes to share the overlap, but past the start of the one
/// before, and no farther.
pub proof fn law_windows_are_full_and_share_what_they_should(
    lens: Seq<nat>,
    start: int,
    target: int,
    overlap: int,
)
    requires
        0 <= start < lens.len(),
    ensures
        forall|i: int, j: int|
            #![trigger markdown::windows(lens, start, target, overlap)[i], markdown::windows(lens, start, target, overlap)[j]]
            0 <= i && j == i + 1 && j < markdown::windows(lens, start, target, overlap).len()
                ==> follows_full(
                lens,
                markdown::windows(lens, start, target, overlap)[i],
                markdown::windows(lens, start, target, overlap)[j],
                target,
                overlap,
            ),
    decreases lens.len() - start,
{
    let w = markdown::windows(lens, start, target, overlap);
    let end = markdown::window_end(lens, start, start, target);
    markdown::lemma_window_end(lens, start, start, target);
    lemma_window_full(lens, start, start, target);
    if end < lens.len() {
        let next = markdown::window_back(lens, start, end, end, overlap);
        markdown::lemma_window_back(lens, start, end, end, overlap);
        lemma_window_shares(lens, start, end, end, overlap);
        law_windows_are_full_and_share_what_they_should(lens, next, target, overlap);
        markdown::law_windows_cover(lens, next, target, overlap);
        let rest = markdown::windows(lens, next, target, overlap);
        assert(w == seq![(start, end)] + rest);
        assert forall|i: int, j: int|
            #![trigger w[i], w[j]]
            0 <= i && j == i + 1 && j < w.len() implies follows_full(
            lens,
            w[i],
            w[j],
            target,
            overlap,
        ) by {
            assert(w[j] == rest[j - 1]);
            if i > 0 {
                assert(w[i] == rest[i - 1]);
            }
        }
    }
}

/// Whether a window is full, and the next one shares with it what it should.
pub open spec fn follows_full(
    lens: Seq<nat>,
    a: (int, int),
    b: (int, int),
    target: int,
    overlap: int,
) -> bool {
    &&& markdown::span_len(lens, a.0, a.1 + 1) > target
    &&& b.0 == a.0 + 1 || markdown::span_len(lens, b.0, a.1) >= overlap
    &&& b.0 < a.1 ==> markdown::span_len(lens, b.0 + 1, a.1) < overlap
}

proof fn lemma_window_full(lens: Seq<nat>, start: int, end: int, target: int)
    requires
        0 <= start <= end <= lens.len(),
        start < lens.len(),
    ensures
        ({
            let e = markdown::window_end(lens, start, end, target);
            start < e < lens.len() ==> markdown::span_len(lens, start, e + 1) > target
        }),
    decreases lens.len() - end,
{
    if end < lens.len() && (end == start || markdown::span_len(lens, start, end + 1) <= target) {
        lemma_window_full(lens, start, end + 1, target);
    }
}

proof fn lemma_window_shares(lens: Seq<nat>, start: int, back: int, end: int, overlap: int)
    requires
        0 <= start < back <= end <= lens.len(),
        back < end ==> markdown::span_len(lens, back + 1, end) < overlap,
    ensures
        ({
            let b = markdown::window_back(lens, start, back, end, overlap);
            &&& b == start + 1 || markdown::span_len(lens, b, end) >= overlap
            &&& b < end ==> markdown::span_len(lens, b + 1, end) < overlap
        }),
    decreases back,
{
    if back > start + 1 && markdown::span_len(lens, back, end) < overlap {
        lemma_window_shares(lens, start, back - 1, end, overlap);
    }
}

// ---------------------------------------------------------------------------
// Rendering
// ---------------------------------------------------------------------------

/// Joined parts hold each of the parts.
proof fn lemma_part_is_in_join(parts: Seq<Seq<char>>, sep: Seq<char>, i: int)
    requires
        0 <= i < parts.len(),
    ensures
        text::contains_text(text::join(parts, sep), parts[i]),
    decreases parts.len(),
{
    let t = text::join(parts, sep);
    let last = parts.last();
    if parts.len() == 1 {
        assert(t.subrange(0, t.len() as int) =~= t);
        assert(text::stands_at(t, parts[i], 0));
    } else if i == parts.len() - 1 {
        let n = t.len() - last.len();
        assert(t.subrange(n, n + last.len()) =~= last);
        assert(text::stands_at(t, parts[i], n as int));
    } else {
        let front = parts.drop_last();
        lemma_part_is_in_join(front, sep, i);
        let u = text::join(front, sep);
        let at = choose|at: int| text::stands_at(u, front[i], at);
        assert(t.subrange(at, at + parts[i].len()) =~= u.subrange(at, at + parts[i].len()));
        assert(text::stands_at(t, parts[i], at));
    }
}

/// A text that is in a part of a text is in the text.
proof fn lemma_within(s: Seq<char>, d: Seq<char>, t: Seq<char>)
    requires
        text::contains_text(s, d),
        text::contains_text(d, t),
    ensures
        text::contains_text(s, t),
{
    let i = choose|i: int| text::stands_at(s, d, i);
    let n = choose|n: int| text::stands_at(d, t, n);
    assert(s.subrange(i + n, i + n + t.len()) =~= s.subrange(i, i + d.len()).subrange(
        n,
        n + t.len(),
    ));
    assert(text::stands_at(s, t, i + n));
}

/// The rendered file holds the body of every chunk, whatever it stands under.
pub proof fn law_the_rendered_file_holds_every_body(cs: Seq<ChunkView>, i: int)
    requires
        0 <= i < cs.len(),
        render::body(cs[i]).len() > 0,
    ensures
        text::contains_text(render::rendered(cs), render::body(cs[i])),
{
    let n = cs.len() as int;
    let b = render::body(cs[i]);
    let t = render::sections(cs);
    let out = text::join(t, seq!['\n', '\n']);
    let a0 = render::preamble_section(cs);
    let a1 = render::stratum_section(cs, Stratum::Identity);
    let a2 = render::stratum_section(cs, Stratum::Patterns);
    let a3 = render::stratum_section(cs, Stratum::Focus);
    let hs = render::other_headings(cs, n);
    let a4 = render::other_sections(cs, hs.len() as int);
    lemma_gathered(cs, n, i);
    lemma_other_len(cs, hs.len() as int);
    if cs[i].heading is None {
        let bs = render::preamble(cs, n);
        let k = choose|k: int| 0 <= k < bs.len() && bs[k] == b;
        lemma_part_is_in_join(bs, seq!['\n', '\n'], k);
        let p = text::join(bs, seq!['\n', '\n']);
        let at = choose|at: int| text::stands_at(p, b, at);
        assert(p.len() > 0);
        assert(t[0] == p);
        lemma_part_is_in_join(t, seq!['\n', '\n'], 0);
        lemma_within(out, p, b);
    } else if render::freeform(cs[i]) {
        let h = cs[i].heading->0;
        lemma_listed(cs, n, i);
        let k = choose|k: int| 0 <= k < hs.len() && (#[trigger] hs[k]).0 == h;
        let bs = render::heading_bodies(cs, n, h);
        lemma_section_holds(hs[k].1, bs, b);
        let x = a0.len() + a1.len() + a2.len() + a3.len() + k;
        assert(t[x] == a4[k]);
        lemma_part_is_in_join(t, seq!['\n', '\n'], x);
        lemma_within(out, t[x], b);
    } else {
        let s = strata::stratum_of(cs[i].heading->0)->0;
        assert(render::under_stratum(cs[i], s));
        assert(render::has_stratum(cs, n, s));
        let bs = render::stratum_bodies(cs, n, s);
        lemma_section_holds(strata::stratum_line(s), bs, b);
        let x: int = match s {
            Stratum::Identity => a0.len() as int,
            Stratum::Patterns => a0.len() as int + a1.len(),
            Stratum::Focus => a0.len() as int + a1.len() + a2.len(),
        };
        assert(t[x] == render::section(strata::stratum_line(s), bs));
        lemma_part_is_in_join(t, seq!['\n', '\n'], x);
        lemma_within(out, t[x], b);
    }
    let file = render::rendered(cs);
    let at = choose|at: int| text::stands_at(out, b, at);
    assert(out.len() > 0);
    assert(file.subrange(at, at + b.len()) =~= out.subrange(at, at + b.len()));
    assert(text::stands_at(file, b, at));
}

proof fn lemma_other_len(cs: Seq<ChunkView>, k: int)
    requires
        0 <= k <= render::other_headings(cs, cs.len() as int).len(),
    ensures
        ({
            let hs = render::other_headings(cs, cs.len() as int);
            let o = render::other_sections(cs, k);
            &&& o.len() == k
            &&& forall|i: int|
                0 <= i < k ==> #[trigger] o[i] == render::section(
                    hs[i].1,
                    render::heading_bodies(cs, cs.len() as int, hs[i].0),
                )
        }),
    decreases k,
{
    if k > 0 {
        lemma_other_len(cs, k - 1);
    }
}

proof fn lemma_section_holds(line: Seq<char>, bs: Seq<Seq<char>>, b: Seq<char>)
    requires
        bs.contains(b),
        b.len() > 0,
    ensures
        text::contains_text(render::section(line, bs), b),
{
    let k = choose|k: int| 0 <= k < bs.len() && bs[k] == b;
    lemma_part_is_in_join(bs, seq!['\n'], k);
    let j = text::join(bs, seq!['\n']);
    let at = choose|at: int| text::stands_at(j, b, at);
    assert(j.len() > 0);
    let s = render::section(line, bs);
    let n = line.len() as int + 1 + at;
    assert(s.subrange(n, n + b.len()) =~= j.subrange(at, at + b.len()));
    assert(text::stands_at(s, b, n));
}

proof fn lemma_listed(cs: Seq<ChunkView>, n: int, i: int)
    requires
        0 <= i < n <= cs.len(),
        render::freeform(cs[i]),
    ensures
        render::listed(render::other_headings(cs, n), cs[i].heading->0),
    decreases n,
{
    let prev = render::other_headings(cs, n - 1);
    let out = render::other_headings(cs, n);
    if i < n - 1 {
        lemma_listed(cs, n - 1, i);
        let k = choose|k: int| 0 <= k < prev.len() && (#[trigger] prev[k]).0 == cs[i].heading->0;
        assert(out[k] == prev[k]);
    } else if !render::listed(prev, cs[i].heading->0) {
        assert(out[prev.len() as int].0 == cs[i].heading->0);
    }
}

proof fn lemma_gathered(cs: Seq<ChunkView>, n: int, i: int)
    requires
        0 <= i < n <= cs.len(),
        render::body(cs[i]).len() > 0,
    ensures
        cs[i].heading is None ==> render::preamble(cs, n).contains(render::body(cs[i])),
        forall|s: Stratum|
            render::under_stratum(cs[i], s) ==> (#[trigger] render::stratum_bodies(
                cs,
                n,
                s,
            )).contains(render::body(cs[i])),
        render::freeform(cs[i]) ==> render::heading_bodies(cs, n, cs[i].heading->0).contains(
            render::body(cs[i]),
        ),
    decreases n,
{
    let b = render::body(cs[i]);
    if i < n - 1 {
        lemma_gathered(cs, n - 1, i);
    }
    if cs[i].heading is None {
        let prev = render::preamble(cs, n - 1);
        let out = render::preamble(cs, n);
        if i < n - 1 {
            let k = choose|k: int| 0 <= k < prev.len() && prev[k] == b;
            assert(out[k] == b);
        } else {
            assert(out[prev.len() as int] == b);
        }
    }
    assert forall|s: Stratum| render::under_stratum(cs[i], s) implies (
    #[trigger] render::stratum_bodies(cs, n, s)).contains(b) by {
        let prev = render::stratum_bodies(cs, n - 1, s);
        let out = render::stratum_bodies(cs, n, s);
        if i < n - 1 {
            assert(prev.contains(b));
            let k = choose|k: int| 0 <= k < prev.len() && prev[k] == b;
            assert(out[k] == b);
        } else {
            assert(out[prev.len() as int] == b);
        }
    }
    if render::freeform(cs[i]) {
        let h = cs[i].heading->0;
        let prev = render::heading_bodies(cs, n - 1, h);
        let out = render::heading_bodies(cs, n, h);
        if i < n - 1 {
            let k = choose|k: int| 0 <= k < prev.len() && prev[k] == b;
            assert(out[k] == b);
        } else {
            assert(out[prev.len() as int] == b);
        }
    }
}

/// The body of a chunk is its text without white space at its ends, and without its
/// heading line where it opens with it.
pub proof fn law_the_body_is_the_text_without_its_heading(
    c: ChunkView,
    line: Seq<char>,
    rest: Seq<char>,
)
    requires
        forall|i: int| 0 <= i < line.len() ==> #[trigger] line[i] != '\n',
    ensures
        c.heading is None ==> render::body(c) == text::trim(c.text),
        c.heading is Some && text::trim(c.text) == line + seq!['\n'] + rest
            && render::names_heading(line, c.heading->0) ==> render::body(c) == text::trim(rest),
        c.heading is Some && text::trim(c.text) == line + seq!['\n'] + rest
            && !render::names_heading(line, c.heading->0) ==> render::body(c) == text::trim(c.text),
        c.heading is Some && text::trim(c.text) == line && !render::names_heading(
            line,
            c.heading->0,
        ) ==> render::body(c) == text::trim(c.text),
{
    let t = text::trim(c.text);
    let n = text::find_char(t, '\n', 0);
    text::lemma_find_char(t, '\n', 0);
    if t == line + seq!['\n'] + rest {
        assert(t[line.len() as int] == '\n');
        if n < line.len() {
            assert(t[n] == line[n]);
        }
        assert(n == line.len());
        assert(t.take(n) =~= line);
        assert(t.skip(n + 1) =~= rest);
    } else if t == line {
        if n < t.len() {
            assert(t[n] == line[n]);
        }
        assert(t.take(n) =~= line);
    }
}

/// The sections come in a fixed order: what stands under no heading, the strata by who,
/// how and what, and the other headings as they first came.
pub proof fn law_sections_come_in_their_order(cs: Seq<ChunkView>)
    ensures
        ({
            let n = cs.len() as int;
            let p = text::join(render::preamble(cs, n), seq!['\n', '\n']);
            let one = |s: Stratum|
                if exists|i: int| 0 <= i < n && render::under_stratum(#[trigger] cs[i], s) {
                    seq![
                        render::section(strata::stratum_line(s), render::stratum_bodies(cs, n, s)),
                    ]
                } else {
                    Seq::<Seq<char>>::empty()
                };
            let others = render::other_sections(cs, render::other_headings(cs, n).len() as int);
            &&& p.len() > 0 ==> render::sections(cs) == seq![p] + one(Stratum::Identity) + one(
                Stratum::Patterns,
            ) + one(Stratum::Focus) + others
            &&& p.len() == 0 ==> render::sections(cs) == one(Stratum::Identity) + one(
                Stratum::Patterns,
            ) + one(Stratum::Focus) + others
        }),
{
    let n = cs.len() as int;
    let p = text::join(render::preamble(cs, n), seq!['\n', '\n']);
    let a1 = render::stratum_section(cs, Stratum::Identity);
    let a2 = render::stratum_section(cs, Stratum::Patterns);
    let a3 = render::stratum_section(cs, Stratum::Focus);
    let others = render::other_sections(cs, render::other_headings(cs, n).len() as int);
    if p.len() == 0 {
        assert(render::sections(cs) =~= a1 + a2 + a3 + others);
    } else {
        assert(render::sections(cs) =~= seq![p] + a1 + a2 + a3 + others);
    }
}

/// A heading names a stratum where it is the stratum's, but for white space around it.
pub proof fn law_a_heading_names_its_stratum(heading: Seq<char>)
    ensures
        text::trim(heading) == "Identity"@ ==> strata::stratum_of(heading) == Some(
            Stratum::Identity,
        ),
        text::trim(heading) == "Patterns"@ ==> strata::stratum_of(heading) == Some(
            Stratum::Patterns,
        ),
        text::trim(heading) == "Focus"@ ==> strata::stratum_of(heading) == Some(Stratum::Focus),
        strata::stratum_of(heading) is None <==> text::trim(heading) != "Identity"@ && text::trim(
            heading,
        ) != "Patterns"@ && text::trim(heading) != "Focus"@,
{
    reveal_strlit("## Identity");
    reveal_strlit("## Patterns");
    reveal_strlit("## Focus");
    reveal_strlit("Identity");
    reveal_strlit("Patterns");
    reveal_strlit("Focus");
    let head = seq!['#', '#', ' '];
    let t = text::trim(heading);
    assert(head + "Identity"@ =~= "## Identity"@);
    assert(head + "Patterns"@ =~= "## Patterns"@);
    assert(head + "Focus"@ =~= "## Focus"@);
    assert((head + t).skip(3) =~= t);
    assert("## Identity"@.skip(3) =~= "Identity"@);
    assert("## Patterns"@.skip(3) =~= "Patterns"@);
    assert("## Focus"@.skip(3) =~= "Focus"@);
    assert("Identity"@[0] == 'I' && "Patterns"@[0] == 'P' && "Focus"@[0] == 'F');
}

// ---------------------------------------------------------------------------
// Edits
// ---------------------------------------------------------------------------

/// A text that is put under a heading that the file lacks goes to the end of the file
/// under that heading, behind all that the file says.
pub proof fn law_a_new_section_goes_to_the_end(
    content: Seq<char>,
    heading: Seq<char>,
    added: Seq<char>,
)
    requires
        forall|i: int|
            0 <= i < text::lines(content).len() ==> text::trim_end(
                #[trigger] text::lines(content)[i],
            ) != heading,
    ensures
        ({
            let base = text::trim_end(content);
            let tail = heading + seq!['\n'] + text::trim_end(added) + seq!['\n'];
            let out = edit::inserted(content, heading, added);
            &&& base.len() == 0 ==> out == tail
            &&& base.len() > 0 ==> out == base + seq!['\n', '\n'] + tail
        }),
{
    let ls = text::lines(content);
    lemma_no_heading(ls, 0, heading);
    let base = text::trim_end(content);
    let tail = heading + seq!['\n'] + text::trim_end(added) + seq!['\n'];
    let out = edit::inserted(content, heading, added);
    if base.len() == 0 {
        assert(out =~= tail);
    } else {
        assert(out =~= base + seq!['\n', '\n'] + tail);
    }
}

proof fn lemma_no_heading(ls: Seq<Seq<char>>, from: int, heading: Seq<char>)
    requires
        0 <= from <= ls.len(),
        forall|i: int| 0 <= i < ls.len() ==> text::trim_end(#[trigger] ls[i]) != heading,
    ensures
        edit::find_heading(ls, from, heading) == ls.len(),
    decreases ls.len() - from,
{
    if from < ls.len() {
        lemma_no_heading(ls, from + 1, heading);
    }
}

/// Text that is put under a heading goes to the end of the section that the first such
/// heading opens, before the blank lines at its end; an empty line parts it from the
/// section that follows, and all other lines stay.
pub proof fn law_added_text_ends_its_section(
    content: Seq<char>,
    heading: Seq<char>,
    added: Seq<char>,
    h: int,
    b: int,
    e: int,
)
    requires
        ({
            let ls = text::lines(content);
            &&& 0 <= h < b <= e <= ls.len()
            &&& text::trim_end(ls[h]) == heading
            &&& forall|i: int| 0 <= i < h ==> text::trim_end(#[trigger] ls[i]) != heading
            &&& forall|i: int|
                h < i < e ==> !text::starts_with(#[trigger] ls[i], seq!['#', '#', ' '])
            &&& e < ls.len() ==> text::starts_with(ls[e], seq!['#', '#', ' '])
            &&& forall|i: int| b <= i < e ==> text::blank(#[trigger] ls[i])
            &&& b == h + 1 || !text::blank(ls[b - 1])
        }),
    ensures
        ({
            let ls = text::lines(content);
            let out = ls.take(b) + seq![text::trim_end(added)] + (if e < ls.len() {
                seq![Seq::<char>::empty()] + ls.skip(e)
            } else {
                Seq::empty()
            });
            edit::inserted(content, heading, added) == text::join(out, seq!['\n']) + seq!['\n']
        }),
{
    let ls = text::lines(content);
    lemma_first_heading(ls, 0, heading, h);
    lemma_first_section(ls, h + 1, e);
    lemma_last_of_body(ls, h, b, e);
    let t = text::trim_end(added);
    let out = ls.take(b) + seq![t] + (if e < ls.len() {
        seq![Seq::<char>::empty()] + ls.skip(e)
    } else {
        Seq::empty()
    });
    assert(edit::with_added(ls, h, t) =~= out);
}

proof fn lemma_first_heading(ls: Seq<Seq<char>>, from: int, heading: Seq<char>, h: int)
    requires
        0 <= from <= h < ls.len(),
        text::trim_end(ls[h]) == heading,
        forall|i: int| from <= i < h ==> text::trim_end(#[trigger] ls[i]) != heading,
    ensures
        edit::find_heading(ls, from, heading) == h,
    decreases h - from,
{
    if from < h {
        lemma_first_heading(ls, from + 1, heading, h);
    }
}

proof fn lemma_first_section(ls: Seq<Seq<char>>, from: int, e: int)
    requires
        0 <= from <= e <= ls.len(),
        forall|i: int| from <= i < e ==> !text::starts_with(#[trigger] ls[i], seq!['#', '#', ' ']),
        e < ls.len() ==> text::starts_with(ls[e], seq!['#', '#', ' ']),
    ensures
        edit::next_section(ls, from) == e,
    decreases e - from,
{
    if from < e {
        lemma_first_section(ls, from + 1, e);
    }
}

proof fn lemma_last_of_body(ls: Seq<Seq<char>>, h: int, b: int, e: int)
    requires
        0 <= h < b <= e <= ls.len(),
        forall|i: int| b <= i < e ==> text::blank(#[trigger] ls[i]),
        b == h + 1 || !text::blank(ls[b - 1]),
    ensures
        edit::body_end(ls, h, e) == b,
    decreases e,
{
    if e > b {
        lemma_last_of_body(ls, h, b, e - 1);
    }
}

/// What is appended to a log starts on a line of its own, is not changed but for the
/// white space at its end, and ends with a line feed.
pub proof fn law_a_log_takes_the_text_on_lines_of_its_own(existing: Seq<char>, added: Seq<char>)
    ensures
        existing.len() == 0 || existing.last() == '\n' ==> edit::appended(existing, added)
            == text::trim_end(added) + seq!['\n'],
        existing.len() > 0 && existing.last() != '\n' ==> edit::appended(existing, added) == seq![
            '\n',
        ] + text::trim_end(added) + seq!['\n'],
{
    if existing.len() == 0 || existing.last() == '\n' {
        assert(edit::appended(existing, added) =~= text::trim_end(added) + seq!['\n']);
    }
}

/// The strata go by three names of their own.
pub proof fn law_each_stratum_has_its_name(s: Stratum)
    ensures
        s is Identity <==> strata::stratum_name(s) == "identity"@,
        s is Patterns <==> strata::stratum_name(s) == "patterns"@,
        s is Focus <==> strata::stratum_name(s) == "focus"@,
{
    reveal_strlit("identity");
    reveal_strlit("patterns");
    reveal_strlit("focus");
    assert("identity"@[0] == 'i' && "patterns"@[0] == 'p' && "focus"@[0] == 'f');
}

/// The heading of a line is what follows its hashes, without white space at its ends.
pub proof fn law_a_heading_is_what_follows_its_hashes(hashes: Seq<char>, rest: Seq<char>)
    requires
        hashes.len() > 0,
        forall|i: int| 0 <= i < hashes.len() ==> #[trigger] hashes[i] == '#',
        rest.len() > 0 ==> rest[0] != '#',
    ensures
        chunking::heading_text(hashes + rest) == text::trim(rest),
{
    let s = hashes + rest;
    assert(s[0] == '#');
    assert(text::trim_start(s) == s);
    lemma_hashes_go(hashes, rest);
}

proof fn lemma_hashes_go(hashes: Seq<char>, rest: Seq<char>)
    requires
        forall|i: int| 0 <= i < hashes.len() ==> #[trigger] hashes[i] == '#',
        rest.len() > 0 ==> rest[0] != '#',
    ensures
        text::trim_start_char(hashes + rest, '#') == rest,
    decreases hashes.len(),
{
    let s = hashes + rest;
    if hashes.len() > 0 {
        let fewer = hashes.skip(1);
        assert forall|i: int| 0 <= i < fewer.len() implies #[trigger] fewer[i] == '#' by {
            assert(fewer[i] == hashes[i + 1]);
        }
        lemma_hashes_go(fewer, rest);
        assert(s[0] == hashes[0]);
        assert(s.skip(1) =~= fewer + rest);
    } else {
        assert(s =~= rest);
    }
}

/// The length of a stretch of lines is that of their text with a line feed at its end.
pub proof fn law_a_stretch_is_as_long_as_its_text(ls: Seq<Seq<char>>, i: int, j: int)
    requires
        0 <= i <= j <= ls.len(),
    ensures
        i == j ==> markdown::span_len(markdown::line_lens(ls), i, j) == 0,
        i < j ==> markdown::span_len(markdown::line_lens(ls), i, j) == text::utf8_len(
            text::join(ls.subrange(i, j), seq!['\n']),
        ) + 1,
    decreases j - i,
{
    if i < j {
        law_a_stretch_is_as_long_as_its_text(ls, i, j - 1);
        let sep = seq!['\n'];
        let front = ls.subrange(i, j - 1);
        let all = ls.subrange(i, j);
        assert(all =~= front.push(ls[j - 1]));
        assert(markdown::line_lens(ls)[j - 1] == text::utf8_len(ls[j - 1]));
        text::lemma_join_push(front, sep, ls[j - 1]);
        if front.len() > 0 {
            let a = text::join(front, sep);
            text::lemma_utf8_len_concat(a, sep);
            text::lemma_utf8_len_concat(a + sep, ls[j - 1]);
            reveal_with_fuel(text::utf8_len, 2);
            assert(sep.skip(1).len() == 0);
            assert(text::utf8_len(sep) == 1);
        }
    }
}

/// A section that is too large for one chunk is cut into windows that one line more would
/// take beyond 2048 bytes, and that share no more lines than it takes to reach 307.
pub proof fn law_a_large_section_is_cut_into_full_windows(ls: Seq<Seq<char>>, a: int, b: int)
    requires
        0 <= a < b <= ls.len(),
    ensures
        ({
            let w = chunking::section_windows(ls, a, b);
            let lens = markdown::line_lens(ls.subrange(a, b));
            &&& w == markdown::windows(lens, 0, 2048, 307)
            &&& w.len() > 0 && w[0].0 == 0
            &&& forall|i: int, j: int|
                #![trigger w[i], w[j]]
                0 <= i && j == i + 1 && j < w.len() ==> follows_full(lens, w[i], w[j], 2048, 307)
        }),
{
    let lens = markdown::line_lens(ls.subrange(a, b));
    law_windows_are_full_and_share_what_they_should(lens, 0, 2048, 307);
    let w = chunking::section_windows(ls, a, b);
    assert forall|i: int, j: int|
        #![trigger w[i], w[j]]
        0 <= i && j == i + 1 && j < w.len() implies follows_full(
        lens,
        w[i],
        w[j],
        2048,
        307,
    ) by {
        assert(w[i] == markdown::windows(lens, 0, 2048, 307)[i]);
        assert(w[j] == markdown::windows(lens, 0, 2048, 307)[j]);
    }
}

/// A chunk more is written behind what its section holds, where its body is not empty,
/// and touches no other section.
pub proof fn law_a_chunk_is_written_in_its_section(cs: Seq<ChunkView>, c: ChunkView, s: Stratum, h: Seq<char>)
    requires
        strata::stratum_of(h) is None,
    ensures
        ({
            let n = cs.len() as int;
            let all = cs.push(c);
            let said = render::body(c).len() > 0;
            let before = render::preamble(cs, n);
            let under = render::stratum_bodies(cs, n, s);
            let other = render::heading_bodies(cs, n, h);
            &&& render::preamble(all, n + 1) == (if c.heading is None && said {
                before.push(render::body(c))
            } else {
                before
            })
            &&& render::stratum_bodies(all, n + 1, s) == (if c.heading is Some
                && strata::stratum_of(c.heading->0) == Some(s) && said {
                under.push(render::body(c))
            } else {
                under
            })
            &&& render::heading_bodies(all, n + 1, h) == (if c.heading == Some(h) && said {
                other.push(render::body(c))
            } else {
                other
            })
        }),
{
    let n = cs.len() as int;
    lemma_earlier_sections(cs, c, s, h, n);
    assert(cs.push(c)[n] == c);
}

proof fn lemma_earlier_sections(cs: Seq<ChunkView>, c: ChunkView, s: Stratum, h: Seq<char>, n: int)
    requires
        0 <= n <= cs.len(),
    ensures
        render::preamble(cs.push(c), n) == render::preamble(cs, n),
        render::stratum_bodies(cs.push(c), n, s) == render::stratum_bodies(cs, n, s),
        render::heading_bodies(cs.push(c), n, h) == render::heading_bodies(cs, n, h),
        render::other_headings(cs.push(c), n) == render::other_headings(cs, n),
    decreases n,
{
    if n > 0 {
        lemma_earlier_sections(cs, c, s, h, n - 1);
        assert(cs.push(c)[n - 1] == cs[n - 1]);
    }
}

/// A heading of no stratum opens a section of its own when it first comes, under the
/// first line of the text that it comes with, and none when it comes again.
pub proof fn law_a_heading_opens_one_section(cs: Seq<ChunkView>, c: ChunkView)
    ensures
        ({
            let n = cs.len() as int;
            let before = render::other_headings(cs, n);
            let after = render::other_headings(cs.push(c), n + 1);
            let free = c.heading is Some && strata::stratum_of(c.heading->0) is None;
            let known = exists|i: int|
                0 <= i < before.len() && (#[trigger] before[i]).0 == c.heading->0;
            let ls = text::lines(text::trim(c.text));
            &&& !free || known ==> after == before
            &&& free && !known ==> after.len() == before.len() + 1 && after.drop_last() == before
                && after.last().0 == c.heading->0
            &&& free && !known && ls.len() > 0 ==> after.last().1 == text::trim(ls[0])
            &&& free && !known && ls.len() == 0 ==> after.last().1.len() == 0
        }),
{
    let n = cs.len() as int;
    lemma_earlier_sections(cs, c, Stratum::Focus, Seq::empty(), n);
    assert(cs.push(c)[n] == c);
    let before = render::other_headings(cs, n);
    let after = render::other_headings(cs.push(c), n + 1);
    if after != before {
        assert(after.drop_last() =~= before);
    }
}

/// Each section of a heading stands under its line, with the bodies of the heading behind
/// it one by one, and the sections stand in the order of the headings.
pub proof fn law_each_heading_has_its_section(cs: Seq<ChunkView>, k: int)
    requires
        0 <= k < render::other_headings(cs, cs.len() as int).len(),
    ensures
        ({
            let n = cs.len() as int;
            let hs = render::other_headings(cs, n);
            let secs = render::other_sections(cs, hs.len() as int);
            let said = text::join(render::heading_bodies(cs, n, hs[k].0), seq!['\n']);
            &&& secs.len() == hs.len()
            &&& said.len() == 0 ==> secs[k] == hs[k].1
            &&& said.len() > 0 ==> secs[k] == hs[k].1 + seq!['\n'] + said
        }),
{
    lemma_section_at(cs, k, render::other_headings(cs, cs.len() as int).len() as int);
}

proof fn lemma_section_at(cs: Seq<ChunkView>, k: int, m: int)
    requires
        0 <= m <= render::other_headings(cs, cs.len() as int).len(),
    ensures
        render::other_sections(cs, m).len() == m,
        0 <= k < m ==> render::other_sections(cs, m)[k] == render::section(
            render::other_headings(cs, cs.len() as int)[k].1,
            render::heading_bodies(
                cs,
                cs.len() as int,
                render::other_headings(cs, cs.len() as int)[k].0,
            ),
        ),
    decreases m,
{
    if m > 0 {
        lemma_section_at(cs, k, m - 1);
    }
}

/// A rendered file is its sections with an empty line between each two, and ends with a
/// line feed; without a section it is empty.
pub proof fn law_a_file_is_its_sections(cs: Seq<ChunkView>)
    ensures
        ({
            let t = text::join(render::sections(cs), seq!['\n', '\n']);
            &&& t.len() > 0 ==> render::rendered(cs) == t + seq!['\n']
            &&& t.len() == 0 ==> render::rendered(cs).len() == 0
        }),
{
}

} // verus!
