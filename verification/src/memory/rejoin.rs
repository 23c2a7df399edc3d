//! The windows that a section is cut into, joined again.
use vstd::prelude::*;
use crate::lines;
use crate::memory::chunk::{ChunkView, MemorySource};
use crate::memory::chunking;
use crate::memory::coalesce;
use crate::memory::markdown;
use crate::memory::markdown::{CHUNK_OVERLAP_BYTES, CHUNK_TARGET_BYTES};
use crate::text;

verus! {

/// The windows of the lines of a section.
pub open spec fn section_ranges(block: Seq<Seq<char>>) -> Seq<(int, int)> {
    markdown::windows(
        markdown::line_lens(block),
        0,
        CHUNK_TARGET_BYTES as int,
        CHUNK_OVERLAP_BYTES as int,
    )
}

/// Whether the windows of a section can be joined without loss: each has text,
/// shares a line with the next, and none but the first and the last brings in an
/// empty line as its last one.
pub open spec fn ranges_rejoin(block: Seq<Seq<char>>, ws: Seq<(int, int)>) -> bool {
    &&& forall|k: int|
        0 <= k < ws.len() ==> !chunking::blank_lines(block, (#[trigger] ws[k]).0, ws[k].1)
    &&& forall|k: int, j: int|
        0 <= k < ws.len() && j == k + 1 && j < ws.len() ==> (#[trigger] ws[j]).0 < (
        #[trigger] ws[k]).1
    &&& forall|k: int, i: int|
        0 < k < ws.len() - 1 && i == k - 1 && (#[trigger] ws[i]).1 < (#[trigger] ws[k]).1
            ==> block[ws[k].1 - 1].len() > 0
}

/// Whether a section is one chunk, or can be joined again from its windows.
pub open spec fn rejoins(block: Seq<Seq<char>>) -> bool {
    text::utf8_len(lines::joined(block)) <= CHUNK_TARGET_BYTES || ranges_rejoin(
        block,
        section_ranges(block),
    )
}

/// What has been joined of the first `e` lines: all of them, or all but an empty
/// last one.
pub open spec fn covers(c: ChunkView, block: Seq<Seq<char>>, e: int) -> bool {
    ||| c.text == lines::joined(block.take(e))
    ||| block[e - 1].len() == 0 && c.text == lines::joined(block.take(e - 1))
}

/// The chunk that a section is, apart from its text.
pub open spec fn stands_for(
    c: ChunkView,
    ls: Seq<Seq<char>>,
    h: int,
    a: int,
    b: int,
    source: MemorySource,
    path: Seq<char>,
    base: int,
) -> bool {
    &&& c.id == base
    &&& c.source == source
    &&& c.path == path
    &&& c.heading == chunking::section_heading(ls, h)
    &&& c.line_start == a + 1
    &&& c.line_end == b
}

/// Joining looks at the chunks before a place only.
pub proof fn lemma_coalesced_prefix(cs: Seq<ChunkView>, more: Seq<ChunkView>, n: int)
    requires
        0 <= n <= cs.len(),
    ensures
        coalesce::coalesced(cs + more, n) == coalesce::coalesced(cs, n),
    decreases n,
{
    if n > 0 {
        lemma_coalesced_prefix(cs, more, n - 1);
        assert((cs + more)[n - 1] == cs[n - 1]);
    }
}

/// The lines of a text of plain lines are those lines, without an empty last
/// one.
proof fn lemma_lines_without_last(x: Seq<Seq<char>>)
    requires
        lines::all_plain(x),
        x.len() > 0,
    ensures
        text::lines(lines::joined(x)) == (if x.last().len() == 0 {
            x.drop_last()
        } else {
            x
        }),
{
    if x.last().len() == 0 {
        let y = x.drop_last();
        assert(lines::all_plain(y)) by {
            assert forall|i: int| 0 <= i < y.len() implies lines::plain(#[trigger] y[i]) by {
                assert(y[i] == x[i]);
            }
        }
        if y.len() == 0 {
            assert(lines::joined(x) =~= Seq::<char>::empty());
            assert(y =~= Seq::<Seq<char>>::empty());
        } else {
            lines::lemma_lines_of_joined(y);
            assert(lines::joined(x) =~= lines::joined(y) + seq!['\n']);
        }
    } else {
        lines::lemma_lines_of_joined(x);
    }
}

/// One more window adds the lines that it does not share.
proof fn lemma_one_more(
    block: Seq<Seq<char>>,
    last: ChunkView,
    c: ChunkView,
    a: int,
    s: int,
    e0: int,
    e: int,
)
    requires
        lines::all_plain(block),
        0 <= s < e0 <= e <= block.len(),
        last.text == lines::joined(block.take(e0)),
        last.line_end == a + e0,
        c.text == lines::joined(block.subrange(s, e)),
        c.line_start == a + s + 1,
        c.line_end == a + e,
    ensures
        covers(coalesce::extended(last, c), block, e),
        block[e - 1].len() > 0 || e == e0 ==> coalesce::extended(last, c).text == lines::joined(
            block.take(e),
        ),
        coalesce::extended(last, c).line_end == a + e,
{
    let x = block.subrange(s, e);
    assert(lines::all_plain(x)) by {
        assert forall|i: int| 0 <= i < x.len() implies lines::plain(#[trigger] x[i]) by {
            assert(x[i] == block[s + i]);
        }
    }
    assert(x.last() == block[e - 1]);
    lemma_lines_without_last(x);
    let l = text::lines(c.text);
    let skip = e0 - s;
    let f = if block[e - 1].len() == 0 {
        e - 1
    } else {
        e
    };
    assert(l =~= block.subrange(s, f));
    if skip < l.len() {
        let tail = l.skip(skip);
        assert(tail =~= block.subrange(e0, f));
        assert(block.take(e0) + block.subrange(e0, f) =~= block.take(f));
        lines::lemma_join_concat(block.take(e0), block.subrange(e0, f), seq!['\n']);
    } else {
        assert(coalesce::new_lines(last, c).len() == 0);
        assert(e0 >= f);
        if e0 == e {
        } else {
            assert(f == e - 1 && e0 == e - 1);
        }
    }
}

/// The windows of a section up to the `k`th, joined.
proof fn lemma_windows_join(
    ls: Seq<Seq<char>>,
    h: int,
    a: int,
    b: int,
    source: MemorySource,
    path: Seq<char>,
    base: int,
    k: int,
)
    requires
        0 <= a < b <= ls.len(),
        lines::all_plain(ls.subrange(a, b)),
        ranges_rejoin(ls.subrange(a, b), section_ranges(ls.subrange(a, b))),
        1 <= k <= section_ranges(ls.subrange(a, b)).len(),
    ensures
        ({
            let block = ls.subrange(a, b);
            let ws = section_ranges(block);
            let w = chunking::window_chunks(ls, h, a, ws, k, source, path, base);
            let j = coalesce::coalesced(w, k);
            &&& w.len() == k
            &&& j.len() == 1
            &&& stands_for(j[0], ls, h, a, a + ws[k - 1].1, source, path, base)
            &&& covers(j[0], block, ws[k - 1].1)
            &&& k < ws.len() ==> j[0].text == lines::joined(block.take(ws[k - 1].1))
        }),
    decreases k,
{
    let block = ls.subrange(a, b);
    let lens = markdown::line_lens(block);
    let ws = section_ranges(block);
    markdown::law_windows_cover(lens, 0, CHUNK_TARGET_BYTES as int, CHUNK_OVERLAP_BYTES as int);
    markdown::law_windows_end_in_order(
        lens,
        0,
        CHUNK_TARGET_BYTES as int,
        CHUNK_OVERLAP_BYTES as int,
    );
    let prev = chunking::window_chunks(ls, h, a, ws, k - 1, source, path, base);
    let w = chunking::window_chunks(ls, h, a, ws, k, source, path, base);
    let (s, e) = ws[k - 1];
    assert(ls.subrange(a + s, a + e) =~= block.subrange(s, e));
    assert(!chunking::blank_lines(block, ws[k - 1].0, ws[k - 1].1));
    let c = chunking::span_chunk(ls, h, a + s, a + e, source, path, base + prev.len());
    assert(w == prev.push(c));
    assert(prev.push(c) =~= prev + seq![c]);
    lemma_coalesced_prefix(prev, seq![c], prev.len() as int);
    if k == 1 {
        assert(prev.len() == 0);
        assert(ws[0].0 == 0);
        assert(coalesce::coalesced(w, 0) =~= Seq::<ChunkView>::empty());
        assert(coalesce::coalesced(w, 1) =~= seq![c]);
        assert(block.subrange(0, e) =~= block.take(e));
    } else {
        lemma_windows_join(ls, h, a, b, source, path, base, k - 1);
        let j = coalesce::coalesced(prev, k - 1);
        let last = j[0];
        let e0 = ws[k - 2].1;
        assert(ws[k - 1].0 < ws[k - 2].1);
        assert(ws[k - 2].1 <= ws[k - 1].1);
        assert(coalesce::window_of(last, c));
        lemma_one_more(block, last, c, a, s, e0, e);
        assert(coalesce::coalesced(w, k) =~= seq![coalesce::extended(last, c)]);
    }
}

/// A section is one chunk, of all its lines but for an empty last one, once its
/// windows are joined.
pub proof fn law_a_section_is_whole_again(
    ls: Seq<Seq<char>>,
    h: int,
    b: int,
    source: MemorySource,
    path: Seq<char>,
    base: int,
)
    requires
        -1 <= h < b <= ls.len(),
        ({
            let a = if h < 0 {
                0
            } else {
                h
            };
            &&& lines::all_plain(ls.subrange(a, b))
            &&& !chunking::blank_lines(ls, a, b)
            &&& rejoins(ls.subrange(a, b))
        }),
    ensures
        ({
            let a = if h < 0 {
                0
            } else {
                h
            };
            let cs = chunking::section_chunks(ls, h, b, source, path, base);
            let j = coalesce::coalesced(cs, cs.len() as int);
            &&& cs.len() > 0
            &&& j.len() == 1
            &&& stands_for(j[0], ls, h, a, b, source, path, base)
            &&& covers(j[0], ls.subrange(a, b), b - a)
            &&& cs[0].line_start == a + 1
        }),
{
    let a = if h < 0 {
        0
    } else {
        h
    };
    let block = ls.subrange(a, b);
    let cs = chunking::section_chunks(ls, h, b, source, path, base);
    assert(block.take(b - a) =~= block);
    if a == b {
        assert(block =~= Seq::<Seq<char>>::empty());
        assert(false);
    }
    if text::utf8_len(chunking::lines_text(ls, a, b)) <= CHUNK_TARGET_BYTES {
        let c = chunking::span_chunk(ls, h, a, b, source, path, base);
        assert(coalesce::coalesced(cs, 0) =~= Seq::<ChunkView>::empty());
        assert(coalesce::coalesced(cs, 1) =~= seq![c]);
    } else {
        let lens = markdown::line_lens(block);
        let ws = section_ranges(block);
        assert(ws == chunking::section_windows(ls, a, b));
        markdown::law_windows_cover(lens, 0, CHUNK_TARGET_BYTES as int, CHUNK_OVERLAP_BYTES as int);
        lemma_windows_join(ls, h, a, b, source, path, base, ws.len() as int);
        assert(ls.subrange(a + ws[0].0, a + ws[0].1) =~= block.subrange(ws[0].0, ws[0].1));
        assert(!chunking::blank_lines(block, ws[0].0, ws[0].1));
        lemma_first_window(ls, h, a, ws, ws.len() as int, source, path, base);
    }
}

proof fn lemma_first_window(
    ls: Seq<Seq<char>>,
    h: int,
    a: int,
    ws: Seq<(int, int)>,
    n: int,
    source: MemorySource,
    path: Seq<char>,
    base: int,
)
    requires
        1 <= n <= ws.len(),
        !chunking::blank_lines(ls, a + ws[0].0, a + ws[0].1),
    ensures
        ({
            let cs = chunking::window_chunks(ls, h, a, ws, n, source, path, base);
            cs.len() > 0 && cs[0].line_start == a + ws[0].0 + 1
        }),
    decreases n,
{
    if n > 1 {
        lemma_first_window(ls, h, a, ws, n - 1, source, path, base);
    } else {
        assert(chunking::window_chunks(ls, h, a, ws, 0, source, path, base) =~= Seq::<
            ChunkView,
        >::empty());
    }
}

/// A section of short lines, none of them blank, is whole again once its windows
/// are joined: lines of fewer than half the bytes of a window are short.
pub proof fn law_short_lines_rejoin(block: Seq<Seq<char>>)
    requires
        block.len() > 0,
        forall|i: int|
            0 <= i < block.len() ==> text::utf8_len(#[trigger] block[i]) < CHUNK_TARGET_BYTES / 2,
        forall|i: int| 0 <= i < block.len() - 1 ==> !text::blank(#[trigger] block[i]),
    ensures
        rejoins(block),
{
    let lens = markdown::line_lens(block);
    let ws = section_ranges(block);
    let t = CHUNK_TARGET_BYTES as int;
    let o = CHUNK_OVERLAP_BYTES as int;
    markdown::law_windows_cover(lens, 0, t, o);
    markdown::law_windows_end_in_order(lens, 0, t, o);
    assert forall|i: int, j: int|
        0 <= i < lens.len() && j == i + 1 && j < lens.len() implies #[trigger] lens[i]
        + #[trigger] lens[j] + 2 <= t by {
        assert(lens[i] == text::utf8_len(block[i]));
        assert(lens[j] == text::utf8_len(block[j]));
    }
    markdown::law_windows_overlap(lens, 0, t, o);
    if text::utf8_len(lines::joined(block)) > CHUNK_TARGET_BYTES {
        markdown::law_only_the_last_window_ends_the_lines(lens, 0, t, o);
        if block.len() == 1 {
            assert(lines::joined(block) =~= block[0]);
        }
        assert forall|k: int| 0 <= k < ws.len() implies !chunking::blank_lines(
            block,
            (#[trigger] ws[k]).0,
            ws[k].1,
        ) by {
            let x = block.subrange(ws[k].0, ws[k].1);
            if k > 0 {
                assert(ws[k - 1].1 < lens.len());
                assert(ws[k].0 < ws[k - 1].1);
            }
            assert(x[0] == block[ws[k].0]);
            lemma_text_shows(x, 0);
        }
        assert forall|k: int, i: int|
            0 < k < ws.len() - 1 && i == k - 1 && (#[trigger] ws[i]).1 < (
            #[trigger] ws[k]).1 implies block[ws[k].1 - 1].len() > 0 by {
            assert(ws[k].1 < lens.len());
            assert(!text::blank(block[ws[k].1 - 1]));
        }
    }
}

/// A text with a line that is not blank is not blank.
pub proof fn lemma_text_shows(x: Seq<Seq<char>>, i: int)
    requires
        0 <= i < x.len(),
        !text::blank(x[i]),
    ensures
        !text::blank(lines::joined(x)),
    decreases x.len(),
{
    let t = lines::joined(x);
    if x.len() > 1 {
        let less = lines::joined(x.drop_last());
        assert(t == less + seq!['\n'] + x.last());
        if i == x.len() - 1 {
            let k = choose|k: int| 0 <= k < x[i].len() && !text::is_space(#[trigger] x[i][k]);
            assert(t[less.len() + 1 + k] == x[i][k]);
        } else {
            assert(x.drop_last()[i] == x[i]);
            lemma_text_shows(x.drop_last(), i);
            let k = choose|k: int| 0 <= k < less.len() && !text::is_space(#[trigger] less[k]);
            assert(t[k] == less[k]);
        }
    }
}

} // verus!
