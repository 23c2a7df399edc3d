//! Files of small sections: their chunks need no joining, and what is rendered of
//! them stays as it is.
use vstd::prelude::*;
use crate::lines;
use crate::memory::chunk::{ChunkView, MemorySource};
use crate::memory::chunking;
use crate::memory::coalesce;
use crate::memory::document;
use crate::memory::fixpoint;
use crate::memory::markdown::CHUNK_TARGET_BYTES;
use crate::memory::rejoin;
use crate::memory::render;
use crate::memory::tidiness;
use crate::text;

verus! {

/// Whether every section of a file, from its heading line to the next, is small
/// enough to be one chunk.
pub open spec fn sections_fit(ls: Seq<Seq<char>>) -> bool {
    forall|n: int|
        0 <= n <= ls.len() && (n == ls.len() || chunking::heading_line(ls, n)) ==> text::utf8_len(
            chunking::lines_text(ls, #[trigger] tidiness::section_start(ls, n), n),
        ) <= CHUNK_TARGET_BYTES
}

/// A file without a line that opens or closes a code block leaves none open.
pub proof fn law_no_code_block_is_left_open(ls: Seq<Seq<char>>, n: int)
    requires
        0 <= n <= ls.len(),
        forall|i: int| 0 <= i < ls.len() ==> !chunking::fence_line(#[trigger] ls[i]),
    ensures
        !chunking::in_fence(ls, n),
    decreases n,
{
    if n > 0 {
        law_no_code_block_is_left_open(ls, n - 1);
    }
}

/// What is rendered of a file's chunks is rendered the same from the chunks that it
/// is cut into in turn, of which no two stand under one heading, and it is empty or
/// ends with a single line feed. It holds of files that close their code blocks,
/// have no carriage return at the end of a line, and whose sections fit a chunk,
/// before and after.
pub proof fn law_rendering_small_sections_is_a_fixpoint(
    raw: Seq<char>,
    source: MemorySource,
    path: Seq<char>,
)
    requires
        lines::all_plain(text::lines(raw)),
        !chunking::in_fence(text::lines(raw), text::lines(raw).len() as int),
        sections_fit(text::lines(raw)),
        sections_fit(
            text::lines(render::rendered(chunking::chunks(text::lines(raw), source, path))),
        ),
    ensures
        ({
            let out = render::rendered(chunking::chunks(text::lines(raw), source, path));
            let again = chunking::chunks(text::lines(out), source, path);
            &&& render::rendered(again) == out
            &&& fixpoint::told_apart(again)
            &&& out.len() == 0 || fixpoint::ends_with_one_feed(out)
        }),
{
    let ls = text::lines(raw);
    let cs = chunking::chunks(ls, source, path);
    let out = render::rendered(cs);
    assert(tidiness::ordinary(ls)) by {
        assert forall|n: int|
            0 <= n <= ls.len() && (n == ls.len() || chunking::heading_line(
                ls,
                n,
            )) implies rejoin::rejoins(
            ls.subrange(#[trigger] tidiness::section_start(ls, n), n),
        ) by {}
    }
    tidiness::law_chunks_of_an_ordinary_file_are_proper(ls, source, path);
    law_small_sections_need_no_joining(ls, source, path);
    let t = render::sections(cs);
    if t.len() > 0 {
        fixpoint::lemma_rendered_lines(cs);
        let ss = fixpoint::line_lists(t);
        assert forall|i: int| 0 <= i < t.len() implies rejoin::rejoins(
            if i < t.len() - 1 {
                document::padded(text::lines(#[trigger] t[i]))
            } else {
                text::lines(t[i])
            },
        ) by {
            assert(ss[i] == text::lines(t[i]));
            lemma_section_fits(ss, i);
        }
    }
    fixpoint::law_rendering_is_a_fixpoint(cs, source, path);
    law_small_sections_need_no_joining(text::lines(out), source, path);
}

/// The curated file that is rendered of a text without code blocks is a fixpoint:
/// cut into chunks again, of which no two stand under one heading, it is rendered as
/// it is, and it is empty or ends with a single line feed. It holds where the
/// sections of the text and of the file fit a chunk, and no line of the text ends in
/// a carriage return.
pub proof fn law_rendering_text_without_code_is_a_fixpoint(raw: Seq<char>, path: Seq<char>)
    requires
        forall|i: int|
            0 <= i < text::lines(raw).len() ==> !chunking::fence_line(
                #[trigger] text::lines(raw)[i],
            ),
        lines::all_plain(text::lines(raw)),
        sections_fit(text::lines(raw)),
        sections_fit(
            text::lines(
                render::rendered(
                    chunking::chunks(text::lines(raw), MemorySource::Curated, path),
                ),
            ),
        ),
    ensures
        ({
            let cs = chunking::chunks(text::lines(raw), MemorySource::Curated, path);
            let out = render::rendered(cs);
            let again = chunking::chunks(text::lines(out), MemorySource::Curated, path);
            &&& render::rendered(again) == out
            &&& fixpoint::told_apart(again)
            &&& out.len() == 0 || fixpoint::ends_with_one_feed(out)
        }),
{
    law_no_code_block_is_left_open(text::lines(raw), text::lines(raw).len() as int);
    law_rendering_small_sections_is_a_fixpoint(raw, MemorySource::Curated, path);
}

/// A file of small sections has one chunk for each section with text: there are no
/// windows to join.
pub proof fn law_small_sections_need_no_joining(
    ls: Seq<Seq<char>>,
    source: MemorySource,
    path: Seq<char>,
)
    requires
        sections_fit(ls),
    ensures
        ({
            let cs = chunking::chunks(ls, source, path);
            coalesce::coalesced(cs, cs.len() as int) == cs
        }),
{
    let n = ls.len() as int;
    lemma_closed_apart(ls, n, source, path);
    lemma_section_apart(ls, n, chunking::closed_chunks(ls, n, source, path), source, path);
}

/// The chunk of a section stands apart from those before it.
proof fn lemma_section_apart(
    ls: Seq<Seq<char>>,
    n: int,
    prev: Seq<ChunkView>,
    source: MemorySource,
    path: Seq<char>,
)
    requires
        sections_fit(ls),
        0 <= n <= ls.len(),
        n == ls.len() || chunking::heading_line(ls, n),
        coalesce::coalesced(prev, prev.len() as int) == prev,
        prev.len() > 0 ==> prev.last().line_end <= tidiness::section_start(ls, n),
    ensures
        ({
            let h = chunking::last_heading(ls, n);
            let cs = prev + chunking::section_chunks(ls, h, n, source, path, prev.len() as int);
            &&& coalesce::coalesced(cs, cs.len() as int) == cs
            &&& cs.len() > 0 ==> cs.last().line_end <= n
        }),
{
    let h = chunking::last_heading(ls, n);
    let a = tidiness::section_start(ls, n);
    chunking::lemma_last_heading(ls, n);
    let base = prev.len() as int;
    let more = chunking::section_chunks(ls, h, n, source, path, base);
    assert(text::utf8_len(chunking::lines_text(ls, a, n)) <= CHUNK_TARGET_BYTES);
    if chunking::blank_lines(ls, a, n) {
        assert(prev + more =~= prev);
    } else {
        let c = chunking::span_chunk(ls, h, a, n, source, path, base);
        assert(more == seq![c]);
        rejoin::lemma_coalesced_prefix(prev, more, base);
        assert((prev + more)[base] == c);
        assert(coalesce::coalesced(prev + more, base + 1) =~= prev + more);
    }
}

proof fn lemma_closed_apart(ls: Seq<Seq<char>>, n: int, source: MemorySource, path: Seq<char>)
    requires
        sections_fit(ls),
        0 <= n <= ls.len(),
    ensures
        ({
            let cs = chunking::closed_chunks(ls, n, source, path);
            &&& coalesce::coalesced(cs, cs.len() as int) == cs
            &&& cs.len() > 0 ==> cs.last().line_end <= tidiness::section_start(ls, n)
        }),
    decreases n,
{
    if n > 0 {
        lemma_closed_apart(ls, n - 1, source, path);
        if chunking::heading_line(ls, n - 1) {
            let prev = chunking::closed_chunks(ls, n - 1, source, path);
            lemma_section_apart(ls, n - 1, prev, source, path);
        }
    }
}

/// A section of a file that is made of sections lies between its own heading line
/// and the next.
proof fn lemma_section_place(ss: Seq<Seq<Seq<char>>>, i: int)
    requires
        document::well_cut(ss),
        0 <= i < ss.len() - 1,
    ensures
        ({
            let d = document::document(ss);
            let n = document::document(ss.take(i + 1)).len() as int + 1;
            &&& 0 <= tidiness::section_start(d, n) <= n < d.len()
            &&& chunking::heading_line(d, n)
            &&& d.subrange(tidiness::section_start(d, n), n) == document::padded(ss[i])
        }),
    decreases ss.len(),
{
    let d = document::document(ss);
    let prev = ss.drop_last();
    let p = document::document(prev);
    let gap = seq![Seq::<char>::empty()];
    let n = document::document(ss.take(i + 1)).len() as int + 1;
    assert(document::well_cut(prev)) by {
        assert(prev[0] == ss[0]);
        assert forall|k: int| 1 <= k < prev.len() implies document::headed(#[trigger] prev[k]) by {
            assert(prev[k] == ss[k]);
        }
    }
    document::lemma_document(prev, MemorySource::Curated, Seq::empty());
    document::lemma_document(ss, MemorySource::Curated, Seq::empty());
    if i == ss.len() - 2 {
        assert(ss.take(i + 1) =~= prev);
        let q = p + gap;
        assert(d =~= q + ss.last());
        chunking::lemma_last_heading(d, d.len() as int);
        document::lemma_before(q, ss.last(), n);
        document::lemma_before(p, gap, n - 1);
        assert(q[n - 1].len() == 0);
        assert(text::trim_start(q[n - 1]).len() == 0);
        assert(!chunking::heading_line(q, n - 1));
        assert(chunking::last_heading(d, n) == document::last_mark(prev));
        let a = document::last_start(prev);
        assert(tidiness::section_start(d, n) == a);
        assert(p.subrange(a, p.len() as int) == prev.last());
        assert(prev.last() == ss[i]);
        assert forall|k: int| 0 <= k < n - a implies d.subrange(a, n)[k] == #[trigger] document::padded(
            ss[i],
        )[k] by {
            if k < n - 1 - a {
                assert(p.subrange(a, p.len() as int)[k] == p[a + k]);
                assert(d[a + k] == p[a + k]);
            }
        }
        assert(d.subrange(a, n) =~= document::padded(ss[i]));
    } else {
        assert(prev.take(i + 1) =~= ss.take(i + 1));
        assert(prev[i] == ss[i]);
        lemma_section_place(prev, i);
        let more = gap + ss.last();
        assert(d =~= p + more);
        document::lemma_before(p, more, n);
        assert(d[n] == p[n]);
        let a = tidiness::section_start(p, n);
        assert(d.subrange(a, n) =~= p.subrange(a, n));
    }
}

/// The sections that a file is made of fit where its sections do.
proof fn lemma_section_fits(ss: Seq<Seq<Seq<char>>>, i: int)
    requires
        document::well_cut(ss),
        sections_fit(document::document(ss)),
        0 <= i < ss.len(),
    ensures
        text::utf8_len(
            lines::joined(
                if i < ss.len() - 1 {
                    document::padded(ss[i])
                } else {
                    ss[i]
                },
            ),
        ) <= CHUNK_TARGET_BYTES,
{
    let d = document::document(ss);
    if i < ss.len() - 1 {
        lemma_section_place(ss, i);
        let n = document::document(ss.take(i + 1)).len() as int + 1;
        assert(text::utf8_len(chunking::lines_text(d, tidiness::section_start(d, n), n))
            <= CHUNK_TARGET_BYTES);
    } else {
        let n = d.len() as int;
        document::lemma_document(ss, MemorySource::Curated, Seq::empty());
        assert(tidiness::section_start(d, n) == document::last_start(ss));
        assert(text::utf8_len(chunking::lines_text(d, tidiness::section_start(d, n), n))
            <= CHUNK_TARGET_BYTES);
    }
}

} // verus!
