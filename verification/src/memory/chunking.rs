//! Cutting a Markdown file into heading-anchored chunks.
use vstd::prelude::*;
use vstd::string::*;
use crate::memory::chunk;
use crate::memory::chunk::{ChunkView, MemoryChunk, MemorySource};
use crate::memory::markdown;
use crate::memory::markdown::{window_line_ranges, CHUNK_OVERLAP_BYTES, CHUNK_TARGET_BYTES};
use crate::text;
use crate::text::{
    byte_len,
    copy_opt,
    is_blank,
    join_range,
    lines_of,
    text_starts_with,
    trim_start_char_text,
    trim_start_text,
    trim_text,
};

verus! {

/// Whether a line opens or closes a fenced code block.
pub open spec fn fence_line(line: Seq<char>) -> bool {
    let t = text::trim_start(line);
    text::starts_with(t, seq!['`', '`', '`']) || text::starts_with(t, seq!['~', '~', '~'])
}

/// Whether line `n` stands inside a fenced code block.
pub open spec fn in_fence(ls: Seq<Seq<char>>, n: int) -> bool
    decreases n,
{
    if n <= 0 {
        false
    } else {
        in_fence(ls, n - 1) != fence_line(ls[n - 1])
    }
}

/// Whether line `i` is a heading: it begins with `#`, and is no code.
pub open spec fn heading_line(ls: Seq<Seq<char>>, i: int) -> bool {
    !fence_line(ls[i]) && !in_fence(ls, i) && text::starts_with(text::trim_start(ls[i]), seq!['#'])
}

/// What a heading line says, without its `#`s.
pub open spec fn heading_text(line: Seq<char>) -> Seq<char> {
    text::trim(text::trim_start_char(text::trim_start(line), '#'))
}

/// The last heading line before line `n`, or -1.
pub open spec fn last_heading(ls: Seq<Seq<char>>, n: int) -> int
    decreases n,
{
    if n <= 0 {
        -1
    } else if heading_line(ls, n - 1) {
        n - 1
    } else {
        last_heading(ls, n - 1)
    }
}

/// The lines `i` up to `j` as one text.
pub open spec fn lines_text(ls: Seq<Seq<char>>, i: int, j: int) -> Seq<char> {
    text::join(ls.subrange(i, j), seq!['\n'])
}

/// Whether nothing but white space stands in the lines `i` up to `j`.
pub open spec fn blank_lines(ls: Seq<Seq<char>>, i: int, j: int) -> bool {
    text::blank(lines_text(ls, i, j))
}

/// The heading of the section whose heading line is `h`, if it has one.
pub open spec fn section_heading(ls: Seq<Seq<char>>, h: int) -> Option<Seq<char>> {
    if h < 0 {
        None
    } else {
        Some(heading_text(ls[h]))
    }
}

/// The chunk of the lines `i` up to `j`.
pub open spec fn span_chunk(
    ls: Seq<Seq<char>>,
    h: int,
    i: int,
    j: int,
    source: MemorySource,
    path: Seq<char>,
    id: int,
) -> ChunkView {
    ChunkView {
        id,
        source,
        path,
        heading: section_heading(ls, h),
        text: lines_text(ls, i, j),
        line_start: i + 1,
        line_end: j,
    }
}

/// The chunks of the first `n` windows of a section that starts at line `a`;
/// a window without text gives none.
pub open spec fn window_chunks(
    ls: Seq<Seq<char>>,
    h: int,
    a: int,
    ranges: Seq<(int, int)>,
    n: int,
    source: MemorySource,
    path: Seq<char>,
    base: int,
) -> Seq<ChunkView>
    decreases n,
{
    if n <= 0 {
        Seq::empty()
    } else {
        let prev = window_chunks(ls, h, a, ranges, n - 1, source, path, base);
        let (s, e) = ranges[n - 1];
        if blank_lines(ls, a + s, a + e) {
            prev
        } else {
            prev.push(span_chunk(ls, h, a + s, a + e, source, path, base + prev.len()))
        }
    }
}

/// The chunks of the section with heading line `h` that ends before line `b`:
/// none without text, one when it is small, else one for each window.
pub open spec fn section_chunks(
    ls: Seq<Seq<char>>,
    h: int,
    b: int,
    source: MemorySource,
    path: Seq<char>,
    base: int,
) -> Seq<ChunkView> {
    let a = if h < 0 {
        0
    } else {
        h
    };
    if blank_lines(ls, a, b) {
        Seq::empty()
    } else if text::utf8_len(lines_text(ls, a, b)) <= CHUNK_TARGET_BYTES {
        seq![span_chunk(ls, h, a, b, source, path, base)]
    } else {
        let ranges = section_windows(ls, a, b);
        window_chunks(ls, h, a, ranges, ranges.len() as int, source, path, base)
    }
}

/// The windows of the lines `a` up to `b`.
pub open spec fn section_windows(ls: Seq<Seq<char>>, a: int, b: int) -> Seq<(int, int)> {
    markdown::windows(
        markdown::line_lens(ls.subrange(a, b)),
        0,
        CHUNK_TARGET_BYTES as int,
        CHUNK_OVERLAP_BYTES as int,
    )
}

/// The chunks of the sections that a heading line before line `n` has ended.
pub open spec fn closed_chunks(
    ls: Seq<Seq<char>>,
    n: int,
    source: MemorySource,
    path: Seq<char>,
) -> Seq<ChunkView>
    decreases n,
{
    if n <= 0 {
        Seq::empty()
    } else {
        let prev = closed_chunks(ls, n - 1, source, path);
        if heading_line(ls, n - 1) {
            prev + section_chunks(
                ls,
                last_heading(ls, n - 1),
                n - 1,
                source,
                path,
                prev.len() as int,
            )
        } else {
            prev
        }
    }
}

/// The chunks of a file with those lines.
pub open spec fn chunks(ls: Seq<Seq<char>>, source: MemorySource, path: Seq<char>) -> Seq<
    ChunkView,
> {
    let n = ls.len() as int;
    let closed = closed_chunks(ls, n, source, path);
    closed + section_chunks(ls, last_heading(ls, n), n, source, path, closed.len() as int)
}

pub proof fn lemma_last_heading(ls: Seq<Seq<char>>, n: int)
    requires
        0 <= n <= ls.len(),
    ensures
        -1 <= last_heading(ls, n) < n || (n == 0 && last_heading(ls, n) == -1),
        last_heading(ls, n) >= 0 ==> heading_line(ls, last_heading(ls, n)),
    decreases n,
{
    if n > 0 && !heading_line(ls, n - 1) {
        lemma_last_heading(ls, n - 1);
    }
}

proof fn lemma_window_chunks_len(
    ls: Seq<Seq<char>>,
    h: int,
    a: int,
    ranges: Seq<(int, int)>,
    n: int,
    source: MemorySource,
    path: Seq<char>,
    base: int,
)
    requires
        0 <= n,
    ensures
        window_chunks(ls, h, a, ranges, n, source, path, base).len() <= n,
    decreases n,
{
    if n > 0 {
        lemma_window_chunks_len(ls, h, a, ranges, n - 1, source, path, base);
    }
}

/// A section gives no more chunks than it has lines.
proof fn lemma_section_chunks_len(
    ls: Seq<Seq<char>>,
    h: int,
    b: int,
    source: MemorySource,
    path: Seq<char>,
    base: int,
)
    requires
        -1 <= h <= b <= ls.len(),
        0 <= b,
    ensures
        section_chunks(ls, h, b, source, path, base).len() <= b - (if h < 0 {
            0
        } else {
            h
        }),
{
    let a = if h < 0 {
        0
    } else {
        h
    };
    if a == b {
        assert(ls.subrange(a, b) =~= Seq::<Seq<char>>::empty());
        assert(blank_lines(ls, a, b));
    } else {
        let lens = markdown::line_lens(ls.subrange(a, b));
        markdown::law_windows_cover(lens, 0, CHUNK_TARGET_BYTES as int, CHUNK_OVERLAP_BYTES as int);
        let ranges = section_windows(ls, a, b);
        lemma_window_chunks_len(ls, h, a, ranges, ranges.len() as int, source, path, base);
    }
}

proof fn lemma_closed_chunks_len(
    ls: Seq<Seq<char>>,
    n: int,
    source: MemorySource,
    path: Seq<char>,
)
    requires
        0 <= n <= ls.len(),
    ensures
        closed_chunks(ls, n, source, path).len() <= (if last_heading(ls, n) < 0 {
            0
        } else {
            last_heading(ls, n)
        }),
    decreases n,
{
    if n > 0 {
        lemma_closed_chunks_len(ls, n - 1, source, path);
        lemma_last_heading(ls, n - 1);
        if heading_line(ls, n - 1) {
            lemma_section_chunks_len(
                ls,
                last_heading(ls, n - 1),
                n - 1,
                source,
                path,
                closed_chunks(ls, n - 1, source, path).len() as int,
            );
        }
    }
}

/// Whether a chunk is the text of the lines that it gives as its span.
pub open spec fn matches_span(c: ChunkView, ls: Seq<Seq<char>>) -> bool {
    &&& 1 <= c.line_start <= c.line_end <= ls.len()
    &&& c.text == lines_text(ls, c.line_start - 1, c.line_end)
    &&& !text::blank(c.text)
}

proof fn lemma_window_chunks_span(
    ls: Seq<Seq<char>>,
    h: int,
    a: int,
    ranges: Seq<(int, int)>,
    n: int,
    source: MemorySource,
    path: Seq<char>,
    base: int,
)
    requires
        0 <= n <= ranges.len(),
        0 <= a,
        forall|i: int|
            0 <= i < ranges.len() ==> 0 <= (#[trigger] ranges[i]).0 < ranges[i].1 <= ls.len() - a,
    ensures
        ({
            let cs = window_chunks(ls, h, a, ranges, n, source, path, base);
            forall|i: int|
                0 <= i < cs.len() ==> matches_span(#[trigger] cs[i], ls) && cs[i].id == base + i
                    && cs[i].source == source && cs[i].path == path && cs[i].heading
                    == section_heading(ls, h)
        }),
    decreases n,
{
    if n > 0 {
        lemma_window_chunks_span(ls, h, a, ranges, n - 1, source, path, base);
        assert(0 <= ranges[n - 1].0);
    }
}

proof fn lemma_section_chunks_span(
    ls: Seq<Seq<char>>,
    h: int,
    b: int,
    source: MemorySource,
    path: Seq<char>,
    base: int,
)
    requires
        -1 <= h <= b <= ls.len(),
        0 <= b,
    ensures
        ({
            let cs = section_chunks(ls, h, b, source, path, base);
            forall|i: int|
                0 <= i < cs.len() ==> matches_span(#[trigger] cs[i], ls) && cs[i].id == base + i
                    && cs[i].source == source && cs[i].path == path && cs[i].heading
                    == section_heading(ls, h)
        }),
{
    let a = if h < 0 {
        0
    } else {
        h
    };
    if a == b {
        assert(ls.subrange(a, b) =~= Seq::<Seq<char>>::empty());
        assert(blank_lines(ls, a, b));
    } else {
        let lens = markdown::line_lens(ls.subrange(a, b));
        markdown::law_windows_cover(lens, 0, CHUNK_TARGET_BYTES as int, CHUNK_OVERLAP_BYTES as int);
        let ranges = section_windows(ls, a, b);
        lemma_window_chunks_span(ls, h, a, ranges, ranges.len() as int, source, path, base);
    }
}

proof fn lemma_closed_chunks_span(
    ls: Seq<Seq<char>>,
    n: int,
    source: MemorySource,
    path: Seq<char>,
)
    requires
        0 <= n <= ls.len(),
    ensures
        ({
            let cs = closed_chunks(ls, n, source, path);
            forall|i: int|
                0 <= i < cs.len() ==> matches_span(#[trigger] cs[i], ls) && cs[i].id == i
                    && cs[i].source == source && cs[i].path == path
        }),
    decreases n,
{
    if n > 0 {
        lemma_closed_chunks_span(ls, n - 1, source, path);
        lemma_last_heading(ls, n - 1);
        if heading_line(ls, n - 1) {
            lemma_section_chunks_span(
                ls,
                last_heading(ls, n - 1),
                n - 1,
                source,
                path,
                closed_chunks(ls, n - 1, source, path).len() as int,
            );
        }
    }
}

/// Every chunk of a file is the text of exactly the lines that it gives as its
/// span, holds more than white space, carries the file's source and path, and
/// is numbered by its position.
pub proof fn law_chunks_match_their_spans(
    ls: Seq<Seq<char>>,
    source: MemorySource,
    path: Seq<char>,
)
    ensures
        ({
            let cs = chunks(ls, source, path);
            forall|i: int|
                0 <= i < cs.len() ==> matches_span(#[trigger] cs[i], ls) && cs[i].id == i
                    && cs[i].source == source && cs[i].path == path
        }),
{
    let n = ls.len() as int;
    lemma_closed_chunks_span(ls, n, source, path);
    lemma_last_heading(ls, n);
    lemma_section_chunks_span(
        ls,
        last_heading(ls, n),
        n,
        source,
        path,
        closed_chunks(ls, n, source, path).len() as int,
    );
}

/// Whether a line opens or closes a fenced code block.
fn is_fence_line(trimmed: &String) -> (r: bool)
    ensures
        r == (text::starts_with(trimmed@, seq!['`', '`', '`']) || text::starts_with(
            trimmed@,
            seq!['~', '~', '~'],
        )),
{
    proof {
        reveal_strlit("```");
        reveal_strlit("~~~");
        assert("```"@ =~= seq!['`', '`', '`']);
        assert("~~~"@ =~= seq!['~', '~', '~']);
    }
    text_starts_with(trimmed.as_str(), "```") || text_starts_with(trimmed.as_str(), "~~~")
}

/// Adds the chunks of one section.
fn push_section(
    out: &mut Vec<MemoryChunk>,
    ls: &Vec<String>,
    heading: &Option<String>,
    a: usize,
    b: usize,
    source: MemorySource,
    path: &str,
    Ghost(h): Ghost<int>,
)
    requires
        a <= b <= ls@.len(),
        ls@.len() <= u32::MAX,
        -1 <= h,
        a == (if h < 0 { 0 } else { h }),
        text::opt_view(*heading) == section_heading(text::views(ls@), h),
        old(out)@.len() <= a,
    ensures
        chunk::chunk_views(final(out)@) == chunk::chunk_views(old(out)@) + section_chunks(
            text::views(ls@),
            h,
            b as int,
            source,
            path@,
            old(out)@.len() as int,
        ),
{
    let ghost lv = text::views(ls@);
    let ghost start = chunk::chunk_views(out@);
    let ghost base = out@.len() as int;
    proof {
        reveal_strlit("\n");
        assert("\n"@ =~= seq!['\n']);
        lemma_section_chunks_len(lv, h, b as int, source, path@, base);
    }
    let joined: String = join_range(ls, a, b, "\n");
    if is_blank(joined.as_str()) {
        assert(chunk::chunk_views(out@) =~= start + section_chunks(
            lv,
            h,
            b as int,
            source,
            path@,
            base,
        ));
        return ;
    }
    if byte_len(joined.as_str()) <= CHUNK_TARGET_BYTES {
        let id: i64 = out.len() as i64;
        out.push(
            MemoryChunk {
                id,
                source,
                path: path.to_owned(),
                heading: copy_opt(heading),
                text: joined,
                line_start: a as u32 + 1,
                line_end: b as u32,
            },
        );
        assert(chunk::chunk_views(out@) =~= start + section_chunks(
            lv,
            h,
            b as int,
            source,
            path@,
            base,
        ));
        return ;
    }
    let body: Vec<String> = copy_range(ls, a, b);
    let ranges: Vec<(usize, usize)> = window_line_ranges(
        &body,
        CHUNK_TARGET_BYTES,
        CHUNK_OVERLAP_BYTES,
    );
    let ghost rv = markdown::range_views(ranges@);
    proof {
        assert(text::views(body@) =~= lv.subrange(a as int, b as int));
        assert(rv == section_windows(lv, a as int, b as int));
        let lens = markdown::line_lens(lv.subrange(a as int, b as int));
        if a == b {
            assert(lv.subrange(a as int, b as int) =~= Seq::<Seq<char>>::empty());
            assert(blank_lines(lv, a as int, b as int));
        }
        markdown::law_windows_cover(lens, 0, CHUNK_TARGET_BYTES as int, CHUNK_OVERLAP_BYTES as int);
    }
    let mut k: usize = 0;
    assert(start + window_chunks(lv, h, a as int, rv, 0, source, path@, base) =~= start);
    while k < ranges.len()
        invariant
            k <= ranges@.len(),
            a <= b <= ls@.len(),
            ls@.len() <= u32::MAX,
            lv == text::views(ls@),
            rv == markdown::range_views(ranges@),
            rv.len() <= b - a,
            start.len() == base,
            base <= a,
            forall|i: int| 0 <= i < rv.len() ==> 0 <= (#[trigger] rv[i]).0 < rv[i].1 <= b - a,
            text::opt_view(*heading) == section_heading(lv, h),
            chunk::chunk_views(out@) == start + window_chunks(
                lv,
                h,
                a as int,
                rv,
                k as int,
                source,
                path@,
                base,
            ),
            "\n"@ == seq!['\n'],
        decreases ranges@.len() - k,
    {
        let (s, e) = ranges[k];
        let ghost prev = window_chunks(lv, h, a as int, rv, k as int, source, path@, base);
        proof {
            assert(rv[k as int] == (s as int, e as int));
            lemma_window_chunks_len(lv, h, a as int, rv, k as int, source, path@, base);
            assert(out@.len() == chunk::chunk_views(out@).len());
        }
        let part: String = join_range(ls, a + s, a + e, "\n");
        if !is_blank(part.as_str()) {
            let id: i64 = out.len() as i64;
            let ghost before = chunk::chunk_views(out@);
            out.push(
                MemoryChunk {
                    id,
                    source,
                    path: path.to_owned(),
                    heading: copy_opt(heading),
                    text: part,
                    line_start: (a + s) as u32 + 1,
                    line_end: (a + e) as u32,
                },
            );
            proof {
                let c = span_chunk(lv, h, a + s, a + e, source, path@, base + prev.len());
                assert(out@.last()@ =~= c);
                assert(chunk::chunk_views(out@) =~= before.push(c));
                assert(before.push(c) =~= start + prev.push(c));
            }
        }
        k = k + 1;
    }
}

/// A copy of the strings from `a` up to `b`.
fn copy_range(ls: &Vec<String>, a: usize, b: usize) -> (r: Vec<String>)
    requires
        a <= b <= ls@.len(),
    ensures
        r@ == ls@.subrange(a as int, b as int),
{
    let mut out: Vec<String> = Vec::new();
    let mut i: usize = a;
    while i < b
        invariant
            a <= i <= b <= ls@.len(),
            out@ == ls@.subrange(a as int, i as int),
        decreases b - i,
    {
        out.push(ls[i].clone());
        i = i + 1;
        assert(out@ =~= ls@.subrange(a as int, i as int));
    }
    out
}

/// Cuts Markdown into heading-anchored chunks. A chunk runs from a heading line
/// to just before the next; what stands before the first heading is a chunk
/// too. A section past the target size is cut into overlapping line windows,
/// and chunks without text are dropped.
pub fn chunk_markdown(content: &str, source: MemorySource, path: &str) -> (r: Vec<MemoryChunk>)
    requires
        text::lines(content@).len() <= u32::MAX,
    ensures
        chunk::chunk_views(r@) == chunks(text::lines(content@), source, path@),
{
    let ls: Vec<String> = lines_of(content);
    let ghost lv = text::views(ls@);
    let mut out: Vec<MemoryChunk> = Vec::new();
    let mut heading: Option<String> = None;
    let mut a: usize = 0;
    let mut fenced: bool = false;
    let mut i: usize = 0;
    let ghost mut h: int = -1;
    proof {
        reveal_strlit("#");
        assert("#"@ =~= seq!['#']);
        assert(chunk::chunk_views(out@) =~= closed_chunks(lv, 0, source, path@));
    }
    while i < ls.len()
        invariant
            i <= ls@.len(),
            ls@.len() <= u32::MAX,
            lv == text::views(ls@),
            lv == text::lines(content@),
            fenced == in_fence(lv, i as int),
            h == last_heading(lv, i as int),
            -1 <= h <= i,
            a == (if h < 0 { 0 } else { h }),
            a <= i,
            text::opt_view(heading) == section_heading(lv, h),
            chunk::chunk_views(out@) == closed_chunks(lv, i as int, source, path@),
            "#"@ == seq!['#'],
        decreases ls@.len() - i,
    {
        let trimmed: String = trim_start_text(ls[i].as_str());
        proof {
            assert(lv[i as int] == ls@[i as int]@);
            lemma_closed_chunks_len(lv, i as int, source, path@);
            assert(out@.len() == chunk::chunk_views(out@).len());
        }
        if is_fence_line(&trimmed) {
            fenced = !fenced;
        } else if !fenced && text_starts_with(trimmed.as_str(), "#") {
            push_section(&mut out, &ls, &heading, a, i, source, path, Ghost(h));
            let bare: String = trim_start_char_text(trimmed.as_str(), '#');
            heading = Some(trim_text(bare.as_str()));
            a = i;
            proof {
                h = i as int;
            }
        }
        i = i + 1;
    }
    proof {
        lemma_closed_chunks_len(lv, i as int, source, path@);
        assert(out@.len() == chunk::chunk_views(out@).len());
    }
    let end: usize = ls.len();
    push_section(&mut out, &ls, &heading, a, end, source, path, Ghost(h));
    out
}

} // verus!
