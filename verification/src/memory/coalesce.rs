//! Joining the line windows of a section back into one chunk.
use vstd::prelude::*;
use vstd::string::*;
use crate::memory::chunk;
use crate::memory::chunk::{ChunkView, MemoryChunk};
use crate::text;
use crate::text::{join_range, lines_of, same_opt_text, same_text};

verus! {

/// Whether `c` is a further window of the section that `last` belongs to: same
/// file, same heading, and its lines overlap those of `last`.
pub open spec fn window_of(last: ChunkView, c: ChunkView) -> bool {
    last.source == c.source && last.path == c.path && last.heading == c.heading && c.line_start
        <= last.line_end
}

/// The lines of `c` that `last` does not cover.
pub open spec fn new_lines(last: ChunkView, c: ChunkView) -> Seq<Seq<char>> {
    let ls = text::lines(c.text);
    let skip = last.line_end + 1 - c.line_start;
    if skip >= ls.len() {
        Seq::empty()
    } else {
        ls.skip(skip)
    }
}

/// `last` with the lines of `c` that it does not cover.
pub open spec fn extended(last: ChunkView, c: ChunkView) -> ChunkView {
    let tail = new_lines(last, c);
    ChunkView {
        text: if tail.len() == 0 {
            last.text
        } else {
            last.text + seq!['\n'] + text::join(tail, seq!['\n'])
        },
        line_end: if last.line_end >= c.line_end {
            last.line_end
        } else {
            c.line_end
        },
        ..last
    }
}

/// The first `n` chunks with runs of windows joined.
pub open spec fn coalesced(cs: Seq<ChunkView>, n: int) -> Seq<ChunkView>
    decreases n,
{
    if n <= 0 {
        Seq::empty()
    } else {
        let prev = coalesced(cs, n - 1);
        let c = cs[n - 1];
        if prev.len() > 0 && window_of(prev.last(), c) {
            prev.update(prev.len() - 1, extended(prev.last(), c))
        } else {
            prev.push(c)
        }
    }
}

/// Whether `c` is a further window of the section that `last` belongs to.
fn is_window_of(last: &MemoryChunk, c: &MemoryChunk) -> (r: bool)
    ensures
        r == window_of(last@, c@),
{
    last.source.same(&c.source) && same_text(last.path.as_str(), c.path.as_str()) && same_opt_text(
        &last.heading,
        &c.heading,
    ) && c.line_start <= last.line_end
}

/// `last` with the lines of `c` that it does not cover.
fn extend_window(last: &MemoryChunk, c: &MemoryChunk) -> (r: MemoryChunk)
    requires
        window_of(last@, c@),
    ensures
        r@ == extended(last@, c@),
{
    let ls: Vec<String> = lines_of(c.text.as_str());
    let skip: u64 = (last.line_end - c.line_start) as u64 + 1;
    let mut out: MemoryChunk = last.clone();
    proof {
        reveal_strlit("\n");
        assert("\n"@ =~= seq!['\n']);
        assert(text::views(ls@).len() == ls@.len());
    }
    if skip < ls.len() as u64 {
        let tail: String = join_range(&ls, skip as usize, ls.len(), "\n");
        let mut t: String = last.text.clone();
        t.append("\n");
        t.append(tail.as_str());
        proof {
            assert(text::views(ls@).subrange(skip as int, ls@.len() as int) =~= new_lines(
                last@,
                c@,
            ));
        }
        out.text = t;
    }
    if out.line_end < c.line_end {
        out.line_end = c.line_end;
    }
    proof {
        assert(out@ =~= extended(last@, c@));
    }
    out
}

/// Joins the overlapping line windows of a section back into one chunk, so that
/// no line appears twice. Sections that do not overlap stay apart.
pub fn coalesce_windows(cs: &Vec<MemoryChunk>) -> (r: Vec<MemoryChunk>)
    ensures
        chunk::chunk_views(r@) == coalesced(chunk::chunk_views(cs@), cs@.len() as int),
        r@.len() <= cs@.len(),
{
    let ghost cv = chunk::chunk_views(cs@);
    let mut out: Vec<MemoryChunk> = Vec::new();
    let mut i: usize = 0;
    assert(chunk::chunk_views(out@) =~= coalesced(cv, 0));
    while i < cs.len()
        invariant
            i <= cs@.len(),
            out@.len() <= i,
            cv == chunk::chunk_views(cs@),
            chunk::chunk_views(out@) == coalesced(cv, i as int),
        decreases cs@.len() - i,
    {
        let ghost prev = chunk::chunk_views(out@);
        let n: usize = out.len();
        assert(cv[i as int] == cs@[i as int]@);
        if n > 0 && is_window_of(&out[n - 1], &cs[i]) {
            assert(prev.last() == out@[n - 1]@);
            let merged: MemoryChunk = extend_window(&out[n - 1], &cs[i]);
            out.set(n - 1, merged);
            assert(chunk::chunk_views(out@) =~= prev.update(
                prev.len() - 1,
                extended(prev.last(), cv[i as int]),
            ));
        } else {
            proof {
                if n > 0 {
                    assert(prev.last() == out@[n - 1]@);
                }
            }
            out.push(cs[i].clone());
            assert(chunk::chunk_views(out@) =~= prev.push(cv[i as int]));
        }
        i = i + 1;
    }
    out
}

} // verus!
