//! Cutting Markdown into chunks and editing it by section.
use vstd::prelude::*;
use vstd::string::*;
use crate::text;
use crate::text::{byte_len, char_width, chars_of};

verus! {

/// The size in bytes up to which a section stays one chunk.
pub const CHUNK_TARGET_BYTES: usize = 2048;

/// The number of bytes that neighbouring windows share.
pub const CHUNK_OVERLAP_BYTES: usize = 307;

// ---------------------------------------------------------------------------
// A head within a byte budget
// ---------------------------------------------------------------------------

/// The number of leading characters of `s` that fit into `budget` bytes.
pub open spec fn chars_within(s: Seq<char>, budget: int) -> nat
    decreases s.len(),
{
    if s.len() == 0 || text::utf8_width(s[0]) > budget {
        0
    } else {
        1 + chars_within(s.skip(1), budget - text::utf8_width(s[0]))
    }
}

/// The last index in `1..=k` at which a line feed stands in `s`, or 0.
pub open spec fn last_newline(s: Seq<char>, k: int) -> int
    decreases k,
{
    if k <= 0 {
        0
    } else if k < s.len() && s[k] == '\n' {
        k
    } else {
        last_newline(s, k - 1)
    }
}

/// The largest head of `s` within `budget` bytes that ends before a line feed;
/// where there is none, the largest head within the budget.
pub open spec fn head(s: Seq<char>, budget: int) -> Seq<char> {
    if text::utf8_len(s) <= budget {
        s
    } else {
        let k = chars_within(s, budget) as int;
        let cut = last_newline(s, k);
        if cut == 0 {
            s.take(k)
        } else {
            s.take(cut)
        }
    }
}

/// The characters counted by `chars_within` fit, and one more would not.
pub proof fn lemma_chars_within(s: Seq<char>, budget: int)
    requires
        0 <= budget,
    ensures
        chars_within(s, budget) <= s.len(),
        text::utf8_len(s.take(chars_within(s, budget) as int)) <= budget,
        chars_within(s, budget) < s.len() ==> text::utf8_len(
            s.take(chars_within(s, budget) as int + 1),
        ) > budget,
    decreases s.len(),
{
    let k = chars_within(s, budget) as int;
    if s.len() == 0 || text::utf8_width(s[0]) > budget {
        assert(s.take(0) =~= Seq::<char>::empty());
        if s.len() > 0 {
            assert(s.take(1).skip(1) =~= Seq::<char>::empty());
        }
    } else {
        let w = text::utf8_width(s[0]) as int;
        lemma_chars_within(s.skip(1), budget - w);
        assert(s.take(k).skip(1) =~= s.skip(1).take(k - 1));
        assert(s.take(k)[0] == s[0]);
        if k < s.len() {
            assert(s.take(k + 1).skip(1) =~= s.skip(1).take(k));
            assert(s.take(k + 1)[0] == s[0]);
        }
    }
}

/// No line feed stands between the last one and the place it was sought from.
pub proof fn lemma_last_newline(s: Seq<char>, k: int)
    requires
        0 <= k <= s.len(),
    ensures
        0 <= last_newline(s, k) <= k,
        last_newline(s, k) > 0 ==> last_newline(s, k) < s.len() && s[last_newline(s, k)] == '\n',
        forall|j: int| last_newline(s, k) < j <= k && j < s.len() ==> s[j] != '\n',
    decreases k,
{
    if k > 0 && !(k < s.len() && s[k] == '\n') {
        lemma_last_newline(s, k - 1);
    }
}

/// The head of a text is a prefix of it that fits into the budget; unless the
/// whole text fits, it ends before a line feed or one more character would
/// not fit.
pub proof fn law_head_fits(s: Seq<char>, budget: int)
    requires
        0 <= budget,
    ensures
        head(s, budget).is_prefix_of(s),
        text::utf8_len(head(s, budget)) <= budget,
        text::utf8_len(s) <= budget ==> head(s, budget) == s,
        text::utf8_len(s) > budget ==> {
            let n = head(s, budget).len() as int;
            n < s.len() && ((n > 0 && s[n] == '\n') || text::utf8_len(s.take(n + 1)) > budget)
        },
{
    if text::utf8_len(s) > budget {
        lemma_chars_within(s, budget);
        let k = chars_within(s, budget) as int;
        lemma_last_newline(s, k);
        assert(k < s.len()) by {
            assert(s.take(s.len() as int) =~= s);
        }
        let n = head(s, budget).len() as int;
        assert(s.take(n) =~= s.take(k).take(n));
        text::lemma_utf8_len_take(s.take(k), n);
    }
}

/// The head of `content` within `budget` bytes.
pub fn head_within(content: &str, budget: usize) -> (r: &str)
    ensures
        r@ == head(content@, budget as int),
{
    if byte_len(content) <= budget {
        return content;
    }
    let v: Vec<char> = chars_of(content);
    let mut k: usize = 0;
    let mut room: usize = budget;
    proof {
        assert(v@.skip(0) =~= v@);
    }
    while k < v.len() && char_width(v[k]) <= room
        invariant
            k <= v@.len(),
            chars_within(v@, budget as int) == k + chars_within(v@.skip(k as int), room as int),
        decreases v@.len() - k,
    {
        proof {
            assert(v@.skip(k as int).skip(1) =~= v@.skip(k + 1));
        }
        room = room - char_width(v[k]);
        k = k + 1;
    }
    let mut cut: usize = k;
    while cut > 0 && !(cut < v.len() && v[cut] == '\n')
        invariant
            cut <= k <= v@.len(),
            last_newline(v@, k as int) == last_newline(v@, cut as int),
        decreases cut,
    {
        cut = cut - 1;
    }
    if cut == 0 {
        content.substring_char(0, k)
    } else {
        content.substring_char(0, cut)
    }
}

// ---------------------------------------------------------------------------
// Line windows
// ---------------------------------------------------------------------------

/// The byte length of each line.
pub open spec fn line_lens(ls: Seq<Seq<char>>) -> Seq<nat> {
    Seq::new(ls.len(), |i: int| text::utf8_len(ls[i]))
}

/// The bytes that the lines from `i` up to `j` take, a line feed after each.
pub open spec fn span_len(lens: Seq<nat>, i: int, j: int) -> nat
    decreases j - i,
{
    if i >= j {
        0
    } else {
        span_len(lens, i, j - 1) + lens[j - 1] + 1
    }
}

/// Where the window that starts at `start` ends, when it already reaches up to
/// `end`: it takes lines as long as it stays within `target` bytes, and its
/// first line in any case.
pub open spec fn window_end(lens: Seq<nat>, start: int, end: int, target: int) -> int
    decreases lens.len() - end,
{
    if end < lens.len() && (end == start || span_len(lens, start, end + 1) <= target) {
        window_end(lens, start, end + 1, target)
    } else {
        end
    }
}

/// Where the next window starts: as far back from `end` as it takes to share
/// `overlap` bytes, but past `start`.
pub open spec fn window_back(lens: Seq<nat>, start: int, back: int, end: int, overlap: int) -> int
    decreases back,
{
    if back > start + 1 && back > 0 && span_len(lens, back, end) < overlap {
        window_back(lens, start, back - 1, end, overlap)
    } else {
        back
    }
}

/// The windows from `start` on, as half-open ranges of line indices.
pub open spec fn windows(lens: Seq<nat>, start: int, target: int, overlap: int) -> Seq<(int, int)>
    decreases lens.len() - start,
{
    if start < 0 || start >= lens.len() {
        Seq::empty()
    } else {
        let end = window_end(lens, start, start, target);
        if end >= lens.len() {
            seq![(start, end)]
        } else {
            let next = window_back(lens, start, end, end, overlap);
            proof {
                lemma_window_end(lens, start, start, target);
                lemma_window_back(lens, start, end, end, overlap);
            }
            seq![(start, end)] + windows(lens, next, target, overlap)
        }
    }
}

/// A span splits at any line between.
pub proof fn lemma_span_split(lens: Seq<nat>, i: int, k: int, j: int)
    requires
        i <= k <= j,
    ensures
        span_len(lens, i, j) == span_len(lens, i, k) + span_len(lens, k, j),
    decreases j - k,
{
    if k < j {
        lemma_span_split(lens, i, k, j - 1);
    }
}

/// A window takes a line, stays within the lines, and stops only where one more
/// line would exceed the target.
pub proof fn lemma_window_end(lens: Seq<nat>, start: int, end: int, target: int)
    requires
        0 <= start <= end <= lens.len(),
        start < lens.len(),
        end > start + 1 ==> span_len(lens, start, end) <= target,
    ensures
        ({
            let e = window_end(lens, start, end, target);
            &&& end <= e <= lens.len()
            &&& start < e
            &&& e > start + 1 ==> span_len(lens, start, e) <= target
            &&& e < lens.len() ==> span_len(lens, start, e + 1) > target
        }),
    decreases lens.len() - end,
{
    if end < lens.len() && (end == start || span_len(lens, start, end + 1) <= target) {
        lemma_window_end(lens, start, end + 1, target);
    }
}

/// The next window starts past the start of the last and no later than its end.
pub proof fn lemma_window_back(lens: Seq<nat>, start: int, back: int, end: int, overlap: int)
    requires
        0 <= start < back <= end <= lens.len(),
    ensures
        start < window_back(lens, start, back, end, overlap) <= back,
    decreases back,
{
    if back > start + 1 && span_len(lens, back, end) < overlap {
        lemma_window_back(lens, start, back - 1, end, overlap);
    }
}

/// The windows over any lines start at the first line and end after the last;
/// each takes at least one line, starts past the start of the one before and no
/// later than its end, so that every line is covered; and a window of more than
/// one line stays within the target.
pub proof fn law_windows_cover(lens: Seq<nat>, start: int, target: int, overlap: int)
    requires
        0 <= start < lens.len(),
    ensures
        ({
            let w = windows(lens, start, target, overlap);
            &&& 0 < w.len() <= lens.len() - start
            &&& w[0].0 == start
            &&& w.last().1 == lens.len()
            &&& forall|i: int|
                0 <= i < w.len() ==> start <= (#[trigger] w[i]).0 < w[i].1 <= lens.len()
            &&& forall|i: int|
                0 <= i < w.len() && (#[trigger] w[i]).1 > w[i].0 + 1 ==> span_len(
                    lens,
                    w[i].0,
                    w[i].1,
                ) <= target
            &&& forall|i: int, j: int|
                0 <= i < w.len() && j == i + 1 && j < w.len() ==> (#[trigger] w[i]).0 < (
                #[trigger] w[j]).0 <= w[i].1
        }),
    decreases lens.len() - start,
{
    lemma_window_end(lens, start, start, target);
    let end = window_end(lens, start, start, target);
    lemma_window_back(lens, start, end, end, overlap);
    let next = window_back(lens, start, end, end, overlap);
    let w = windows(lens, start, target, overlap);
    if end < lens.len() {
        law_windows_cover(lens, next, target, overlap);
        let rest = windows(lens, next, target, overlap);
        assert(w == seq![(start, end)] + rest);
        assert forall|i: int| 0 <= i < w.len() implies start <= (#[trigger] w[i]).0 < w[i].1
            <= lens.len() by {
            if i > 0 {
                assert(w[i] == rest[i - 1]);
            }
        }
        assert forall|i: int| 0 <= i < w.len() && (#[trigger] w[i]).1 > w[i].0 + 1 implies span_len(
            lens,
            w[i].0,
            w[i].1,
        ) <= target by {
            if i > 0 {
                assert(w[i] == rest[i - 1]);
            }
        }
        assert forall|i: int, j: int|
            0 <= i < w.len() && j == i + 1 && j < w.len() implies (#[trigger] w[i]).0 < (
        #[trigger] w[j]).0 <= w[i].1 by {
            assert(w[j] == rest[j - 1]);
            if i > 0 {
                assert(w[i] == rest[i - 1]);
            }
        }
        assert(w.last() == rest.last());
    }
}

/// A window that starts later ends no earlier.
proof fn lemma_ends_in_order(lens: Seq<nat>, a: int, b: int, end: int, target: int)
    requires
        0 <= a < b < lens.len(),
        b <= end <= window_end(lens, a, a, target),
    ensures
        window_end(lens, a, a, target) <= window_end(lens, b, end, target),
    decreases lens.len() - end,
{
    let e = window_end(lens, a, a, target);
    lemma_window_end(lens, a, a, target);
    if end < e {
        if end > b {
            lemma_span_split(lens, a, b, end + 1);
            lemma_span_split(lens, a, end + 1, e);
        }
        lemma_ends_in_order(lens, a, b, end + 1, target);
    } else {
        lemma_grows(lens, b, end, target);
    }
}

proof fn lemma_grows(lens: Seq<nat>, start: int, end: int, target: int)
    requires
        0 <= start <= end <= lens.len(),
    ensures
        end <= window_end(lens, start, end, target),
    decreases lens.len() - end,
{
    if end < lens.len() && (end == start || span_len(lens, start, end + 1) <= target) {
        lemma_grows(lens, start, end + 1, target);
    }
}

/// No window ends before the one that it follows.
pub proof fn law_windows_end_in_order(lens: Seq<nat>, start: int, target: int, overlap: int)
    requires
        0 <= start < lens.len(),
    ensures
        ({
            let w = windows(lens, start, target, overlap);
            forall|i: int, j: int|
                0 <= i < w.len() && j == i + 1 && j < w.len() ==> (#[trigger] w[i]).1 <= (
                #[trigger] w[j]).1
        }),
    decreases lens.len() - start,
{
    lemma_window_end(lens, start, start, target);
    let end = window_end(lens, start, start, target);
    lemma_window_back(lens, start, end, end, overlap);
    let next = window_back(lens, start, end, end, overlap);
    let w = windows(lens, start, target, overlap);
    if end < lens.len() {
        law_windows_end_in_order(lens, next, target, overlap);
        law_windows_cover(lens, next, target, overlap);
        let rest = windows(lens, next, target, overlap);
        assert(w == seq![(start, end)] + rest);
        lemma_ends_in_order(lens, start, next, next, target);
        assert forall|i: int, j: int|
            0 <= i < w.len() && j == i + 1 && j < w.len() implies (#[trigger] w[i]).1 <= (
        #[trigger] w[j]).1 by {
            assert(w[j] == rest[j - 1]);
            if i > 0 {
                assert(w[i] == rest[i - 1]);
            }
        }
    }
}

/// Where any two neighbouring lines fit into the target, each window shares a
/// line with the next.
pub proof fn law_windows_overlap(lens: Seq<nat>, start: int, target: int, overlap: int)
    requires
        0 <= start < lens.len(),
        overlap > 0,
        forall|i: int, j: int|
            0 <= i < lens.len() && j == i + 1 && j < lens.len() ==> #[trigger] lens[i]
                + #[trigger] lens[j] + 2 <= target,
    ensures
        ({
            let w = windows(lens, start, target, overlap);
            forall|i: int, j: int|
                0 <= i < w.len() && j == i + 1 && j < w.len() ==> (#[trigger] w[j]).0 < (
                #[trigger] w[i]).1
        }),
    decreases lens.len() - start,
{
    lemma_window_end(lens, start, start, target);
    let end = window_end(lens, start, start, target);
    lemma_window_back(lens, start, end, end, overlap);
    let next = window_back(lens, start, end, end, overlap);
    let w = windows(lens, start, target, overlap);
    if end < lens.len() {
        law_windows_overlap(lens, next, target, overlap);
        law_windows_cover(lens, next, target, overlap);
        let rest = windows(lens, next, target, overlap);
        assert(w == seq![(start, end)] + rest);
        if end == start + 1 {
            assert(lens[start] + lens[start + 1] + 2 <= target);
            assert(span_len(lens, start, start + 2) == span_len(lens, start, start + 1)
                + lens[start + 1] + 1);
            assert(span_len(lens, start, start + 1) == span_len(lens, start, start) + lens[start]
                + 1);
            assert(false);
        }
        assert(span_len(lens, end, end) == 0);
        lemma_window_back(lens, start, end - 1, end, overlap);
        assert forall|i: int, j: int|
            0 <= i < w.len() && j == i + 1 && j < w.len() implies (#[trigger] w[j]).0 < (
        #[trigger] w[i]).1 by {
            assert(w[j] == rest[j - 1]);
            if i > 0 {
                assert(w[i] == rest[i - 1]);
            }
        }
    }
}

/// No window but the last reaches the last line.
pub proof fn law_only_the_last_window_ends_the_lines(
    lens: Seq<nat>,
    start: int,
    target: int,
    overlap: int,
)
    requires
        0 <= start < lens.len(),
    ensures
        ({
            let w = windows(lens, start, target, overlap);
            forall|i: int| 0 <= i < w.len() - 1 ==> (#[trigger] w[i]).1 < lens.len()
        }),
    decreases lens.len() - start,
{
    lemma_window_end(lens, start, start, target);
    let end = window_end(lens, start, start, target);
    lemma_window_back(lens, start, end, end, overlap);
    let next = window_back(lens, start, end, end, overlap);
    let w = windows(lens, start, target, overlap);
    if end < lens.len() {
        law_only_the_last_window_ends_the_lines(lens, next, target, overlap);
        let rest = windows(lens, next, target, overlap);
        assert forall|i: int| 0 <= i < w.len() - 1 implies (#[trigger] w[i]).1 < lens.len() by {
            if i > 0 {
                assert(w[i] == rest[i - 1]);
            }
        }
    }
}

/// Pairs of indices as mathematical ones.
pub open spec fn range_views(r: Seq<(usize, usize)>) -> Seq<(int, int)> {
    Seq::new(r.len(), |i: int| (r[i].0 as int, r[i].1 as int))
}

/// Greedy windows over `lines`: half-open ranges of line indices that cover
/// every line. A window stays within `target` bytes where more than one line
/// is in it, and neighbours share about `overlap` bytes.
pub fn window_line_ranges(lines: &Vec<String>, target: usize, overlap: usize) -> (r: Vec<
    (usize, usize),
>)
    ensures
        range_views(r@) == windows(
            line_lens(text::views(lines@)),
            0,
            target as int,
            overlap as int,
        ),
{
    let ghost lens = line_lens(text::views(lines@));
    let mut ranges: Vec<(usize, usize)> = Vec::new();
    if lines.len() == 0 {
        assert(range_views(ranges@) =~= windows(lens, 0, target as int, overlap as int));
        return ranges;
    }
    let mut start: usize = 0;
    assert(range_views(ranges@) + windows(lens, 0, target as int, overlap as int) =~= windows(
        lens,
        0,
        target as int,
        overlap as int,
    ));
    loop
        invariant
            lens == line_lens(text::views(lines@)),
            start < lines@.len(),
            windows(lens, 0, target as int, overlap as int) == range_views(ranges@) + windows(
                lens,
                start as int,
                target as int,
                overlap as int,
            ),
        decreases lines@.len() - start,
    {
        let ghost before = range_views(ranges@);
        let mut end: usize = start;
        let mut room: usize = target;
        while end < lines.len() && (end == start || byte_len(lines[end].as_str()) < room)
            invariant
                lens == line_lens(text::views(lines@)),
                start <= end <= lines@.len(),
                start < lines@.len(),
                window_end(lens, start as int, start as int, target as int) == window_end(
                    lens,
                    start as int,
                    end as int,
                    target as int,
                ),
                span_len(lens, start as int, end as int) <= target ==> room == target - span_len(
                    lens,
                    start as int,
                    end as int,
                ),
                span_len(lens, start as int, end as int) > target ==> room == 0,
                end == start ==> room == target,
            decreases lines@.len() - end,
        {
            let n: usize = byte_len(lines[end].as_str());
            proof {
                assert(lens[end as int] == n);
                assert(span_len(lens, start as int, end + 1) == span_len(
                    lens,
                    start as int,
                    end as int,
                ) + n + 1);
            }
            room = if n < room {
                room - n - 1
            } else {
                0
            };
            end = end + 1;
        }
        proof {
            if end < lines.len() {
                assert(lens[end as int] == text::utf8_len(lines@[end as int]@));
                assert(span_len(lens, start as int, end + 1) == span_len(
                    lens,
                    start as int,
                    end as int,
                ) + lens[end as int] + 1);
            }
            assert(end == window_end(lens, start as int, start as int, target as int));
            lemma_window_end(lens, start as int, start as int, target as int);
        }
        ranges.push((start, end));
        proof {
            assert(range_views(ranges@) =~= before + seq![(start as int, end as int)]);
        }
        if end >= lines.len() {
            assert(range_views(ranges@) =~= windows(lens, 0, target as int, overlap as int));
            return ranges;
        }
        let mut back: usize = end;
        let mut need: usize = overlap;
        while back > start + 1 && need > 0
            invariant
                lens == line_lens(text::views(lines@)),
                start < back <= end < lines@.len(),
                window_back(lens, start as int, end as int, end as int, overlap as int)
                    == window_back(
                    lens,
                    start as int,
                    back as int,
                    end as int,
                    overlap as int,
                ),
                span_len(lens, back as int, end as int) <= overlap ==> need == overlap - span_len(
                    lens,
                    back as int,
                    end as int,
                ),
                span_len(lens, back as int, end as int) > overlap ==> need == 0,
            decreases back,
        {
            back = back - 1;
            let n: usize = byte_len(lines[back].as_str());
            proof {
                assert(lens[back as int] == n);
                lemma_span_split(lens, back as int, back + 1, end as int);
                assert(span_len(lens, back as int, back + 1) == span_len(
                    lens,
                    back as int,
                    back as int,
                ) + lens[back as int] + 1);
            }
            need = if n < need {
                need - n - 1
            } else {
                0
            };
        }
        proof {
            assert(back == window_back(
                lens,
                start as int,
                end as int,
                end as int,
                overlap as int,
            ));
            assert(range_views(ranges@) + windows(
                lens,
                back as int,
                target as int,
                overlap as int,
            ) =~= before + windows(lens, start as int, target as int, overlap as int));
        }
        start = back;
    }
}

} // verus!
