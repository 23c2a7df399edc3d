//! The chunks of an ordinary file are fit to be rendered again.
use vstd::prelude::*;
use crate::lines;
use crate::memory::chunk::{ChunkView, MemorySource};
use crate::memory::chunking;
use crate::memory::coalesce;
use crate::memory::config::Score;
use crate::memory::consolidate;
use crate::memory::document;
use crate::memory::fixpoint;
use crate::memory::rejoin;
use crate::memory::render;
use crate::text;

verus! {

// ---------------------------------------------------------------------------
// Trimming lines without headings
// ---------------------------------------------------------------------------

/// Whether two lines are alike in what matters to sections.
pub open spec fn alike(a: Seq<char>, b: Seq<char>) -> bool {
    chunking::fence_line(a) == chunking::fence_line(b) && document::marks_heading(a)
        == document::marks_heading(b)
}

/// Lines that are alike are alike in their headings and code blocks.
proof fn lemma_alike(a: Seq<Seq<char>>, b: Seq<Seq<char>>, n: int)
    requires
        a.len() == b.len(),
        0 <= n <= a.len(),
        forall|i: int| 0 <= i < a.len() ==> alike(#[trigger] a[i], b[i]),
    ensures
        chunking::in_fence(a, n) == chunking::in_fence(b, n),
    decreases n,
{
    if n > 0 {
        lemma_alike(a, b, n - 1);
        assert(alike(a[n - 1], b[n - 1]));
    }
}

proof fn lemma_alike_is_quiet(a: Seq<Seq<char>>, b: Seq<Seq<char>>)
    requires
        document::quiet(a),
        lines::all_plain(b),
        a.len() == b.len(),
        forall|i: int| 0 <= i < a.len() ==> alike(#[trigger] a[i], b[i]),
    ensures
        document::quiet(b),
{
    lemma_alike(a, b, a.len() as int);
    assert forall|i: int| 0 <= i < b.len() implies !(#[trigger] chunking::heading_line(b, i)) by {
        lemma_alike(a, b, i);
        assert(alike(a[i], b[i]));
        assert(!chunking::heading_line(a, i));
    }
}

/// Trimming at the start again changes nothing.
proof fn lemma_trim_start_twice(s: Seq<char>)
    ensures
        text::trim_start(text::trim_start(s)) == text::trim_start(s),
    decreases s.len(),
{
    if s.len() > 0 && text::is_space(s[0]) {
        lemma_trim_start_twice(s.skip(1));
    }
}

/// Without white space at its end a line that is not blank is as before.
proof fn lemma_trim_end_alike(s: Seq<char>)
    requires
        !text::blank(s),
    ensures
        alike(s, text::trim_end(s)),
    decreases s.len(),
{
    if s.len() > 0 && text::is_space(s.last()) {
        let t = s.drop_last();
        assert(!text::blank(t)) by {
            let k = choose|k: int| 0 <= k < s.len() && !text::is_space(#[trigger] s[k]);
            assert(t[k] == s[k]);
        }
        lemma_trim_end_alike(t);
        lemma_trim_start_drop_last(s);
        let a = text::trim_start(s);
        let b = text::trim_start(t);
        text::lemma_trim_start_empty(t);
        assert(a.drop_last() == b);
        assert(a.last() == s.last());
        lemma_prefix_kept(a, seq!['`', '`', '`']);
        lemma_prefix_kept(a, seq!['~', '~', '~']);
        lemma_prefix_kept(a, seq!['#']);
    }
}

/// A prefix without white space stays when a last white space goes.
proof fn lemma_prefix_kept(a: Seq<char>, p: Seq<char>)
    requires
        a.len() > 0,
        text::is_space(a.last()),
        p.len() > 0,
        forall|i: int| 0 <= i < p.len() ==> !text::is_space(#[trigger] p[i]),
    ensures
        text::starts_with(a, p) == text::starts_with(a.drop_last(), p),
{
    let n = p.len() as int;
    if text::starts_with(a, p) {
        if n == a.len() {
            assert(a.take(n)[n - 1] == a.last());
            assert(p[n - 1] == a.last());
            assert(false);
        }
        assert(a.drop_last().take(n) =~= a.take(n));
    }
    if text::starts_with(a.drop_last(), p) {
        assert(a.drop_last().take(n) =~= a.take(n));
    }
}

proof fn lemma_trim_start_drop_last(s: Seq<char>)
    requires
        s.len() > 0,
        !text::blank(s.drop_last()),
    ensures
        text::trim_start(s).len() > 0,
        text::trim_start(s).drop_last() == text::trim_start(s.drop_last()),
        text::trim_start(s).last() == s.last(),
    decreases s.len(),
{
    if text::is_space(s[0]) {
        let t = s.skip(1);
        if s.len() == 1 {
            assert(s.drop_last() =~= Seq::<char>::empty());
            assert(false);
        }
        assert(t.drop_last() =~= s.drop_last().skip(1));
        assert(!text::blank(t.drop_last())) by {
            let k = choose|k: int|
                0 <= k < s.drop_last().len() && !text::is_space(#[trigger] s.drop_last()[k]);
            assert(t.drop_last()[k - 1] == s.drop_last()[k]);
        }
        assert(s.drop_last()[0] == s[0]);
        lemma_trim_start_drop_last(t);
    } else {
        assert(text::trim_start(s) == s);
        if s.len() == 1 {
            assert(s.drop_last() =~= Seq::<char>::empty());
            assert(false);
        }
        assert(s.drop_last()[0] == s[0]);
    }
}

/// A blank line neither opens a code block nor is a heading.
proof fn lemma_blank_line(l: Seq<char>)
    requires
        text::blank(l),
    ensures
        !chunking::fence_line(l),
        !document::marks_heading(l),
{
    text::lemma_trim_start_empty(l);
}

/// Trimming a text goes over white space at its start.
proof fn lemma_trim_skips_front(pad: Seq<char>, s: Seq<char>)
    requires
        text::blank(pad),
    ensures
        text::trim(pad + s) == text::trim(s),
        text::trim_start(pad + s) == text::trim_start(s),
    decreases pad.len(),
{
    if pad.len() > 0 {
        let less = pad.skip(1);
        assert forall|i: int| 0 <= i < less.len() implies text::is_space(#[trigger] less[i]) by {
            assert(less[i] == pad[i + 1]);
        }
        lemma_trim_skips_front(less, s);
        assert((pad + s)[0] == pad[0]);
        assert((pad + s).skip(1) =~= less + s);
    } else {
        assert(pad + s =~= s);
    }
}

/// Trimming a text goes over white space at its end.
proof fn lemma_trim_skips_back(s: Seq<char>, pad: Seq<char>)
    requires
        text::blank(pad),
    ensures
        text::trim_end(s + pad) == text::trim_end(s),
        text::trim(s + pad) == text::trim(s),
    decreases pad.len(),
{
    if pad.len() > 0 {
        let less = pad.drop_last();
        assert forall|i: int| 0 <= i < less.len() implies text::is_space(#[trigger] less[i]) by {
            assert(less[i] == pad[i]);
        }
        lemma_trim_skips_back(s, less);
        let t = s + pad;
        assert(t.last() == pad.last());
        assert(t.drop_last() =~= s + less);
        if text::blank(s) {
            lemma_both_blank(s, pad);
            lemma_both_blank(s, less);
        } else {
            assert(!text::blank(s + less)) by {
                let k = choose|k: int| 0 <= k < s.len() && !text::is_space(#[trigger] s[k]);
                assert((s + less)[k] == s[k]);
            }
            lemma_trim_start_drop_last(t);
            let a = text::trim_start(t);
            assert(text::is_space(a.last()));
            assert(text::trim_end(a) == text::trim_end(a.drop_last()));
        }
    } else {
        assert(s + pad =~= s);
    }
}

proof fn lemma_both_blank(a: Seq<char>, b: Seq<char>)
    requires
        text::blank(a),
        text::blank(b),
    ensures
        text::trim(a + b) == Seq::<char>::empty(),
        text::trim(a) == Seq::<char>::empty(),
{
    let t = a + b;
    assert forall|i: int| 0 <= i < t.len() implies text::is_space(#[trigger] t[i]) by {
        if i < a.len() {
            assert(t[i] == a[i]);
        } else {
            assert(t[i] == b[i - a.len()]);
        }
    }
    text::lemma_trim_start_empty(t);
    text::lemma_trim_start_empty(a);
    assert(text::trim_start(t) =~= Seq::<char>::empty());
    assert(text::trim_start(a) =~= Seq::<char>::empty());
}

/// A text is white space and what trimming at the start leaves.
proof fn lemma_start_split(s: Seq<char>) -> (pad: Seq<char>)
    ensures
        text::blank(pad),
        s == pad + text::trim_start(s),
    decreases s.len(),
{
    if s.len() > 0 && text::is_space(s[0]) {
        let less = lemma_start_split(s.skip(1));
        let pad = seq![s[0]] + less;
        assert forall|i: int| 0 <= i < pad.len() implies text::is_space(#[trigger] pad[i]) by {
            if i > 0 {
                assert(pad[i] == less[i - 1]);
            }
        }
        assert(s =~= seq![s[0]] + s.skip(1));
        assert(s =~= pad + text::trim_start(s));
        pad
    } else {
        assert(s =~= Seq::<char>::empty() + s);
        Seq::empty()
    }
}

/// A text is what trimming at the end leaves, and white space.
proof fn lemma_end_split(s: Seq<char>) -> (pad: Seq<char>)
    ensures
        text::blank(pad),
        s == text::trim_end(s) + pad,
    decreases s.len(),
{
    if s.len() > 0 && text::is_space(s.last()) {
        let less = lemma_end_split(s.drop_last());
        let pad = less.push(s.last());
        assert forall|i: int| 0 <= i < pad.len() implies text::is_space(#[trigger] pad[i]) by {
            if i < less.len() {
                assert(pad[i] == less[i]);
            }
        }
        assert(s =~= s.drop_last().push(s.last()));
        assert(s =~= text::trim_end(s) + pad);
        pad
    } else {
        assert(s =~= s + Seq::<char>::empty());
        Seq::empty()
    }
}

/// Lines without headings stay so without a first line that is blank.
proof fn lemma_quiet_tail(x: Seq<Seq<char>>)
    requires
        document::quiet(x),
        x.len() > 0,
        text::blank(x[0]),
    ensures
        document::quiet(x.skip(1)),
{
    let top = x.take(1);
    let rest = x.skip(1);
    assert(x =~= top + rest);
    lemma_blank_line(x[0]);
    assert(top[0] == x[0]);
    assert(!chunking::in_fence(top, 0));
    assert(!chunking::in_fence(top, 1));
    assert forall|i: int| 0 <= i < rest.len() implies lines::plain(#[trigger] rest[i]) by {
        assert(rest[i] == x[i + 1]);
    }
    assert forall|i: int| 0 <= i < rest.len() implies !(#[trigger] chunking::heading_line(
        rest,
        i,
    )) by {
        document::lemma_after(top, rest, i);
        assert(x[1 + i] == rest[i]);
        assert(!chunking::heading_line(x, 1 + i));
    }
    document::lemma_after(top, rest, rest.len() as int);
}

/// Lines without headings stay so without a last line that is blank.
proof fn lemma_quiet_front(x: Seq<Seq<char>>)
    requires
        document::quiet(x),
        x.len() > 0,
        text::blank(x.last()),
    ensures
        document::quiet(x.drop_last()),
{
    let front = x.drop_last();
    let end = seq![x.last()];
    assert(x =~= front + end);
    lemma_blank_line(x.last());
    assert forall|i: int| 0 <= i < front.len() implies lines::plain(#[trigger] front[i]) by {
        assert(front[i] == x[i]);
    }
    assert forall|i: int| 0 <= i < front.len() implies !(#[trigger] chunking::heading_line(
        front,
        i,
    )) by {
        document::lemma_before(front, end, i);
        assert(x[i] == front[i]);
        assert(!chunking::heading_line(x, i));
    }
    document::lemma_before(front, end, front.len() as int);
    assert(x[x.len() - 1] == x.last());
    assert(chunking::in_fence(x, x.len() as int) == chunking::in_fence(x, x.len() - 1));
}

/// Parts of a plain line without white space at its end are plain.
proof fn lemma_plain_parts(l: Seq<char>)
    requires
        lines::plain(l),
    ensures
        lines::plain(text::trim_start(l)),
        lines::plain(text::trim_end(l)),
        lines::plain(text::trim(l)),
{
    let a = lemma_start_split(l);
    let t = text::trim_start(l);
    assert forall|i: int| 0 <= i < t.len() implies #[trigger] t[i] != '\n' by {
        assert(l[a.len() + i] == t[i]);
    }
    if t.len() > 0 {
        assert(t.last() == l.last());
    }
    let b = lemma_end_split(l);
    let e = text::trim_end(l);
    assert forall|i: int| 0 <= i < e.len() implies #[trigger] e[i] != '\n' by {
        assert(l[i] == e[i]);
    }
    lines::lemma_trim_end_last(l);
    let c = lemma_end_split(t);
    let m = text::trim(l);
    assert forall|i: int| 0 <= i < m.len() implies #[trigger] m[i] != '\n' by {
        assert(t[i] == m[i]);
    }
    lines::lemma_trim_end_last(t);
}

/// Lines without headings, trimmed as one text, are a tidy text.
pub proof fn lemma_trimmed_lines(x: Seq<Seq<char>>)
    requires
        document::quiet(x),
    ensures
        fixpoint::tidy(text::trim(lines::joined(x))),
    decreases x.len(),
{
    let t = lines::joined(x);
    if x.len() == 0 {
        assert(t =~= Seq::<char>::empty());
        assert(text::trim(t) =~= t);
    } else if text::blank(x[0]) {
        if x.len() == 1 {
            assert(t =~= x[0]);
            lemma_both_blank(t, Seq::empty());
        } else {
            let rest = x.skip(1);
            lemma_quiet_tail(x);
            lemma_trimmed_lines(rest);
            assert(x =~= x.take(1) + rest);
            lines::lemma_join_concat(x.take(1), rest, seq!['\n']);
            assert(lines::joined(x.take(1)) =~= x[0]);
            let pad = x[0] + seq!['\n'];
            assert forall|i: int| 0 <= i < pad.len() implies text::is_space(
                #[trigger] pad[i],
            ) by {
                if i < x[0].len() {
                    assert(pad[i] == x[0][i]);
                }
            }
            lemma_trim_skips_front(pad, lines::joined(rest));
            assert(t =~= pad + lines::joined(rest));
        }
    } else if text::blank(x.last()) {
        let front = x.drop_last();
        lemma_quiet_front(x);
        lemma_trimmed_lines(front);
        let pad = seq!['\n'] + x.last();
        assert forall|i: int| 0 <= i < pad.len() implies text::is_space(#[trigger] pad[i]) by {
            if i > 0 {
                assert(pad[i] == x.last()[i - 1]);
            }
        }
        lemma_trim_skips_back(lines::joined(front), pad);
        assert(t =~= lines::joined(front) + pad);
    } else {
        lemma_trimmed_ends(x);
    }
}

/// The lines of a trimmed text, the first and the last of which are not blank.
proof fn lemma_trimmed_ends(x: Seq<Seq<char>>)
    requires
        document::quiet(x),
        x.len() > 0,
        !text::blank(x[0]),
        !text::blank(x.last()),
    ensures
        fixpoint::tidy(text::trim(lines::joined(x))),
{
    let t = lines::joined(x);
    let n = x.len() as int;
    let first = text::trim_start(x[0]);
    lemma_trim_start_twice(x[0]);
    text::lemma_trim_start_empty(x[0]);
    lines::lemma_trim_start_first(x[0]);
    lemma_plain_parts(x[0]);
    assert(alike(x[0], first));
    let lead = lemma_start_split(x[0]);
    if n == 1 {
        let b = text::trim(x[0]);
        assert(t =~= x[0]);
        assert(!text::blank(first)) by {
            assert(!text::is_space(first[0]));
        }
        lemma_trim_end_alike(first);
        assert(alike(x[0], b));
        text::lemma_trim_end_keeps_first(first);
        lines::lemma_trim_end_last(first);
        let y = seq![b];
        assert(lines::joined(y) =~= b);
        lemma_alike_is_quiet(x, y);
        lines::lemma_lines_of_joined(y);
    } else {
        let last = text::trim_end(x.last());
        lemma_trim_end_alike(x.last());
        lemma_plain_parts(x[n - 1]);
        lines::lemma_trim_end_last(x.last());
        let tail = lemma_end_split(x.last());
        assert(last.len() > 0) by {
            if last.len() == 0 {
                assert(x.last() =~= tail);
            }
        }
        let mid = x.subrange(1, n - 1);
        let y = seq![first] + mid + seq![last];
        assert forall|i: int| 0 <= i < n implies lines::plain(#[trigger] y[i]) && alike(
            x[i],
            y[i],
        ) by {
            if 0 < i < n - 1 {
                assert(y[i] == x[i]);
            }
        }
        lemma_alike_is_quiet(x, y);
        let b = lines::joined(y);
        lines::lemma_joined_ends(y, seq!['\n']);
        assert(lines::snug(b));
        lines::lemma_lines_of_joined(y);
        lines::lemma_trim_snug(b);
        // the text is the trimmed lines between white space
        let body = mid + seq![x.last()];
        let bare = mid + seq![last];
        assert(x =~= seq![x[0]] + body);
        assert(y =~= seq![first] + bare);
        lines::lemma_join_concat(seq![x[0]], body, seq!['\n']);
        lines::lemma_join_concat(seq![first], bare, seq!['\n']);
        assert(lines::joined(seq![x[0]]) =~= x[0]);
        assert(lines::joined(seq![first]) =~= first);
        assert(lines::joined(body) == lines::joined(bare) + tail) by {
            if mid.len() > 0 {
                lines::lemma_join_concat(mid, seq![x.last()], seq!['\n']);
                lines::lemma_join_concat(mid, seq![last], seq!['\n']);
                assert(lines::joined(seq![x.last()]) =~= x.last());
                assert(lines::joined(seq![last]) =~= last);
                assert(lines::joined(mid) + seq!['\n'] + (last + tail) =~= lines::joined(mid)
                    + seq!['\n'] + last + tail);
            } else {
                assert(body =~= seq![x.last()]);
                assert(bare =~= seq![last]);
                assert(lines::joined(body) =~= x.last());
                assert(lines::joined(bare) =~= last);
            }
        }
        assert(t =~= lead + (b + tail));
        lemma_trim_skips_front(lead, b + tail);
        lemma_trim_skips_back(b, tail);
    }
}

// ---------------------------------------------------------------------------
// Chunks of sections
// ---------------------------------------------------------------------------

proof fn lemma_strip_marks(g: Seq<char>, pad: Seq<char>)
    requires
        text::blank(pad),
    ensures
        text::trim_start_char(g + pad, '#') == text::trim_start_char(g, '#') + pad,
    decreases g.len(),
{
    let s = g + pad;
    if g.len() == 0 {
        assert(s =~= pad);
        assert(text::trim_start_char(g, '#') =~= Seq::<char>::empty());
        if pad.len() > 0 {
            assert(text::is_space(pad[0]));
        }
        assert(text::trim_start_char(pad, '#') =~= pad);
        assert(Seq::<char>::empty() + pad =~= pad);
    } else if g[0] == '#' {
        lemma_strip_marks(g.skip(1), pad);
        assert(s[0] == g[0]);
        assert(s.skip(1) =~= g.skip(1) + pad);
    } else {
        assert(s[0] == g[0]);
    }
}

/// White space around a heading line does not change what it says.
proof fn lemma_heading_trimmed(l: Seq<char>)
    requires
        document::marks_heading(l),
    ensures
        chunking::heading_text(text::trim(l)) == chunking::heading_text(l),
        chunking::heading_text(text::trim_start(l)) == chunking::heading_text(l),
        document::marks_heading(text::trim(l)),
        document::marks_heading(text::trim_start(l)),
        text::trim(l).len() > 0,
        text::trim(chunking::heading_text(l)) == chunking::heading_text(l),
{
    let f = text::trim_start(l);
    lemma_trim_start_twice(l);
    assert(f.take(1)[0] == '#');
    assert(f[0] == '#');
    let g = text::trim_end(f);
    text::lemma_trim_end_keeps_first(f);
    let pad = lemma_end_split(f);
    lemma_strip_marks(g, pad);
    assert(text::trim_start(g) == g);
    lemma_trim_skips_back(text::trim_start_char(g, '#'), pad);
    assert(g.take(1) =~= seq!['#']);
    let raw = text::trim_start_char(f, '#');
    lines::lemma_trimmed_is_snug(raw);
    let h = text::trim(raw);
    if h.len() > 0 {
        lines::lemma_trim_snug(h);
    } else {
        assert(text::trim(h) =~= h);
    }
}

proof fn lemma_trim_after_trim_end(s: Seq<char>)
    ensures
        text::trim(text::trim_end(s)) == text::trim(s),
{
    let pad = lemma_end_split(s);
    lemma_trim_skips_back(text::trim_end(s), pad);
}

/// Trimming at the end stays within what follows a line, where that is not
/// blank.
proof fn lemma_trim_end_within(a: Seq<char>, s: Seq<char>)
    requires
        !text::blank(s),
    ensures
        text::trim_end(a + s) == a + text::trim_end(s),
        text::trim_end(s).len() > 0,
    decreases s.len(),
{
    let t = a + s;
    assert(t.last() == s.last());
    if text::is_space(s.last()) {
        let less = s.drop_last();
        assert(!text::blank(less)) by {
            let k = choose|k: int| 0 <= k < s.len() && !text::is_space(#[trigger] s[k]);
            assert(less[k] == s[k]);
        }
        lemma_trim_end_within(a, less);
        assert(t.drop_last() =~= a + less);
    }
}

/// A heading line and lines without headings are a proper chunk.
proof fn lemma_headed_chunk(c: ChunkView, line: Seq<char>, rest: Seq<Seq<char>>)
    requires
        lines::plain(line),
        document::marks_heading(line),
        document::quiet(rest),
        c.heading == Some(chunking::heading_text(line)),
        c.text == lines::joined(seq![line] + rest),
    ensures
        fixpoint::proper(c),
{
    let h = chunking::heading_text(line);
    let f = text::trim_start(line);
    let t = text::trim(c.text);
    lemma_heading_trimmed(line);
    lemma_plain_parts(line);
    let lead = lemma_start_split(line);
    let r = lines::joined(rest);
    lemma_trimmed_lines(rest);
    let after = if rest.len() == 0 {
        Seq::empty()
    } else {
        seq!['\n'] + r
    };
    assert(c.text =~= line + after) by {
        if rest.len() == 0 {
            assert(seq![line] + rest =~= seq![line]);
            assert(lines::joined(seq![line]) =~= line);
        } else {
            lines::lemma_join_concat(seq![line], rest, seq!['\n']);
            assert(lines::joined(seq![line]) =~= line);
        }
    }
    assert(c.text =~= lead + (f + after));
    lemma_trim_skips_front(lead, f + after);
    assert(f.take(1)[0] == '#');
    assert(f[0] == '#');
    assert((f + after)[0] == '#');
    assert(text::trim_start(f + after) == f + after);
    assert(t == text::trim_end(f + after));
    lines::lemma_trimmed_is_snug(line);
    let bare = text::trim(line);
    assert(bare == text::trim_end(f));
    lines::lemma_trim_snug(bare);
    if text::blank(r) || rest.len() == 0 {
        assert(text::blank(after)) by {
            assert forall|i: int| 0 <= i < after.len() implies text::is_space(
                #[trigger] after[i],
            ) by {
                if i > 0 {
                    assert(after[i] == r[i - 1]);
                }
            }
        }
        lemma_trim_skips_back(f, after);
        assert(t == bare);
        lines::lemma_find_after_line(bare, Seq::empty(), 0);
        assert(render::first_line(t) =~= bare);
        assert(text::trim(Seq::<char>::empty()) =~= Seq::<char>::empty());
        let y = seq![bare];
        assert(lines::joined(y) =~= bare);
        lines::lemma_lines_of_joined(y);
        assert(render::body(c).len() == 0);
    } else {
        assert(!text::blank(after)) by {
            let k = choose|k: int| 0 <= k < r.len() && !text::is_space(#[trigger] r[k]);
            assert(after[k + 1] == r[k]);
        }
        let e = text::trim_end(r);
        lemma_trim_end_within(seq!['\n'], r);
        lemma_trim_end_within(f, after);
        assert(t =~= f + seq!['\n'] + e);
        lines::lemma_find_after_line(f, e, 0);
        assert(t.take(f.len() as int) =~= f);
        assert(t.skip(f.len() as int + 1) =~= e);
        lemma_trim_after_trim_end(r);
        lines::lemma_lines_front(f, e);
        assert(text::lines(t)[0] == f);
        assert(text::trim(f) == bare);
    }
}

/// What is joined of a section of a file is a proper chunk.
proof fn lemma_whole_section_proper(c: ChunkView, block: Seq<Seq<char>>)
    requires
        block.len() > 0,
        document::headed(block) || document::quiet(block),
        c.heading == document::heading_of(block),
        rejoin::covers(c, block, block.len() as int),
    ensures
        fixpoint::proper(c),
{
    let n = block.len() as int;
    assert(block.take(n) =~= block);
    assert(block.take(n - 1) =~= block.drop_last());
    let whole = c.text == lines::joined(block);
    if document::headed(block) {
        let line = block[0];
        let rest = block.skip(1);
        if whole {
            assert(block =~= seq![line] + rest);
            lemma_headed_chunk(c, line, rest);
        } else {
            assert(n > 1) by {
                if n == 1 {
                    assert(text::trim_start(line) =~= line);
                }
            }
            assert(rest.last() == block.last());
            assert(block[n - 1] == block.last());
            lemma_quiet_front(rest);
            assert(block.drop_last() =~= seq![line] + rest.drop_last());
            lemma_headed_chunk(c, line, rest.drop_last());
        }
    } else if whole {
        lemma_trimmed_lines(block);
    } else {
        assert(block[n - 1] == block.last());
        lemma_quiet_front(block);
        lemma_trimmed_lines(block.drop_last());
    }
}

// ---------------------------------------------------------------------------
// Files
// ---------------------------------------------------------------------------

/// Where the section before line `n` starts.
pub open spec fn section_start(ls: Seq<Seq<char>>, n: int) -> int {
    let h = chunking::last_heading(ls, n);
    if h < 0 {
        0
    } else {
        h
    }
}

/// Whether a file has lines that can be read back, closes its code blocks, and
/// every section of it can be joined again from its windows.
pub open spec fn ordinary(ls: Seq<Seq<char>>) -> bool {
    &&& lines::all_plain(ls)
    &&& !chunking::in_fence(ls, ls.len() as int)
    &&& forall|n: int|
        0 <= n <= ls.len() && (n == ls.len() || chunking::heading_line(ls, n)) ==> rejoin::rejoins(
            ls.subrange(#[trigger] section_start(ls, n), n),
        )
}

/// Between two headings of a file stand lines without headings.
proof fn lemma_section_block(ls: Seq<Seq<char>>, n: int)
    requires
        ordinary(ls),
        0 <= n <= ls.len(),
        n == ls.len() || chunking::heading_line(ls, n),
        section_start(ls, n) < n,
    ensures
        ({
            let block = ls.subrange(section_start(ls, n), n);
            &&& document::headed(block) || document::quiet(block)
            &&& chunking::section_heading(ls, chunking::last_heading(ls, n))
                == document::heading_of(block)
            &&& lines::all_plain(block)
        }),
{
    let h = chunking::last_heading(ls, n);
    let a = section_start(ls, n);
    let block = ls.subrange(a, n);
    chunking::lemma_last_heading(ls, n);
    lemma_no_heading_since(ls, n);
    assert(!chunking::in_fence(ls, n));
    assert(!chunking::in_fence(ls, a));
    let front = ls.take(a);
    let upto = ls.take(n);
    assert(ls =~= upto + ls.skip(n));
    document::lemma_before(upto, ls.skip(n), n);
    assert(upto =~= front + block);
    document::lemma_before(upto, ls.skip(n), a);
    document::lemma_before(front, block, a);
    assert forall|i: int| 0 <= i < block.len() implies lines::plain(#[trigger] block[i]) by {
        assert(block[i] == ls[a + i]);
    }
    assert forall|i: int|
        0 <= i < block.len() && (h < 0 || i > 0) implies !(#[trigger] chunking::heading_line(
        block,
        i,
    )) by {
        document::lemma_after(front, block, i);
        document::lemma_before(upto, ls.skip(n), a + i);
        assert(block[i] == ls[a + i]);
        assert(!chunking::heading_line(ls, a + i));
    }
    document::lemma_after(front, block, block.len() as int);
    if h < 0 {
        if document::headed(block) {
            document::lemma_headed(block);
            assert(!chunking::heading_line(block, 0));
        }
    } else {
        assert(block[0] == ls[h]);
        let top = block.take(1);
        let rest = block.skip(1);
        assert(block =~= top + rest);
        document::lemma_mark_is_no_fence(ls[h]);
        assert(top[0] == block[0]);
        assert(!chunking::in_fence(top, 0));
        assert(!chunking::in_fence(top, 1));
        assert forall|i: int| 0 <= i < rest.len() implies lines::plain(#[trigger] rest[i]) by {
            assert(rest[i] == block[i + 1]);
        }
        assert forall|i: int| 0 <= i < rest.len() implies !(#[trigger] chunking::heading_line(
            rest,
            i,
        )) by {
            document::lemma_after(top, rest, i);
            assert(block[1 + i] == rest[i]);
            assert(!chunking::heading_line(block, 1 + i));
        }
        document::lemma_after(top, rest, rest.len() as int);
        assert(document::headed(block));
    }
}

proof fn lemma_no_heading_since(ls: Seq<Seq<char>>, n: int)
    requires
        0 <= n <= ls.len(),
    ensures
        forall|i: int|
            chunking::last_heading(ls, n) < i < n && 0 <= i ==> !(#[trigger] chunking::heading_line(
                ls,
                i,
            )),
    decreases n,
{
    if n > 0 && !chunking::heading_line(ls, n - 1) {
        lemma_no_heading_since(ls, n - 1);
    }
}

proof fn lemma_closed_proper(
    ls: Seq<Seq<char>>,
    n: int,
    source: MemorySource,
    path: Seq<char>,
)
    requires
        ordinary(ls),
        0 <= n <= ls.len(),
    ensures
        ({
            let e = chunking::closed_chunks(ls, n, source, path);
            let w = coalesce::coalesced(e, e.len() as int);
            &&& fixpoint::all_proper(w)
            &&& w.len() > 0 ==> w.last().line_end <= chunking::last_heading(ls, n)
            &&& chunking::last_heading(ls, n) < 0 ==> e.len() == 0
        }),
    decreases n,
{
    if n > 0 {
        lemma_closed_proper(ls, n - 1, source, path);
        if chunking::heading_line(ls, n - 1) {
            chunking::lemma_last_heading(ls, n - 1);
            let done = chunking::closed_chunks(ls, n - 1, source, path);
            lemma_one_more_section(ls, n - 1, source, path, done);
        }
    } else {
        assert(coalesce::coalesced(Seq::<ChunkView>::empty(), 0) =~= Seq::<ChunkView>::empty());
    }
}

/// A further section adds a proper chunk, or none.
proof fn lemma_one_more_section(
    ls: Seq<Seq<char>>,
    n: int,
    source: MemorySource,
    path: Seq<char>,
    done: Seq<ChunkView>,
)
    requires
        ordinary(ls),
        0 <= n <= ls.len(),
        n == ls.len() || chunking::heading_line(ls, n),
        ({
            let w = coalesce::coalesced(done, done.len() as int);
            &&& fixpoint::all_proper(w)
            &&& w.len() > 0 ==> w.last().line_end <= chunking::last_heading(ls, n)
            &&& chunking::last_heading(ls, n) < 0 ==> done.len() == 0
        }),
    ensures
        ({
            let h = chunking::last_heading(ls, n);
            let e = done + chunking::section_chunks(ls, h, n, source, path, done.len() as int);
            let w = coalesce::coalesced(e, e.len() as int);
            &&& fixpoint::all_proper(w)
            &&& w.len() > 0 ==> w.last().line_end <= n
        }),
{
    let h = chunking::last_heading(ls, n);
    let a = section_start(ls, n);
    chunking::lemma_last_heading(ls, n);
    let base = done.len() as int;
    let more = chunking::section_chunks(ls, h, n, source, path, base);
    let wd = coalesce::coalesced(done, done.len() as int);
    if chunking::blank_lines(ls, a, n) {
        assert(done + more =~= done);
        if wd.len() > 0 && done.len() == 0 {
            assert(wd =~= Seq::<ChunkView>::empty());
        }
    } else {
        if a == n {
            assert(ls.subrange(a, n) =~= Seq::<Seq<char>>::empty());
            assert(false);
        }
        lemma_section_block(ls, n);
        rejoin::law_a_section_is_whole_again(ls, h, n, source, path, base);
        let j = coalesce::coalesced(more, more.len() as int);
        lemma_whole_section_proper(j[0], ls.subrange(a, n));
        if done.len() > 0 {
            document::lemma_coalesced_not_empty(done, done.len() as int);
        }
        document::lemma_coalesced_apart(done, more, more.len() as int);
        let w = wd + j;
        assert forall|i: int| 0 <= i < w.len() implies fixpoint::proper(#[trigger] w[i]) by {
            if i < wd.len() {
                assert(w[i] == wd[i]);
            } else {
                assert(w[i] == j[0]);
            }
        }
        assert(w.last() == j[0]);
    }
}

/// The chunks of an ordinary file, their windows joined, are fit to be rendered
/// again.
pub proof fn law_chunks_of_an_ordinary_file_are_proper(
    ls: Seq<Seq<char>>,
    source: MemorySource,
    path: Seq<char>,
)
    requires
        ordinary(ls),
    ensures
        ({
            let cs = chunking::chunks(ls, source, path);
            fixpoint::all_proper(coalesce::coalesced(cs, cs.len() as int))
        }),
{
    let n = ls.len() as int;
    lemma_closed_proper(ls, n, source, path);
    lemma_one_more_section(ls, n, source, path, chunking::closed_chunks(ls, n, source, path));
}

// ---------------------------------------------------------------------------
// Passes
// ---------------------------------------------------------------------------

proof fn lemma_selected_proper(cs: Seq<ChunkView>, n: int)
    requires
        fixpoint::all_proper(cs),
        0 <= n <= cs.len(),
    ensures
        fixpoint::all_proper(consolidate::curated_only(cs, n)),
        fixpoint::all_proper(consolidate::daily_only(cs, n)),
        fixpoint::all_proper(consolidate::distinct(cs, n)),
    decreases n,
{
    if n > 0 {
        lemma_selected_proper(cs, n - 1);
        assert(fixpoint::proper(cs[n - 1]));
    }
}

proof fn lemma_promoted_proper(
    daily: Seq<ChunkView>,
    scores: Seq<Score>,
    kept: Seq<ChunkView>,
    ks: Seq<Seq<char>>,
    m: int,
)
    requires
        fixpoint::all_proper(daily),
        scores.len() == daily.len(),
        0 <= m <= ks.len(),
        forall|i: int|
            0 <= i < ks.len() ==> consolidate::promoted_keys(
                daily,
                scores,
                kept,
                daily.len() as int,
            ).contains(#[trigger] ks[i]),
    ensures
        fixpoint::all_proper(consolidate::promoted(daily, scores, kept, ks, m)),
    decreases m,
{
    if m > 0 {
        lemma_promoted_proper(daily, scores, kept, ks, m - 1);
        let n = daily.len() as int;
        let k = ks[m - 1];
        consolidate::lemma_promoted_keys(daily, scores, kept, n, k);
        consolidate::law_promotions_are_the_best_eligible(daily, scores, kept, n, k);
        let b = consolidate::best(daily, scores, kept, n, k);
        assert(fixpoint::proper(daily[b->0]));
        let c = consolidate::as_curated(daily[b->0]);
        assert(render::body(c) == render::body(daily[b->0]));
        assert(render::opening_line(c) == render::opening_line(daily[b->0]));
        assert(fixpoint::proper(c));
    }
}

proof fn lemma_survivors_proper(cs: Seq<ChunkView>, scores: Seq<Score>, budget: int)
    requires
        fixpoint::all_proper(cs),
        scores.len() == cs.len(),
    ensures
        fixpoint::all_proper(consolidate::survivors(cs, scores, budget)),
        !consolidate::over_budget(consolidate::survivors(cs, scores, budget), budget),
    decreases cs.len(),
{
    if consolidate::over_budget(cs, budget) {
        let w = consolidate::least(scores, cs.len() as int);
        consolidate::lemma_least(scores, cs.len() as int);
        let rest = cs.remove(w);
        assert forall|i: int| 0 <= i < rest.len() implies fixpoint::proper(#[trigger] rest[i]) by {
            if i < w {
                assert(rest[i] == cs[i]);
            } else {
                assert(rest[i] == cs[i + 1]);
            }
        }
        lemma_survivors_proper(rest, scores.remove(w), budget);
    }
}

/// A pass over chunks that are fit to be rendered again leaves such chunks, and
/// where it evicts, they fit the budget or are a single one.
pub proof fn law_a_pass_keeps_chunks_proper(
    cs: Seq<ChunkView>,
    index: Seq<ChunkView>,
    daily_scores: Seq<Score>,
    curated_scores: Seq<Score>,
    evict: bool,
    budget: int,
)
    requires
        fixpoint::all_proper(consolidate::whole(cs)),
        daily_scores.len() == consolidate::daily_of(cs).len(),
        evict ==> curated_scores.len() == consolidate::kept_of(cs).len() + consolidate::added_of(
            cs,
            daily_scores,
        ).len(),
    ensures
        ({
            let p = consolidate::pass(cs, index, daily_scores, curated_scores, evict, budget);
            &&& fixpoint::all_proper(p.curated)
            &&& evict ==> !consolidate::over_budget(p.curated, budget)
        }),
{
    let w = consolidate::whole(cs);
    lemma_selected_proper(w, w.len() as int);
    let cur = consolidate::curated_only(w, w.len() as int);
    lemma_selected_proper(cur, cur.len() as int);
    let kept = consolidate::kept_of(cs);
    let daily = consolidate::daily_of(cs);
    let ks = consolidate::promoted_keys(daily, daily_scores, kept, daily.len() as int);
    lemma_promoted_proper(daily, daily_scores, kept, ks, ks.len() as int);
    let added = consolidate::added_of(cs, daily_scores);
    let both = kept + added;
    assert forall|i: int| 0 <= i < both.len() implies fixpoint::proper(#[trigger] both[i]) by {
        if i < kept.len() {
            assert(both[i] == kept[i]);
        } else {
            assert(both[i] == added[i - kept.len()]);
        }
    }
    if evict {
        lemma_survivors_proper(both, curated_scores, budget);
    }
}

} // verus!
