//! Edits of Markdown files: a text under a heading, and an appended text.
use vstd::prelude::*;
use vstd::string::*;
use crate::lines;
use crate::memory::strata;
use crate::memory::strata::Stratum;
use crate::text;
use crate::text::{
    chars_of,
    is_blank,
    join_all,
    lines_of,
    same_text,
    text_starts_with,
    trim_end_text,
};

verus! {

/// The first line at or after `from` that is `heading`, but for white space at
/// its end; the number of lines if there is none.
pub open spec fn find_heading(ls: Seq<Seq<char>>, from: int, heading: Seq<char>) -> int
    decreases ls.len() - from,
{
    if from >= ls.len() {
        ls.len() as int
    } else if text::trim_end(ls[from]) == heading {
        from
    } else {
        find_heading(ls, from + 1, heading)
    }
}

/// The first line at or after `from` that begins with `## `, or the number of
/// lines.
pub open spec fn next_section(ls: Seq<Seq<char>>, from: int) -> int
    decreases ls.len() - from,
{
    if from >= ls.len() {
        ls.len() as int
    } else if text::starts_with(ls[from], seq!['#', '#', ' ']) {
        from
    } else {
        next_section(ls, from + 1)
    }
}

/// The end of the section of heading line `h` that ends before line `e`, when
/// its trailing blank lines are left out.
pub open spec fn body_end(ls: Seq<Seq<char>>, h: int, e: int) -> int
    decreases e,
{
    if e > h + 1 && e > 0 && text::blank(ls[e - 1]) {
        body_end(ls, h, e - 1)
    } else {
        e
    }
}

/// The lines after `added` is put at the end of the section of heading line `h`.
pub open spec fn with_added(ls: Seq<Seq<char>>, h: int, added: Seq<char>) -> Seq<Seq<char>> {
    let e = next_section(ls, h + 1);
    let kept = ls.take(body_end(ls, h, e)).push(added);
    if e < ls.len() {
        kept.push(Seq::empty()) + ls.skip(e)
    } else {
        kept
    }
}

/// `content` with `added` at the end of the section of that heading; a new
/// section at the end of the file where the heading is absent.
pub open spec fn inserted(content: Seq<char>, heading: Seq<char>, added: Seq<char>) -> Seq<char> {
    let t = text::trim_end(added);
    let ls = text::lines(content);
    let h = find_heading(ls, 0, heading);
    if h >= ls.len() {
        let base = text::trim_end(content);
        (if base.len() == 0 {
            base
        } else {
            base + seq!['\n', '\n']
        }) + heading + seq!['\n'] + t + seq!['\n']
    } else {
        text::join(with_added(ls, h, t), seq!['\n']) + seq!['\n']
    }
}

proof fn lemma_edit_bounds(ls: Seq<Seq<char>>, from: int, heading: Seq<char>)
    requires
        0 <= from <= ls.len(),
    ensures
        from <= find_heading(ls, from, heading) <= ls.len(),
        from <= next_section(ls, from) <= ls.len(),
    decreases ls.len() - from,
{
    if from < ls.len() {
        lemma_edit_bounds(ls, from + 1, heading);
    }
}

proof fn lemma_body_end(ls: Seq<Seq<char>>, h: int, e: int)
    requires
        0 <= h < e <= ls.len(),
    ensures
        h < body_end(ls, h, e) <= e,
        forall|i: int| body_end(ls, h, e) <= i < e ==> text::blank(#[trigger] ls[i]),
    decreases e,
{
    if e > h + 1 && text::blank(ls[e - 1]) {
        lemma_body_end(ls, h, e - 1);
    }
}

proof fn lemma_join_prefix(parts: Seq<Seq<char>>, sep: Seq<char>, n: int)
    requires
        0 < n <= parts.len(),
    ensures
        text::join(parts.take(n), sep).is_prefix_of(text::join(parts, sep)),
    decreases parts.len(),
{
    if n < parts.len() {
        lemma_join_prefix(parts.drop_last(), sep, n);
        assert(parts.drop_last().take(n) =~= parts.take(n));
    } else {
        assert(parts.take(n) =~= parts);
    }
}

proof fn lemma_join_suffix(parts: Seq<Seq<char>>, sep: Seq<char>, n: int)
    requires
        0 <= n < parts.len(),
    ensures
        text::join(parts.skip(n), sep).is_suffix_of(text::join(parts, sep)),
    decreases parts.len(),
{
    let rest = parts.skip(n);
    if rest.len() == 1 {
        assert(rest[0] == parts.last());
    } else {
        lemma_join_suffix(parts.drop_last(), sep, n);
        assert(parts.drop_last().skip(n) =~= rest.drop_last());
        let a = text::join(parts.drop_last(), sep);
        let b = text::join(rest.drop_last(), sep);
        assert(a =~= a.take(a.len() - b.len()) + b);
        assert(text::join(parts, sep) =~= a.take(a.len() - b.len()) + text::join(rest, sep));
    }
}

/// A text put under an existing heading follows the lines of its section, whose
/// text and all before it stay a prefix of the file, and the sections that
/// follow stay its suffix; only blank lines at the section's end are dropped.
pub proof fn law_insert_keeps_other_sections(
    content: Seq<char>,
    heading: Seq<char>,
    added: Seq<char>,
)
    requires
        find_heading(text::lines(content), 0, heading) < text::lines(content).len(),
    ensures
        ({
            let ls = text::lines(content);
            let h = find_heading(ls, 0, heading);
            let e = next_section(ls, h + 1);
            let b = body_end(ls, h, e);
            let out = inserted(content, heading, added);
            &&& 0 <= h < b <= e <= ls.len()
            &&& forall|i: int| b <= i < e ==> text::blank(#[trigger] ls[i])
            &&& (text::join(ls.take(b), seq!['\n']) + seq!['\n'] + text::trim_end(
                added,
            )).is_prefix_of(out)
            &&& e < ls.len() ==> (text::join(ls.skip(e), seq!['\n']) + seq!['\n']).is_suffix_of(out)
        }),
{
    let sep = seq!['\n'];
    let ls = text::lines(content);
    let t = text::trim_end(added);
    let h = find_heading(ls, 0, heading);
    lemma_edit_bounds(ls, 0, heading);
    lemma_edit_bounds(ls, h + 1, heading);
    let e = next_section(ls, h + 1);
    lemma_body_end(ls, h, e);
    let b = body_end(ls, h, e);
    let kept = ls.take(b).push(t);
    let all = with_added(ls, h, t);
    text::lemma_join_push(ls.take(b), sep, t);
    assert(text::join(kept, sep) == text::join(ls.take(b), sep) + sep + t);
    assert(all.take(b + 1) =~= kept);
    lemma_join_prefix(all, sep, b + 1);
    let out = inserted(content, heading, added);
    assert(text::join(kept, sep).is_prefix_of(out));
    if e < ls.len() {
        assert(all.skip(b + 2) =~= ls.skip(e));
        lemma_join_suffix(all, sep, b + 2);
        let j = text::join(all, sep);
        let s = text::join(ls.skip(e), sep);
        assert(j =~= j.take(j.len() - s.len()) + s);
        assert(out =~= j.take(j.len() - s.len()) + (s + sep));
    }
}

/// Puts `added` at the end of the section of that heading, and creates the
/// section at the end of the file where the heading is absent. A section runs
/// to the next line that begins with `## `.
pub fn insert_under_heading(content: &str, heading: &str, added: &str) -> (r: String)
    ensures
        r@ == inserted(content@, heading@, added@),
{
    let t: String = trim_end_text(added);
    let ls: Vec<String> = lines_of(content);
    let ghost lv = text::views(ls@);
    proof {
        reveal_strlit("\n");
        assert("\n"@ =~= seq!['\n']);
        reveal_strlit("\n\n");
        assert("\n\n"@ =~= seq!['\n', '\n']);
        reveal_strlit("## ");
        assert("## "@ =~= seq!['#', '#', ' ']);
        lemma_edit_bounds(lv, 0, heading@);
    }
    let mut h: usize = 0;
    while h < ls.len()
        invariant
            h <= ls@.len(),
            lv == text::views(ls@),
            find_heading(lv, 0, heading@) == find_heading(lv, h as int, heading@),
        ensures
            h <= ls@.len(),
            h == find_heading(lv, 0, heading@),
        decreases ls@.len() - h,
    {
        let trimmed: String = trim_end_text(ls[h].as_str());
        assert(lv[h as int] == ls@[h as int]@);
        if same_text(trimmed.as_str(), heading) {
            break;
        }
        h = h + 1;
    }
    if h == ls.len() {
        let mut out: String = trim_end_text(content);
        let ghost base = out@;
        if !out.as_str().is_empty() {
            out.append("\n\n");
        }
        out.append(heading);
        out.append("\n");
        out.append(t.as_str());
        out.append("\n");
        return out;
    }
    let mut e: usize = h + 1;
    while e < ls.len() && !text_starts_with(ls[e].as_str(), "## ")
        invariant
            h < e <= ls@.len(),
            lv == text::views(ls@),
            "## "@ == seq!['#', '#', ' '],
            next_section(lv, h + 1) == next_section(lv, e as int),
        decreases ls@.len() - e,
    {
        assert(lv[e as int] == ls@[e as int]@);
        e = e + 1;
    }
    proof {
        if e < ls.len() {
            assert(lv[e as int] == ls@[e as int]@);
        }
        assert(e == next_section(lv, h + 1));
    }
    let mut b: usize = e;
    while b > h + 1 && is_blank(ls[b - 1].as_str())
        invariant
            h < b <= e <= ls@.len(),
            lv == text::views(ls@),
            body_end(lv, h as int, e as int) == body_end(lv, h as int, b as int),
        decreases b,
    {
        assert(lv[b - 1] == ls@[b - 1]@);
        b = b - 1;
    }
    proof {
        if b > h + 1 {
            assert(lv[b - 1] == ls@[b - 1]@);
        }
        assert(b == body_end(lv, h as int, e as int));
    }
    let mut out: Vec<String> = Vec::new();
    let mut i: usize = 0;
    while i < b
        invariant
            i <= b <= ls@.len(),
            out@ == ls@.take(i as int),
        decreases b - i,
    {
        out.push(ls[i].clone());
        i = i + 1;
        assert(out@ =~= ls@.take(i as int));
    }
    out.push(t);
    proof {
        assert(text::views(out@) =~= lv.take(b as int).push(text::trim_end(added@)));
    }
    if e < ls.len() {
        out.push(String::new());
        let ghost kept = out@;
        let mut j: usize = e;
        while j < ls.len()
            invariant
                e <= j <= ls@.len(),
                out@ == kept + ls@.subrange(e as int, j as int),
            decreases ls@.len() - j,
        {
            out.push(ls[j].clone());
            j = j + 1;
            assert(out@ =~= kept + ls@.subrange(e as int, j as int));
        }
        proof {
            assert(text::views(kept) =~= lv.take(b as int).push(text::trim_end(added@)).push(
                Seq::empty(),
            ));
            assert(text::views(out@) =~= with_added(lv, h as int, text::trim_end(added@)));
        }
    }
    proof {
        assert(text::views(out@) =~= with_added(lv, h as int, text::trim_end(added@)));
    }
    let mut joined: String = join_all(&out, "\n");
    joined.append("\n");
    joined
}

/// The curated file after `added` is written under the heading of `stratum`.
pub fn write_curated_stratum(existing: &str, added: &str, stratum: Stratum) -> (r: String)
    ensures
        r@ == inserted(existing@, strata::stratum_line(stratum), added@),
{
    insert_under_heading(existing, stratum.heading(), added)
}

/// What a write appends to a file: a line feed first where the file does not
/// end with one, then the text without white space at its end, and a line feed.
pub open spec fn appended(existing: Seq<char>, added: Seq<char>) -> Seq<char> {
    (if existing.len() > 0 && existing.last() != '\n' {
        seq!['\n']
    } else {
        Seq::empty()
    }) + text::trim_end(added) + seq!['\n']
}

/// What writing `added` appends to a file that holds `existing`.
pub fn append_body(existing: &str, added: &str) -> (r: String)
    ensures
        r@ == appended(existing@, added@),
{
    let v: Vec<char> = chars_of(existing);
    let mut body = String::new();
    if v.len() > 0 && v[v.len() - 1] != '\n' {
        body.push('\n');
    }
    let t: String = trim_end_text(added);
    body.append(t.as_str());
    body.push('\n');
    proof {
        assert(body@ =~= appended(existing@, added@));
    }
    body
}

/// After a write the file is its old text, then the written text on lines of its
/// own, and ends with a line feed.
pub proof fn law_append_starts_on_a_new_line(existing: Seq<char>, added: Seq<char>)
    ensures
        ({
            let after = existing + appended(existing, added);
            let t = text::trim_end(added);
            &&& existing.is_prefix_of(after)
            &&& after.last() == '\n'
            &&& (t + seq!['\n']).is_suffix_of(after)
            &&& after.len() > t.len() + 1 ==> after[after.len() - t.len() - 2] == '\n'
        }),
{
    let after = existing + appended(existing, added);
    let t = text::trim_end(added);
    assert(after.subrange(after.len() - t.len() - 1, after.len() as int) =~= t + seq!['\n']);
}

// ---------------------------------------------------------------------------
// Two texts under one heading
// ---------------------------------------------------------------------------

/// Two texts put under the heading of a stratum one after the other stand there as
/// one text of two lines would: the second follows the first.
pub proof fn law_two_inserts_are_one(
    content: Seq<char>,
    stratum: Stratum,
    first: Seq<char>,
    second: Seq<char>,
)
    requires
        lines::no_return(content),
        lines::no_return(first),
        first.len() > 0,
        first == text::trim_end(first),
        forall|i: int|
            0 <= i < text::lines(first).len() ==> !text::starts_with(
                #[trigger] text::lines(first)[i],
                seq!['#', '#', ' '],
            ),
        text::trim(second).len() > 0,
    ensures
        ({
            let heading = strata::stratum_line(stratum);
            inserted(inserted(content, heading, first), heading, second) == inserted(
                content,
                heading,
                first + seq!['\n'] + second,
            )
        }),
{
    let heading = strata::stratum_line(stratum);
    let ls = text::lines(content);
    let t = text::trim_end(second);
    let both = first + seq!['\n'] + t;
    lemma_not_blank(second);
    lemma_trim_end_after(first + seq!['\n'], second);
    assert(text::trim_end(first + seq!['\n'] + second) == both);
    lemma_stratum_line(stratum);
    let h = find_heading(ls, 0, heading);
    lemma_edit_bounds(ls, 0, heading);
    let l1 = text::lines(first);
    lines::lemma_trim_end_last(first);
    lines::lemma_joined_lines(first);
    assert(!text::blank(l1.last()));
    let sep = seq!['\n'];
    if h >= ls.len() {
        lemma_absent_heading(content, heading);
        let pre = fresh_lines(content, heading);
        let out = inserted(content, heading, first);
        lines::lemma_join_concat(pre, l1, sep);
        assert(out =~= lines::joined(pre + l1) + sep);
        lemma_plain_concat(pre, l1);
        lines::lemma_lines_of_joined(pre + l1);
        let none = Seq::<Seq<char>>::empty();
        assert(pre + l1 + none =~= pre + l1);
        lemma_insert_after(pre, l1, none, heading, pre.len() - 1, t);
        assert(text::lines(out) == pre + l1);
        assert(with_added(pre + l1, pre.len() - 1, t) =~= (pre + l1).push(t));
        text::lemma_join_push(pre + l1, sep, t);
        assert(inserted(out, heading, second) =~= lines::joined(pre) + sep + both + sep);
        assert(inserted(content, heading, first + sep + second) =~= lines::joined(pre) + sep + both
            + sep);
    } else {
        lemma_present_heading(content, heading);
        let e = next_section(ls, h + 1);
        let b = body_end(ls, h, e);
        let pre = ls.take(b);
        let tail = if e < ls.len() {
            seq![Seq::<char>::empty()] + ls.skip(e)
        } else {
            Seq::empty()
        };
        let all = pre + l1 + tail;
        assert(with_added(ls, h, first) =~= pre + seq![first] + tail);
        lemma_join_part(pre, l1, tail, first);
        let out = inserted(content, heading, first);
        assert(out == lines::joined(all) + sep);
        lemma_plain_concat(pre, l1);
        lemma_plain_concat(pre + l1, tail);
        lines::lemma_lines_of_joined(all);
        lemma_insert_after(pre, l1, tail, heading, h, t);
        let l2 = l1.push(t);
        assert(with_added(all, h, t) =~= pre + l2 + tail);
        text::lemma_join_push(l1, sep, t);
        assert(lines::joined(l2) == both);
        lemma_join_part(pre, l2, tail, both);
        assert(with_added(ls, h, both) =~= pre + seq![both] + tail);
    }
}

/// The lines before a text that goes under a heading that the file does not have.
spec fn fresh_lines(content: Seq<char>, heading: Seq<char>) -> Seq<Seq<char>> {
    let base = text::trim_end(content);
    if base.len() == 0 {
        seq![heading]
    } else {
        text::lines(base).push(Seq::empty()).push(heading)
    }
}

proof fn lemma_stratum_line(stratum: Stratum)
    ensures
        ({
            let heading = strata::stratum_line(stratum);
            &&& lines::plain(heading)
            &&& text::trim_end(heading) == heading
            &&& text::starts_with(heading, seq!['#', '#', ' '])
        }),
{
    reveal_strlit("## Identity");
    reveal_strlit("## Patterns");
    reveal_strlit("## Focus");
    let heading = strata::stratum_line(stratum);
    assert(!text::is_space(heading.last()));
    assert(heading.take(3) =~= seq!['#', '#', ' ']);
}

proof fn lemma_not_blank(s: Seq<char>)
    requires
        text::trim(s).len() > 0,
    ensures
        text::trim_end(s).len() > 0,
{
    text::lemma_trim_start_empty(s);
    lemma_trim_end_of_ink(s);
}

proof fn lemma_trim_end_of_ink(s: Seq<char>)
    requires
        !text::blank(s),
    ensures
        text::trim_end(s).len() > 0,
    decreases s.len(),
{
    if text::is_space(s.last()) {
        let i = choose|i: int| 0 <= i < s.len() && !text::is_space(#[trigger] s[i]);
        assert(s.drop_last()[i] == s[i]);
        lemma_trim_end_of_ink(s.drop_last());
    }
}

proof fn lemma_trim_end_after(a: Seq<char>, b: Seq<char>)
    requires
        text::trim_end(b).len() > 0,
    ensures
        text::trim_end(a + b) == a + text::trim_end(b),
    decreases b.len(),
{
    if b.len() > 0 && text::is_space(b.last()) {
        assert((a + b).drop_last() =~= a + b.drop_last());
        lemma_trim_end_after(a, b.drop_last());
    }
}

proof fn lemma_plain_concat(a: Seq<Seq<char>>, b: Seq<Seq<char>>)
    requires
        lines::all_plain(a),
        lines::all_plain(b),
    ensures
        lines::all_plain(a + b),
{
    assert forall|i: int| 0 <= i < (a + b).len() implies lines::plain(#[trigger] (a + b)[i]) by {
        if i < a.len() {
            assert((a + b)[i] == a[i]);
        } else {
            assert((a + b)[i] == b[i - a.len()]);
        }
    }
}

/// Lines in the middle of a list may stand there as one text.
proof fn lemma_join_part(
    pre: Seq<Seq<char>>,
    mid: Seq<Seq<char>>,
    tail: Seq<Seq<char>>,
    one: Seq<char>,
)
    requires
        pre.len() > 0,
        mid.len() > 0,
        lines::joined(mid) == one,
    ensures
        lines::joined(pre + mid + tail) == lines::joined(pre + seq![one] + tail),
{
    let sep = seq!['\n'];
    lines::lemma_join_concat(pre, mid, sep);
    lines::lemma_join_concat(pre, seq![one], sep);
    assert(lines::joined(seq![one]) == one);
    if tail.len() == 0 {
        assert(pre + mid + tail =~= pre + mid);
        assert(pre + seq![one] + tail =~= pre + seq![one]);
    } else {
        lines::lemma_join_concat(pre + mid, tail, sep);
        lines::lemma_join_concat(pre + seq![one], tail, sep);
    }
}

/// Where a text goes under a heading whose section `mid` ends.
proof fn lemma_insert_after(
    pre: Seq<Seq<char>>,
    mid: Seq<Seq<char>>,
    tail: Seq<Seq<char>>,
    heading: Seq<char>,
    h: int,
    t: Seq<char>,
)
    requires
        0 <= h < pre.len(),
        forall|i: int| 0 <= i < h ==> text::trim_end(#[trigger] pre[i]) != heading,
        text::trim_end(pre[h]) == heading,
        forall|i: int|
            h < i < pre.len() ==> !text::starts_with(#[trigger] pre[i], seq!['#', '#', ' ']),
        mid.len() > 0,
        forall|i: int|
            0 <= i < mid.len() ==> !text::starts_with(#[trigger] mid[i], seq!['#', '#', ' ']),
        !text::blank(mid.last()),
        tail.len() > 0 ==> tail.len() > 1 && tail[0].len() == 0 && text::starts_with(
            tail[1],
            seq!['#', '#', ' '],
        ),
    ensures
        find_heading(pre + mid + tail, 0, heading) == h,
        with_added(pre + mid + tail, h, t) == pre + mid.push(t) + tail,
{
    let all = pre + mid + tail;
    let n: int = (pre.len() + mid.len()) as int;
    assert forall|i: int| 0 <= i < h implies text::trim_end(#[trigger] all[i]) != heading by {
        assert(all[i] == pre[i]);
    }
    assert(all[h] == pre[h]);
    lemma_heading_found(all, 0, heading, h);
    let e: int = if tail.len() == 0 {
        n
    } else {
        n + 1
    };
    assert forall|i: int| h < i < e implies !text::starts_with(
        #[trigger] all[i],
        seq!['#', '#', ' '],
    ) by {
        if i < pre.len() {
            assert(all[i] == pre[i]);
        } else if i < n {
            assert(all[i] == mid[i - pre.len()]);
        } else {
            assert(all[i] == tail[0]);
        }
    }
    if tail.len() > 0 {
        assert(all[e] == tail[1]);
        assert(all[e - 1] == tail[0]);
    }
    lemma_section_found(all, h + 1, e);
    assert(all[n - 1] == mid.last());
    assert(body_end(all, h, n) == n);
    assert(body_end(all, h, e) == n);
    assert(all.take(n) =~= pre + mid);
    if tail.len() > 0 {
        let rest = seq![Seq::<char>::empty()] + all.skip(e);
        assert(tail[0] =~= Seq::empty());
        assert(rest =~= tail);
        assert(with_added(all, h, t) =~= pre + mid.push(t) + tail);
    } else {
        assert(with_added(all, h, t) =~= pre + mid.push(t) + tail);
    }
}

proof fn lemma_heading_found(ls: Seq<Seq<char>>, from: int, heading: Seq<char>, h: int)
    requires
        0 <= from <= h < ls.len(),
        forall|i: int| from <= i < h ==> text::trim_end(#[trigger] ls[i]) != heading,
        text::trim_end(ls[h]) == heading,
    ensures
        find_heading(ls, from, heading) == h,
    decreases h - from,
{
    if from < h {
        lemma_heading_found(ls, from + 1, heading, h);
    }
}

proof fn lemma_section_found(ls: Seq<Seq<char>>, from: int, e: int)
    requires
        0 <= from <= e <= ls.len(),
        forall|i: int| from <= i < e ==> !text::starts_with(#[trigger] ls[i], seq!['#', '#', ' ']),
        e < ls.len() ==> text::starts_with(ls[e], seq!['#', '#', ' ']),
    ensures
        next_section(ls, from) == e,
    decreases e - from,
{
    if from < e {
        lemma_section_found(ls, from + 1, e);
    }
}

/// What a found heading and its section leave behind them.
proof fn lemma_scanned(ls: Seq<Seq<char>>, from: int, heading: Seq<char>)
    requires
        0 <= from <= ls.len(),
    ensures
        from <= find_heading(ls, from, heading) <= ls.len(),
        forall|i: int|
            from <= i < find_heading(ls, from, heading) ==> text::trim_end(#[trigger] ls[i])
                != heading,
        find_heading(ls, from, heading) < ls.len() ==> text::trim_end(
            ls[find_heading(ls, from, heading)],
        ) == heading,
        from <= next_section(ls, from) <= ls.len(),
        forall|i: int|
            from <= i < next_section(ls, from) ==> !text::starts_with(
                #[trigger] ls[i],
                seq!['#', '#', ' '],
            ),
        next_section(ls, from) < ls.len() ==> text::starts_with(
            ls[next_section(ls, from)],
            seq!['#', '#', ' '],
        ),
    decreases ls.len() - from,
{
    if from < ls.len() {
        lemma_scanned(ls, from + 1, heading);
    }
}

proof fn lemma_present_heading(content: Seq<char>, heading: Seq<char>)
    requires
        lines::no_return(content),
        find_heading(text::lines(content), 0, heading) < text::lines(content).len(),
    ensures
        ({
            let ls = text::lines(content);
            let h = find_heading(ls, 0, heading);
            let e = next_section(ls, h + 1);
            let b = body_end(ls, h, e);
            &&& 0 <= h < b <= e <= ls.len()
            &&& lines::all_plain(ls.take(b))
            &&& lines::all_plain(seq![Seq::<char>::empty()] + ls.skip(e))
            &&& forall|i: int| 0 <= i < h ==> text::trim_end(#[trigger] ls.take(b)[i]) != heading
            &&& text::trim_end(ls.take(b)[h]) == heading
            &&& forall|i: int|
                h < i < b ==> !text::starts_with(#[trigger] ls.take(b)[i], seq!['#', '#', ' '])
            &&& e < ls.len() ==> text::starts_with(ls[e], seq!['#', '#', ' '])
        }),
{
    let ls = text::lines(content);
    lines::lemma_joined_lines(content);
    let h = find_heading(ls, 0, heading);
    lemma_scanned(ls, 0, heading);
    lemma_scanned(ls, h + 1, heading);
    let e = next_section(ls, h + 1);
    lemma_body_end(ls, h, e);
    let after = seq![Seq::<char>::empty()] + ls.skip(e);
    assert forall|i: int| 0 <= i < after.len() implies lines::plain(#[trigger] after[i]) by {
        if i > 0 {
            assert(after[i] == ls[e + i - 1]);
        }
    }
}

proof fn lemma_absent_heading(content: Seq<char>, heading: Seq<char>)
    requires
        lines::no_return(content),
        lines::plain(heading),
        heading.len() > 0,
        text::trim_end(heading) == heading,
        find_heading(text::lines(content), 0, heading) >= text::lines(content).len(),
    ensures
        ({
            let base = text::trim_end(content);
            let pre = fresh_lines(content, heading);
            &&& lines::all_plain(pre)
            &&& lines::joined(pre) == (if base.len() == 0 {
                base
            } else {
                base + seq!['\n', '\n']
            }) + heading
            &&& pre.last() == heading
            &&& forall|i: int|
                0 <= i < pre.len() - 1 ==> text::trim_end(#[trigger] pre[i]) != heading
        }),
{
    let sep = seq!['\n'];
    let base = text::trim_end(content);
    let pre = fresh_lines(content, heading);
    if base.len() == 0 {
        assert(lines::joined(pre) =~= base + heading);
    } else {
        lemma_scanned(text::lines(content), 0, heading);
        lemma_trimmed_lines(content, heading);
        lines::lemma_trim_end_last(content);
        lines::lemma_joined_lines(base);
        let ls = text::lines(base);
        text::lemma_join_push(ls, sep, Seq::empty());
        text::lemma_join_push(ls.push(Seq::empty()), sep, heading);
        assert(lines::joined(pre) =~= base + seq!['\n', '\n'] + heading);
        assert forall|i: int| 0 <= i < pre.len() - 1 implies text::trim_end(#[trigger] pre[i])
            != heading by {
            if i < ls.len() {
                assert(pre[i] == ls[i]);
            } else {
                assert(pre[i].len() == 0);
            }
        }
    }
}

/// White space at the end of a file hides no heading.
proof fn lemma_trimmed_lines(content: Seq<char>, heading: Seq<char>)
    requires
        lines::no_return(content),
        forall|i: int|
            0 <= i < text::lines(content).len() ==> text::trim_end(
                #[trigger] text::lines(content)[i],
            ) != heading,
    ensures
        lines::no_return(text::trim_end(content)),
        forall|i: int|
            0 <= i < text::lines(text::trim_end(content)).len() ==> text::trim_end(
                #[trigger] text::lines(text::trim_end(content))[i],
            ) != heading,
    decreases content.len(),
{
    if content.len() > 0 && text::is_space(content.last()) {
        let d = content.drop_last();
        let w = content.last();
        let sep = seq!['\n'];
        assert forall|i: int| 0 <= i < d.len() implies #[trigger] d[i] != '\r' by {
            assert(d[i] == content[i]);
        }
        let ls = text::lines(d);
        let all = text::lines(content);
        if d.len() > 0 {
            lines::lemma_joined_lines(d);
            assert(content =~= d.push(w));
            if d.last() == '\n' {
                let added = if w == '\n' {
                    Seq::empty()
                } else {
                    seq![w]
                };
                let more = ls.push(added);
                text::lemma_join_push(ls, sep, added);
                assert(lines::plain(added));
                assert(lines::all_plain(more));
                lines::lemma_lines_of_joined(more);
                if w == '\n' {
                    assert(content =~= lines::joined(more) + sep);
                } else {
                    assert(content =~= lines::joined(more));
                }
                assert(all == more);
                assert forall|i: int| 0 <= i < ls.len() implies text::trim_end(#[trigger] ls[i])
                    != heading by {
                    assert(all[i] == ls[i]);
                }
            } else if w == '\n' {
                lines::lemma_lines_of_joined(ls);
                assert(content =~= lines::joined(ls) + sep);
            } else {
                let longer = ls.last().push(w);
                let more = ls.drop_last().push(longer);
                assert(ls =~= ls.drop_last().push(ls.last()));
                text::lemma_join_push(ls.drop_last(), sep, longer);
                text::lemma_join_push(ls.drop_last(), sep, ls.last());
                assert(content =~= lines::joined(more));
                assert(content[content.len() - 1] == w);
                assert(lines::plain(ls.last()));
                assert(lines::plain(longer));
                assert forall|i: int| 0 <= i < more.len() implies lines::plain(
                    #[trigger] more[i],
                ) by {
                    if i < ls.len() - 1 {
                        assert(more[i] == ls[i]);
                    }
                }
                lines::lemma_lines_of_joined(more);
                assert(all == more);
                assert(longer.drop_last() =~= ls.last());
                assert forall|i: int| 0 <= i < ls.len() implies text::trim_end(#[trigger] ls[i])
                    != heading by {
                    if i < ls.len() - 1 {
                        assert(all[i] == ls[i]);
                    } else {
                        assert(all[i] == longer);
                    }
                }
            }
        }
        lemma_trimmed_lines(d, heading);
    }
}

} // verus!
