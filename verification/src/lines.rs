//! Texts as lists of lines: what joining and cutting lines does.
use vstd::prelude::*;
use crate::text;

verus! {

/// Whether a line can stand between line feeds and be read back: it holds no
/// line feed and does not end in a carriage return.
pub open spec fn plain(line: Seq<char>) -> bool {
    &&& forall|i: int| 0 <= i < line.len() ==> #[trigger] line[i] != '\n'
    &&& line.len() > 0 ==> line.last() != '\r'
}

/// Whether all of the lines are plain.
pub open spec fn all_plain(ls: Seq<Seq<char>>) -> bool {
    forall|i: int| 0 <= i < ls.len() ==> plain(#[trigger] ls[i])
}

/// The lines as one text.
pub open spec fn joined(ls: Seq<Seq<char>>) -> Seq<char> {
    text::join(ls, seq!['\n'])
}

/// Whether a text begins and ends with something other than white space.
pub open spec fn snug(s: Seq<char>) -> bool {
    s.len() > 0 && !text::is_space(s[0]) && !text::is_space(s.last())
}

/// Joining two lists is joining each, with a separator between.
pub proof fn lemma_join_concat(a: Seq<Seq<char>>, b: Seq<Seq<char>>, sep: Seq<char>)
    requires
        a.len() > 0,
        b.len() > 0,
    ensures
        text::join(a + b, sep) == text::join(a, sep) + sep + text::join(b, sep),
    decreases b.len(),
{
    let p = b.last();
    assert((a + b).drop_last() =~= a + b.drop_last());
    if b.len() == 1 {
        assert(a + b.drop_last() =~= a);
    } else {
        lemma_join_concat(a, b.drop_last(), sep);
        assert(text::join(a, sep) + sep + text::join(b.drop_last(), sep) + sep + p =~= text::join(
            a,
            sep,
        ) + sep + (text::join(b.drop_last(), sep) + sep + p));
    }
}

/// The first line feed after a plain line ends the line.
pub proof fn lemma_find_after_line(line: Seq<char>, rest: Seq<char>, from: int)
    requires
        plain(line),
        0 <= from <= line.len(),
    ensures
        text::find_char(line + seq!['\n'] + rest, '\n', from) == line.len(),
        text::find_char(line, '\n', from) == line.len(),
    decreases line.len() - from,
{
    let s = line + seq!['\n'] + rest;
    if from < line.len() {
        assert(s[from] == line[from]);
        lemma_find_after_line(line, rest, from + 1);
    } else {
        assert(s[from] == '\n');
    }
}

/// The lines of a text that begins with a plain line.
pub proof fn lemma_lines_front(line: Seq<char>, rest: Seq<char>)
    requires
        plain(line),
    ensures
        text::lines(line + seq!['\n'] + rest) == seq![line] + text::lines(rest),
{
    let s = line + seq!['\n'] + rest;
    lemma_find_after_line(line, rest, 0);
    assert(s.take(line.len() as int) =~= line);
    assert(s.skip(line.len() as int + 1) =~= rest);
}

/// Plain lines are read back from their text, with or without a line feed at
/// its end.
pub proof fn lemma_lines_of_joined(ls: Seq<Seq<char>>)
    requires
        all_plain(ls),
        ls.len() > 0,
    ensures
        text::lines(joined(ls) + seq!['\n']) == ls,
        ls.last().len() > 0 ==> text::lines(joined(ls)) == ls,
    decreases ls.len(),
{
    let first = ls[0];
    assert(plain(first));
    if ls.len() == 1 {
        let none = Seq::<char>::empty();
        lemma_lines_front(first, none);
        assert(first + seq!['\n'] + none =~= joined(ls) + seq!['\n']);
        assert(text::lines(none) =~= Seq::<Seq<char>>::empty());
        assert(seq![first] + text::lines(none) =~= ls);
        if first.len() > 0 {
            lemma_find_after_line(first, none, 0);
            assert(seq![first] =~= ls);
        }
    } else {
        let rest = ls.skip(1);
        assert forall|i: int| 0 <= i < rest.len() implies plain(#[trigger] rest[i]) by {
            assert(rest[i] == ls[i + 1]);
        }
        assert(rest.last() == ls.last());
        lemma_lines_of_joined(rest);
        assert(seq![first] + rest =~= ls);
        lemma_join_concat(seq![first], rest, seq!['\n']);
        assert(text::join(seq![first], seq!['\n']) =~= first);
        lemma_lines_front(first, joined(rest) + seq!['\n']);
        assert(first + seq!['\n'] + (joined(rest) + seq!['\n']) =~= joined(ls) + seq!['\n']);
        lemma_lines_front(first, joined(rest));
    }
}

/// A text that begins and ends with something other than white space stays as
/// it is when it is trimmed.
pub proof fn lemma_trim_snug(s: Seq<char>)
    requires
        snug(s),
    ensures
        text::trim(s) == s,
{
}

/// White space that follows such a text is trimmed away.
pub proof fn lemma_trim_end_padded(s: Seq<char>, pad: Seq<char>)
    requires
        snug(s),
        text::blank(pad),
    ensures
        text::trim(s + pad) == s,
    decreases pad.len(),
{
    let t = s + pad;
    assert(t[0] == s[0]);
    if pad.len() == 0 {
        assert(t =~= s);
    } else {
        assert(t.last() == pad.last());
        let less = pad.drop_last();
        assert forall|i: int| 0 <= i < less.len() implies text::is_space(#[trigger] less[i]) by {
            assert(less[i] == pad[i]);
        }
        lemma_trim_end_padded(s, less);
        assert(t.drop_last() =~= s + less);
        assert((s + less)[0] == s[0]);
    }
}

/// What is left of a text that is trimmed begins and ends with something other
/// than white space, unless nothing is left.
pub proof fn lemma_trimmed_is_snug(s: Seq<char>)
    ensures
        text::trim(s).len() > 0 ==> snug(text::trim(s)),
{
    lemma_trim_start_first(s);
    let t = text::trim_start(s);
    if t.len() > 0 {
        text::lemma_trim_end_keeps_first(t);
        lemma_trim_end_last(t);
    }
}

pub proof fn lemma_trim_start_first(s: Seq<char>)
    ensures
        text::trim_start(s).len() > 0 ==> !text::is_space(text::trim_start(s)[0]),
    decreases s.len(),
{
    if s.len() > 0 && text::is_space(s[0]) {
        lemma_trim_start_first(s.skip(1));
    }
}

pub proof fn lemma_trim_end_last(s: Seq<char>)
    ensures
        text::trim_end(s).len() > 0 ==> !text::is_space(text::trim_end(s).last()),
    decreases s.len(),
{
    if s.len() > 0 && text::is_space(s.last()) {
        lemma_trim_end_last(s.drop_last());
    }
}

/// The first and the last character of lines that are joined are those of the
/// first and the last line.
pub proof fn lemma_joined_ends(ls: Seq<Seq<char>>, sep: Seq<char>)
    requires
        ls.len() > 0,
        ls[0].len() > 0,
        ls.last().len() > 0,
    ensures
        text::join(ls, sep).len() > 0,
        text::join(ls, sep)[0] == ls[0][0],
        text::join(ls, sep).last() == ls.last().last(),
{
    if ls.len() > 1 {
        let first = ls.take(1);
        let rest = ls.skip(1);
        assert(first + rest =~= ls);
        lemma_join_concat(first, rest, sep);
        assert(text::join(first, sep) =~= ls[0]);
    }
}

/// No line of a text holds a line feed.
pub proof fn lemma_lines_hold_no_feed(s: Seq<char>, i: int, j: int)
    requires
        0 <= i < text::lines(s).len(),
        0 <= j < text::lines(s)[i].len(),
    ensures
        text::lines(s)[i][j] != '\n',
    decreases s.len(),
{
    if s.len() > 0 {
        text::lemma_find_char(s, '\n', 0);
        let n = text::find_char(s, '\n', 0);
        if n < s.len() {
            let rest = text::lines(s.skip(n + 1));
            if i == 0 {
                assert(text::lines(s)[0] == text::strip_cr(s.take(n)));
                assert(text::strip_cr(s.take(n))[j] == s[j]);
            } else {
                assert(text::lines(s)[i] == rest[i - 1]);
                lemma_lines_hold_no_feed(s.skip(n + 1), i - 1, j);
            }
        } else {
            assert(text::lines(s)[i] == s);
        }
    }
}

/// Trimming brings no line feed into a text.
pub proof fn lemma_trim_brings_no_feed(s: Seq<char>)
    requires
        forall|i: int| 0 <= i < s.len() ==> #[trigger] s[i] != '\n',
    ensures
        forall|i: int| 0 <= i < text::trim(s).len() ==> #[trigger] text::trim(s)[i] != '\n',
        forall|i: int| 0 <= i < text::trim_end(s).len() ==> #[trigger] text::trim_end(s)[i] != '\n',
    decreases s.len(),
{
    if s.len() > 0 {
        let a = s.skip(1);
        let b = s.drop_last();
        assert forall|i: int| 0 <= i < a.len() implies #[trigger] a[i] != '\n' by {
            assert(a[i] == s[i + 1]);
        }
        assert forall|i: int| 0 <= i < b.len() implies #[trigger] b[i] != '\n' by {
            assert(b[i] == s[i]);
        }
        lemma_trim_brings_no_feed(a);
        lemma_trim_brings_no_feed(b);
        if text::is_space(s.last()) {
            assert(text::trim_end(s) == text::trim_end(b));
        } else {
            assert(text::trim_end(s) == s);
        }
        if text::is_space(s[0]) {
            assert(text::trim(s) == text::trim(a));
        } else {
            assert(text::trim(s) == text::trim_end(s));
        }
    } else {
        assert(text::trim_end(s) == s);
        assert(text::trim(s) == s);
    }
}

/// Whether a text holds no carriage return.
pub open spec fn no_return(s: Seq<char>) -> bool {
    forall|i: int| 0 <= i < s.len() ==> #[trigger] s[i] != '\r'
}

/// The lines of a text without carriage returns are plain, and are the text again
/// once they are joined, but for a line feed at its end.
pub proof fn lemma_joined_lines(s: Seq<char>)
    requires
        no_return(s),
        s.len() > 0,
    ensures
        all_plain(text::lines(s)),
        text::lines(s).len() > 0,
        s.last() == '\n' ==> s == joined(text::lines(s)) + seq!['\n'],
        s.last() != '\n' ==> s == joined(text::lines(s)) && text::lines(s).last().len() > 0
            && text::lines(s).last().last() == s.last(),
    decreases s.len(),
{
    let n = text::find_char(s, '\n', 0);
    text::lemma_find_char(s, '\n', 0);
    if n >= s.len() {
        assert(text::lines(s) =~= seq![s]);
        assert(plain(s));
    } else {
        let first = s.take(n);
        let rest = s.skip(n + 1);
        assert(plain(first));
        assert(text::strip_cr(first) == first);
        let ls = text::lines(s);
        assert(ls == seq![first] + text::lines(rest));
        assert(joined(seq![first]) == first);
        if rest.len() == 0 {
            assert(text::lines(rest) =~= Seq::empty());
            assert(ls =~= seq![first]);
            assert(s =~= first + seq!['\n']);
        } else {
            assert forall|i: int| 0 <= i < rest.len() implies #[trigger] rest[i] != '\r' by {
                assert(rest[i] == s[n + 1 + i]);
            }
            lemma_joined_lines(rest);
            assert forall|i: int| 0 <= i < ls.len() implies plain(#[trigger] ls[i]) by {
                if i > 0 {
                    assert(ls[i] == text::lines(rest)[i - 1]);
                }
            }
            lemma_join_concat(seq![first], text::lines(rest), seq!['\n']);
            assert(rest.last() == s.last());
            assert(ls.last() == text::lines(rest).last());
            assert(s =~= first + seq!['\n'] + rest);
        }
    }
}

} // verus!
