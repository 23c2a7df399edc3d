//! How texts, numbers and dates are written and read, in terms of their characters.
use vstd::prelude::*;
use crate::date;
use crate::number;
use crate::path;
use crate::text;
use crate::text::CharClass;

verus! {

// ---------------------------------------------------------------------------
// Characters
// ---------------------------------------------------------------------------

/// In ASCII the white space is the blank and the characters from the tab to the
/// carriage return; a letter or a digit is what it is in ASCII.
pub proof fn law_classes_of_ascii_characters(c: char)
    requires
        (c as u32) < 128,
    ensures
        text::is_space(c) <==> c == ' ' || 9 <= c as u32 <= 13,
        text::alphabetic(c) <==> 'a' as u32 <= c as u32 <= 'z' as u32 || 'A' as u32 <= c as u32
            <= 'Z' as u32,
        text::alphanumeric(c) <==> text::alphabetic(c) || '0' as u32 <= c as u32 <= '9' as u32,
        text::uppercase(c) <==> 'A' as u32 <= c as u32 <= 'Z' as u32,
        text::lowercase(c) <==> 'a' as u32 <= c as u32 <= 'z' as u32,
        text::in_class(CharClass::Alphanumeric, c) <==> text::alphanumeric(c),
        text::in_class(CharClass::Symbol, c) <==> text::alphanumeric(c) || c == '_' || c == ':',
        text::in_class(CharClass::NonSpace, c) <==> !text::is_space(c),
        text::ascii_digit(c) <==> '0' as u32 <= c as u32 <= '9' as u32,
{
}

/// Lowering the case of a text changes its ASCII capitals into the small letters and
/// nothing else.
pub proof fn law_just_capitals_are_lowered(s: Seq<char>, i: int)
    requires
        0 <= i < s.len(),
    ensures
        text::ascii_lowered(s).len() == s.len(),
        'A' as u32 <= s[i] as u32 <= 'Z' as u32 ==> text::ascii_lowered(s)[i] as u32 == s[i] as u32
            + 32,
        !('A' as u32 <= s[i] as u32 <= 'Z' as u32) ==> text::ascii_lowered(s)[i] == s[i],
{
}

/// A text takes as many bytes as its UTF-8 encoding has, one for each character of
/// ASCII.
pub proof fn law_bytes_are_those_of_utf8(s: Seq<char>)
    ensures
        text::utf8_len(s) == vstd::utf8::encode_utf8(s).len(),
        (forall|i: int| 0 <= i < s.len() ==> ((#[trigger] s[i]) as u32) < 128) ==> text::utf8_len(s)
            == s.len(),
    decreases s.len(),
{
    text::lemma_utf8_len(s);
    if s.len() > 0 {
        let rest = s.skip(1);
        law_bytes_are_those_of_utf8(rest);
        if forall|i: int| 0 <= i < s.len() ==> ((#[trigger] s[i]) as u32) < 128 {
            assert forall|i: int| 0 <= i < rest.len() implies ((#[trigger] rest[i]) as u32)
                < 128 by {
                assert(rest[i] == s[i + 1]);
            }
            assert((s[0] as u32) < 128);
        }
    }
}

// ---------------------------------------------------------------------------
// Parts of a text
// ---------------------------------------------------------------------------

/// A line ends before a line feed, or before a carriage return and a line feed; what
/// follows has its own lines, and the last line needs no end.
pub proof fn law_lines_end_at_line_feeds(a: Seq<char>, b: Seq<char>)
    requires
        !a.contains('\n'),
        a.len() > 0 ==> a.last() != '\r',
    ensures
        text::lines(a + seq!['\n'] + b) == seq![a] + text::lines(b),
        text::lines(a + seq!['\r', '\n'] + b) == seq![a] + text::lines(b),
        a.len() > 0 ==> text::lines(a) == seq![a],
        a.len() == 0 ==> text::lines(a).len() == 0,
{
    lemma_first_place(a, '\n', b);
    let s = a + seq!['\n'] + b;
    assert(s.take(a.len() as int) =~= a);
    assert(s.skip(a.len() as int + 1) =~= b);
    let ar = a.push('\r');
    assert(!ar.contains('\n')) by {
        if ar.contains('\n') {
            let i = ar.index_of('\n');
            assert(0 <= i < ar.len() && ar[i] == '\n');
            assert(a.contains(a[i]));
        }
    }
    lemma_first_place(ar, '\n', b);
    let t = a + seq!['\r', '\n'] + b;
    assert(t =~= ar + seq!['\n'] + b);
    assert(t.take(ar.len() as int) =~= ar);
    assert(t.skip(ar.len() as int + 1) =~= b);
    assert(ar.drop_last() =~= a);
}

proof fn lemma_first_place(a: Seq<char>, c: char, b: Seq<char>)
    requires
        !a.contains(c),
    ensures
        text::find_char(a + seq![c] + b, c, 0) == a.len(),
        text::find_char(a, c, 0) == a.len(),
{
    let s = a + seq![c] + b;
    let n = text::find_char(s, c, 0);
    text::lemma_find_char(s, c, 0);
    text::lemma_find_char(a, c, 0);
    assert(s[a.len() as int] == c);
    if n < a.len() {
        assert(s[n] == a[n]);
        assert(a.contains(a[n]));
    }
    let m = text::find_char(a, c, 0);
    if m < a.len() {
        assert(a.contains(a[m]));
    }
}

/// Splitting a text at a character gives what stands before the first of them, and the
/// parts of what follows it.
pub proof fn law_a_text_splits_at_each_separator(a: Seq<char>, c: char, b: Seq<char>)
    requires
        !a.contains(c),
    ensures
        text::split_char(a + seq![c] + b, c) == seq![a] + text::split_char(b, c),
        text::split_char(a, c) == seq![a],
{
    lemma_first_place(a, c, b);
    let s = a + seq![c] + b;
    assert(s.take(a.len() as int) =~= a);
    assert(s.skip(a.len() as int + 1) =~= b);
}

/// Texts are joined with one separator between each two of them.
pub proof fn law_joined_texts_have_separators_between(
    parts: Seq<Seq<char>>,
    sep: Seq<char>,
    p: Seq<char>,
)
    ensures
        text::join(Seq::empty(), sep).len() == 0,
        text::join(seq![p], sep) == p,
        parts.len() > 0 ==> text::join(parts.push(p), sep) == text::join(parts, sep) + sep + p,
{
    assert(parts.push(p).drop_last() =~= parts);
}

/// The runs of a text are its longest stretches of characters of a class: a stretch that
/// ends with the text or before another character is one run, and the others follow.
pub proof fn law_runs_are_the_stretches_of_a_class(
    a: Seq<char>,
    b: Seq<char>,
    sep: char,
    class: CharClass,
)
    requires
        forall|i: int| 0 <= i < a.len() ==> text::in_class(class, #[trigger] a[i]),
        !text::in_class(class, sep),
    ensures
        a.len() > 0 ==> text::runs(a + seq![sep] + b, class) == seq![a] + text::runs(b, class),
        a.len() > 0 ==> text::runs(a, class) == seq![a],
        a.len() == 0 ==> text::runs(a + seq![sep] + b, class) == text::runs(b, class),
        a.len() == 0 ==> text::runs(a, class).len() == 0,
{
    let rest = seq![sep] + b;
    let s = a + seq![sep] + b;
    assert(s =~= a + rest);
    assert(rest.skip(1) =~= b);
    if a.len() > 0 {
        text::lemma_runs_first(a, rest, class);
        text::lemma_runs_first(a, Seq::empty(), class);
        assert(a + Seq::<char>::empty() =~= a);
        assert(text::runs(Seq::empty(), class) =~= Seq::empty());
        assert(seq![a] + Seq::<Seq<char>>::empty() =~= seq![a]);
    } else {
        assert(s =~= rest);
    }
}

/// A text starts with another where it is that text and something behind it.
pub proof fn law_a_prefix_starts_a_text(p: Seq<char>, x: Seq<char>, s: Seq<char>)
    ensures
        text::starts_with(p + x, p),
        text::starts_with(s, p) ==> s == p + s.skip(p.len() as int),
{
    assert((p + x).take(p.len() as int) =~= p);
    if text::starts_with(s, p) {
        assert(s =~= s.take(p.len() as int) + s.skip(p.len() as int));
    }
}

/// A text is found within another just where the other is something, that text and
/// something again.
pub proof fn law_a_part_is_found_where_it_stands(a: Seq<char>, p: Seq<char>, b: Seq<char>)
    ensures
        text::contains_text(a + p + b, p),
        text::stands_at(a + p + b, p, a.len() as int),
{
    let s = a + p + b;
    let n = a.len() as int;
    assert(s.subrange(n, n + p.len()) =~= p);
    assert(text::stands_at(s, p, n));
}

/// What is found within a text stands there.
pub proof fn law_what_is_found_stands_there(s: Seq<char>, p: Seq<char>)
    requires
        text::contains_text(s, p),
    ensures
        exists|a: Seq<char>, b: Seq<char>| #[trigger] (a + p + b) == s,
{
    let i = choose|i: int| text::stands_at(s, p, i);
    let a = s.take(i);
    let b = s.skip(i + p.len());
    assert(a + p + b =~= s);
}

/// Texts are ordered by the first character in which they differ; a text comes before
/// all that it begins.
pub proof fn law_texts_are_ordered_by_their_first_difference(
    p: Seq<char>,
    c: char,
    x: Seq<char>,
    d: char,
    y: Seq<char>,
)
    requires
        c != d,
    ensures
        text::text_le(p + seq![c] + x, p + seq![d] + y) <==> (c as u32) < (d as u32),
        text::text_le(p, p + y),
        y.len() > 0 ==> !text::text_le(p + y, p),
    decreases p.len(),
{
    let s = p + seq![c] + x;
    let t = p + seq![d] + y;
    let u = p + y;
    if p.len() == 0 {
        assert(s[0] == c && t[0] == d);
    } else {
        let q = p.skip(1);
        law_texts_are_ordered_by_their_first_difference(q, c, x, d, y);
        assert(s.skip(1) =~= q + seq![c] + x);
        assert(t.skip(1) =~= q + seq![d] + y);
        assert(u.skip(1) =~= q + y);
        assert(s[0] == p[0] && t[0] == p[0] && u[0] == p[0]);
    }
}

/// A path goes from a directory to its child with one slash between them.
pub proof fn law_a_child_is_behind_one_slash(dir: Seq<char>, name: Seq<char>)
    ensures
        dir.len() > 0 && dir.last() != '/' ==> path::child_path(dir, name) == dir + seq!['/']
            + name,
        dir.len() > 0 && dir.last() == '/' ==> path::child_path(dir, name) == dir + name,
        dir.len() == 0 ==> path::child_path(dir, name) == name,
{
    reveal_strlit("/");
    assert("/"@ =~= seq!['/']);
    if dir.len() == 0 {
        assert(dir + name =~= name);
    }
}

// ---------------------------------------------------------------------------
// Numbers
// ---------------------------------------------------------------------------

/// A number is written in decimal digits, the last of them its units; a negative one has
/// a minus before it.
pub proof fn law_numbers_are_written_in_decimal(n: nat, d: nat)
    requires
        d < 10,
    ensures
        number::decimal(d) == seq![('0' as u32 + d) as char],
        n > 0 ==> number::decimal(10 * n + d) == number::decimal(n).push(('0' as u32 + d) as char),
        number::int_text(n as int) == number::decimal(n),
        n > 0 ==> number::int_text(-(n as int)) == seq!['-'] + number::decimal(n),
{
    if n > 0 {
        assert((10 * n + d) / 10 == n);
        assert((10 * n + d) % 10 == d);
    }
}

/// What is written of a number is read as that number, with a plus before it too; a
/// digit more is ten times the number and the digit.
pub proof fn law_numbers_are_read_back(n: nat, s: Seq<char>, d: nat)
    requires
        d < 10,
    ensures
        number::number_of(number::decimal(n)) == Some(n),
        number::number_of(seq!['+'] + number::decimal(n)) == Some(n),
        number::number_of(s) is Some ==> number::number_of(s.push(('0' as u32 + d) as char))
            == Some(10 * number::number_of(s)->0 + d),
{
    number::lemma_number_of_decimal(n);
    let t = number::decimal(n);
    number::lemma_decimal_digits(n);
    assert(t[0] != '+');
    assert((seq!['+'] + t).skip(1) =~= t);
    let c = ('0' as u32 + d) as char;
    if number::number_of(s) is Some {
        let body = number::strip_plus(s);
        let more = s.push(c);
        assert(s.len() > 0);
        assert(more[0] == s[0]);
        assert(number::strip_plus(more) =~= body.push(c));
        assert(body.push(c).drop_last() =~= body);
        assert(number::all_digits(body.push(c)));
    }
}

/// A text without a digit, or with a character that is none behind its first, is not a
/// number.
pub proof fn law_other_texts_are_no_numbers(s: Seq<char>, i: int)
    requires
        s.len() == 0 || s == seq!['+'] || (0 <= i < s.len() && !text::ascii_digit(s[i]) && (i > 0
            || s[i] != '+')),
    ensures
        number::number_of(s) is None,
{
    let t = number::strip_plus(s);
    if s.len() > 0 && s != seq!['+'] {
        if s[0] == '+' {
            assert(t[i - 1] == s[i]);
        } else {
            assert(t[i] == s[i]);
        }
    }
}

/// Two digits and four digits hold the number, with zeros before it.
pub proof fn law_fixed_widths_are_filled_with_zeros(n: nat, y: nat)
    requires
        n < 100,
        y < 10000,
    ensures
        number::two_digits(n).len() == 2,
        number::two_digits(n)[0] as u32 == '0' as u32 + n / 10,
        number::two_digits(n)[1] as u32 == '0' as u32 + n % 10,
        number::four_digits(y).len() == 4,
        number::four_digits(y)[0] as u32 == '0' as u32 + y / 1000,
        number::four_digits(y)[1] as u32 == '0' as u32 + y / 100 % 10,
        number::four_digits(y)[2] as u32 == '0' as u32 + y / 10 % 10,
        number::four_digits(y)[3] as u32 == '0' as u32 + y % 10,
{
    if n >= 10 {
        assert(n / 10 < 10);
        assert(number::decimal(n) == number::decimal(n / 10).push(number::digit_char(n % 10)));
        assert(number::decimal(n / 10) == seq![number::digit_char(n / 10)]);
    }
    assert(y / 1000 < 10);
    assert(y / 1000 % 10 == y / 1000);
}

/// A byte is written as two hexadecimal digits, the higher one first.
pub proof fn law_bytes_are_written_in_hexadecimal(b: Seq<u8>, i: int)
    requires
        0 <= i < b.len(),
    ensures
        number::hex(b).len() == 2 * b.len(),
        b[i] < 160 ==> number::hex(b)[2 * i] as u32 == '0' as u32 + b[i] / 16,
        b[i] >= 160 ==> number::hex(b)[2 * i] as u32 == 'a' as u32 + b[i] / 16 - 10,
        b[i] % 16 < 10 ==> number::hex(b)[2 * i + 1] as u32 == '0' as u32 + b[i] % 16,
        b[i] % 16 >= 10 ==> number::hex(b)[2 * i + 1] as u32 == 'a' as u32 + b[i] % 16 - 10,
    decreases b.len(),
{
    number::lemma_hex_len(b);
    let front = b.drop_last();
    number::lemma_hex_len(front);
    if i < b.len() - 1 {
        law_bytes_are_written_in_hexadecimal(front, i);
        assert(number::hex(b)[2 * i] == number::hex(front)[2 * i]);
        assert(number::hex(b)[2 * i + 1] == number::hex(front)[2 * i + 1]);
        assert(front[i] == b[i]);
    } else {
        assert(b.last() == b[i]);
        assert(b[i] / 16 < 16);
    }
}

// ---------------------------------------------------------------------------
// Dates
// ---------------------------------------------------------------------------

/// The months have the days that they have: February has a day more in every fourth
/// year, not in every hundredth, and again in every four hundredth.
pub proof fn law_the_months_have_their_days(y: int)
    ensures
        date::days_in_month(y, 1) == 31,
        y % 4 != 0 ==> date::days_in_month(y, 2) == 28,
        y % 4 == 0 && y % 100 != 0 ==> date::days_in_month(y, 2) == 29,
        y % 100 == 0 && y % 400 != 0 ==> date::days_in_month(y, 2) == 28,
        y % 400 == 0 ==> date::days_in_month(y, 2) == 29,
        date::days_in_month(y, 3) == 31,
        date::days_in_month(y, 4) == 30,
        date::days_in_month(y, 5) == 31,
        date::days_in_month(y, 6) == 30,
        date::days_in_month(y, 7) == 31,
        date::days_in_month(y, 8) == 31,
        date::days_in_month(y, 9) == 30,
        date::days_in_month(y, 10) == 31,
        date::days_in_month(y, 11) == 30,
        date::days_in_month(y, 12) == 31,
{
}

/// Every day from the first to the last of a month is a date, and no other is.
pub proof fn law_the_days_of_a_month_are_dates(y: int, m: int, d: int)
    requires
        0 <= y <= 9999,
    ensures
        date::is_date(y, m, d) <==> 1 <= m <= 12 && 1 <= d <= date::days_in_month(y, m),
{
}

/// A date is written with its year, month and day, in this order: other dates are
/// written otherwise.
pub proof fn law_a_date_is_written_with_its_fields(y: int, m: int, d: int)
    requires
        0 <= y <= 9999,
        date::is_date(y, m, d),
    ensures
        ({
            let s = date::written(y, m, d);
            &&& s.len() == 10
            &&& s[4] == '-' && s[7] == '-'
            &&& number::number_of(s.take(4)) == Some(y as nat)
            &&& number::number_of(s.subrange(5, 7)) == Some(m as nat)
            &&& number::number_of(s.subrange(8, 10)) == Some(d as nat)
        }),
{
    date::lemma_iso_date_len(y, m, d);
    let s = date::written(y, m, d);
    let a = number::four_digits(y as nat);
    let b = number::two_digits(m as nat);
    let c = number::two_digits(d as nat);
    number::lemma_two_digits(m as nat);
    number::lemma_two_digits(d as nat);
    assert(s.take(4) =~= a);
    assert(s.subrange(5, 7) =~= b);
    assert(s.subrange(8, 10) =~= c);
    lemma_two_digit_number(m as nat);
    lemma_two_digit_number(d as nat);
    lemma_four_digit_number(y as nat);
}

proof fn lemma_two_digit_number(n: nat)
    requires
        n < 100,
    ensures
        number::number_of(number::two_digits(n)) == Some(n),
{
    law_fixed_widths_are_filled_with_zeros(n, 0);
    let s = number::two_digits(n);
    assert(n / 10 < 10 && n == 10 * (n / 10) + n % 10);
    reveal_with_fuel(number::digits_value, 3);
    assert(s[0] != '+');
    assert(s.drop_last().last() == s[0]);
    assert(s.drop_last().drop_last().len() == 0);
    assert(number::all_digits(s));
}

proof fn lemma_four_digit_number(n: nat)
    requires
        n < 10000,
    ensures
        number::number_of(number::four_digits(n)) == Some(n),
{
    law_fixed_widths_are_filled_with_zeros(0, n);
    let s = number::four_digits(n);
    assert(n / 1000 < 10);
    assert(n == 1000 * (n / 1000) + 100 * (n / 100 % 10) + 10 * (n / 10 % 10) + n % 10);
    reveal_with_fuel(number::digits_value, 5);
    assert(s[0] != '+');
    let t = s.drop_last();
    let u = t.drop_last();
    let v = u.drop_last();
    assert(t.last() == s[2] && u.last() == s[1] && v.last() == s[0]);
    assert(v.drop_last().len() == 0);
    assert(number::all_digits(s));
}

} // verus!
