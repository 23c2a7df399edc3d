//! References between chunks that the text itself gives: wiki links and shared
//! code-like names.
use vstd::prelude::*;
use vstd::string::*;
use crate::ordered;
use crate::ordered::insert_key_text;
use crate::text;
use crate::text::{
    ascii_lower_text,
    byte_len,
    char_index,
    char_is_alphabetic,
    char_is_lowercase,
    char_is_uppercase,
    chars_of,
    holds_text,
    runs_of,
    string_of,
    text_index,
    trim_end_char_text,
    trim_start_char_text,
    trim_text,
    CharClass,
};

verus! {

// ---------------------------------------------------------------------------
// Wiki links
// ---------------------------------------------------------------------------

/// Whether `[[` stands at index `i`.
pub open spec fn opens_link(s: Seq<char>, i: int) -> bool {
    s[i] == '[' && s[i + 1] == '['
}

/// What a link names: the part before the first `|`, trimmed.
pub open spec fn link_target(inner: Seq<char>) -> Seq<char> {
    text::trim(inner.take(text::find_char(inner, '|', 0)))
}

/// The targets of the links from index `i` on, in order; links without a target
/// and unclosed ones give none.
pub open spec fn link_targets(s: Seq<char>, i: int) -> Seq<Seq<char>>
    decreases s.len() - i,
{
    if i < 0 || i + 1 >= s.len() {
        Seq::empty()
    } else if opens_link(s, i) {
        match text::find_text(s, seq![']', ']'], i + 2) {
            Some(close) => {
                proof {
                    text::lemma_find_text(s, seq![']', ']'], i + 2);
                }
                let t = link_target(s.subrange(i + 2, close));
                (if t.len() == 0 {
                    Seq::empty()
                } else {
                    seq![t]
                }) + link_targets(s, close + 2)
            },
            None => link_targets(s, i + 1),
        }
    } else {
        link_targets(s, i + 1)
    }
}

/// The first `n` texts without those that came before.
pub open spec fn first_seen(ts: Seq<Seq<char>>, n: int) -> Seq<Seq<char>>
    decreases n,
{
    if n <= 0 {
        Seq::empty()
    } else {
        let prev = first_seen(ts, n - 1);
        if prev.contains(ts[n - 1]) {
            prev
        } else {
            prev.push(ts[n - 1])
        }
    }
}

/// The distinct link targets of `s`, in the order of their first occurrence.
pub open spec fn wikilinks(s: Seq<char>) -> Seq<Seq<char>> {
    let ts = link_targets(s, 0);
    first_seen(ts, ts.len() as int)
}

/// The targets of the links in `v`, in order.
fn targets_of(v: &Vec<char>) -> (r: Vec<String>)
    ensures
        text::views(r@) == link_targets(v@, 0),
{
    let mut close_mark: Vec<char> = Vec::new();
    close_mark.push(']');
    close_mark.push(']');
    let mut out: Vec<String> = Vec::new();
    let mut i: usize = 0;
    proof {
        assert(close_mark@ =~= seq![']', ']']);
        assert(text::views(out@) + link_targets(v@, 0) =~= link_targets(v@, 0));
    }
    while i < v.len() && i + 1 < v.len()
        invariant
            i <= v.len(),
            close_mark@ == seq![']', ']'],
            link_targets(v@, 0) == text::views(out@) + link_targets(v@, i as int),
        decreases v@.len() - i,
    {
        let ghost before = text::views(out@);
        if v[i] == '[' && v[i + 1] == '[' {
            match text_index(v, &close_mark, i + 2) {
                Some(close) => {
                    let bar: usize = {
                        let inner: String = string_of(v, i + 2, close);
                        let iv: Vec<char> = chars_of(inner.as_str());
                        char_index(&iv, '|', 0)
                    };
                    let named: String = string_of(v, i + 2, i + 2 + bar);
                    let t: String = trim_text(named.as_str());
                    proof {
                        let inner = v@.subrange(i + 2, close as int);
                        assert(named@ =~= inner.take(bar as int));
                        assert(t@ == link_target(inner));
                    }
                    if !t.as_str().is_empty() {
                        out.push(t);
                        proof {
                            assert(text::views(out@) =~= before.push(t@));
                        }
                    }
                    proof {
                        assert(text::views(out@) + link_targets(v@, close + 2) =~= before
                            + link_targets(v@, i as int));
                    }
                    i = close + 2;
                },
                None => {
                    i = i + 1;
                },
            }
        } else {
            i = i + 1;
        }
    }
    proof {
        assert(text::views(out@) =~= link_targets(v@, 0));
    }
    out
}

/// The `[[target]]` references of a text, in the order of their first
/// occurrence, none twice. `[[target|alias]]` gives the target.
pub fn parse_wikilinks(content: &str) -> (r: Vec<String>)
    ensures
        text::views(r@) == wikilinks(content@),
{
    let v: Vec<char> = chars_of(content);
    let ts: Vec<String> = targets_of(&v);
    let ghost tv = text::views(ts@);
    let mut out: Vec<String> = Vec::new();
    let mut i: usize = 0;
    assert(text::views(out@) =~= first_seen(tv, 0));
    while i < ts.len()
        invariant
            i <= ts@.len(),
            tv == text::views(ts@),
            text::views(out@) == first_seen(tv, i as int),
        decreases ts@.len() - i,
    {
        let ghost before = text::views(out@);
        assert(tv[i as int] == ts@[i as int]@);
        if !holds_text(&out, ts[i].as_str()) {
            out.push(ts[i].clone());
            assert(text::views(out@) =~= before.push(tv[i as int]));
        }
        i = i + 1;
    }
    proof {
        assert(tv.len() == ts@.len());
    }
    out
}

/// No target is listed twice, every target is listed, and none is empty.
pub proof fn law_wikilinks_are_distinct(s: Seq<char>)
    ensures
        wikilinks(s).no_duplicates(),
        forall|t: Seq<char>|
            #[trigger] wikilinks(s).contains(t) <==> link_targets(s, 0).contains(t),
        forall|i: int| 0 <= i < wikilinks(s).len() ==> (#[trigger] wikilinks(s)[i]).len() > 0,
{
    let ts = link_targets(s, 0);
    lemma_first_seen(ts, ts.len() as int);
    lemma_targets_not_empty(s, 0);
    assert forall|t: Seq<char>| #[trigger] wikilinks(s).contains(t) <==> ts.contains(t) by {
        if ts.contains(t) {
            let i = choose|i: int| 0 <= i < ts.len() && ts[i] == t;
            assert(first_seen(ts, ts.len() as int).contains(ts[i]));
        }
        if wikilinks(s).contains(t) {
            let j = choose|j: int| 0 <= j < wikilinks(s).len() && wikilinks(s)[j] == t;
            assert(ts.contains(first_seen(ts, ts.len() as int)[j]));
        }
    }
    assert forall|i: int| 0 <= i < wikilinks(s).len() implies (#[trigger] wikilinks(s)[i]).len()
        > 0 by {
        let t = wikilinks(s)[i];
        assert(ts.contains(first_seen(ts, ts.len() as int)[i]));
        let j = choose|j: int| 0 <= j < ts.len() && ts[j] == t;
        assert(ts[j].len() > 0);
    }
}

proof fn lemma_first_seen(ts: Seq<Seq<char>>, n: int)
    requires
        0 <= n <= ts.len(),
    ensures
        first_seen(ts, n).no_duplicates(),
        forall|i: int| 0 <= i < n ==> first_seen(ts, n).contains(#[trigger] ts[i]),
        forall|j: int| 0 <= j < first_seen(ts, n).len() ==> ts.contains(#[trigger] first_seen(ts, n)[j]),
    decreases n,
{
    if n > 0 {
        lemma_first_seen(ts, n - 1);
        let prev = first_seen(ts, n - 1);
        let out = first_seen(ts, n);
        assert forall|i: int| 0 <= i < n implies out.contains(#[trigger] ts[i]) by {
            if i < n - 1 {
                let j = choose|j: int| 0 <= j < prev.len() && prev[j] == ts[i];
                assert(out[j] == ts[i]);
            } else if !prev.contains(ts[i]) {
                assert(out[prev.len() as int] == ts[i]);
            }
        }
        assert forall|j: int| 0 <= j < out.len() implies ts.contains(#[trigger] out[j]) by {
            if j < prev.len() {
                assert(out[j] == prev[j]);
            } else {
                assert(out[j] == ts[n - 1]);
            }
        }
    }
}

proof fn lemma_targets_not_empty(s: Seq<char>, i: int)
    requires
        0 <= i,
    ensures
        forall|j: int| 0 <= j < link_targets(s, i).len() ==> (#[trigger] link_targets(s, i)[j]).len()
            > 0,
    decreases s.len() - i,
{
    if i + 1 < s.len() {
        if opens_link(s, i) {
            match text::find_text(s, seq![']', ']'], i + 2) {
                Some(close) => {
                    text::lemma_find_text(s, seq![']', ']'], i + 2);
                    lemma_targets_not_empty(s, close + 2);
                    let t = link_target(s.subrange(i + 2, close));
                    let head: Seq<Seq<char>> = if t.len() == 0 {
                        Seq::empty()
                    } else {
                        seq![t]
                    };
                    let rest = link_targets(s, close + 2);
                    let all = link_targets(s, i);
                    assert(all == head + rest);
                    assert forall|j: int| 0 <= j < all.len() implies (#[trigger] all[j]).len() > 0 by {
                        if j >= head.len() {
                            assert(all[j] == rest[j - head.len()]);
                        } else {
                            assert(all[j] == t);
                        }
                    }
                },
                None => {
                    lemma_targets_not_empty(s, i + 1);
                    assert(link_targets(s, i) == link_targets(s, i + 1));
                },
            }
        } else {
            lemma_targets_not_empty(s, i + 1);
            assert(link_targets(s, i) == link_targets(s, i + 1));
        }
    } else {
        assert(link_targets(s, i).len() == 0);
    }
}

// ---------------------------------------------------------------------------
// Identifiers
// ---------------------------------------------------------------------------

/// The end of the run of backticks that covers index `i`.
pub open spec fn ticks_end(s: Seq<char>, i: int) -> int
    decreases s.len() - i,
{
    if 0 <= i < s.len() && s[i] == '`' {
        ticks_end(s, i + 1)
    } else {
        i
    }
}

/// The first run of just `n` backticks, no more and no fewer, of those that begin at
/// index `i` or after it.
pub open spec fn closing_ticks(s: Seq<char>, i: int, n: int) -> Option<int>
    decreases s.len() - i,
{
    if i < 0 || i >= s.len() {
        None
    } else if s[i] == '`' {
        let j = ticks_end(s, i);
        proof {
            lemma_ticks_end(s, i);
        }
        if j - i == n {
            Some(i)
        } else {
            closing_ticks(s, j, n)
        }
    } else {
        closing_ticks(s, i + 1, n)
    }
}

/// The texts between backticks from index `i` on: each lies between a run of
/// backticks and the next run of the same length.
pub open spec fn ticked(s: Seq<char>, i: int) -> Seq<Seq<char>>
    decreases s.len() - i,
{
    if i < 0 || i >= s.len() {
        Seq::empty()
    } else if s[i] == '`' {
        let j = ticks_end(s, i);
        proof {
            lemma_ticks_end(s, i);
            lemma_closing_ticks(s, j, j - i);
        }
        match closing_ticks(s, j, j - i) {
            Some(r) => seq![s.subrange(j, r)] + ticked(s, r + (j - i)),
            None => ticked(s, j),
        }
    } else {
        ticked(s, i + 1)
    }
}

/// A closing run lies within the text, and is a run.
pub proof fn lemma_closing_ticks(s: Seq<char>, i: int, n: int)
    requires
        0 <= i <= s.len(),
    ensures
        closing_ticks(s, i, n) matches Some(r) ==> i <= r < s.len() && s[r] == '`' && ticks_end(s, r)
            == r + n && r + n <= s.len(),
    decreases s.len() - i,
{
    if i < s.len() {
        lemma_ticks_end(s, i);
        if s[i] == '`' {
            if ticks_end(s, i) - i != n {
                lemma_closing_ticks(s, ticks_end(s, i), n);
            }
        } else {
            lemma_closing_ticks(s, i + 1, n);
        }
    }
}

/// A run of backticks ends within the text.
pub proof fn lemma_ticks_end(s: Seq<char>, i: int)
    requires
        0 <= i <= s.len(),
    ensures
        i <= ticks_end(s, i) <= s.len(),
        i < s.len() && s[i] == '`' ==> i < ticks_end(s, i),
    decreases s.len() - i,
{
    if i < s.len() && s[i] == '`' {
        lemma_ticks_end(s, i + 1);
    }
}

/// The end of the run of backticks that covers index `i`.
fn end_of_ticks(v: &Vec<char>, i: usize) -> (j: usize)
    requires
        i <= v@.len(),
    ensures
        j == ticks_end(v@, i as int),
        i <= j <= v@.len(),
{
    let mut j: usize = i;
    while j < v.len() && v[j] == '`'
        invariant
            i <= j <= v@.len(),
            ticks_end(v@, i as int) == ticks_end(v@, j as int),
        decreases v@.len() - j,
    {
        j = j + 1;
    }
    j
}

/// The first run of just `n` backticks.
fn find_closing_ticks(v: &Vec<char>, from: usize, n: usize) -> (r: Option<usize>)
    requires
        from <= v@.len(),
    ensures
        match r {
            Some(i) => closing_ticks(v@, from as int, n as int) == Some(i as int),
            None => closing_ticks(v@, from as int, n as int) is None,
        },
{
    let mut i: usize = from;
    while i < v.len()
        invariant
            i <= v@.len(),
            closing_ticks(v@, from as int, n as int) == closing_ticks(v@, i as int, n as int),
        decreases v@.len() - i,
    {
        proof {
            lemma_ticks_end(v@, i as int);
        }
        if v[i] == '`' {
            let j: usize = end_of_ticks(v, i);
            if j - i == n {
                return Some(i);
            }
            i = j;
        } else {
            i = i + 1;
        }
    }
    None
}

/// The texts between backticks, in order.
pub fn backtick_spans(content: &str) -> (r: Vec<String>)
    ensures
        text::views(r@) == ticked(content@, 0),
{
    let v: Vec<char> = chars_of(content);
    let mut out: Vec<String> = Vec::new();
    let mut i: usize = 0;
    assert(text::views(out@) + ticked(v@, 0) =~= ticked(v@, 0));
    while i < v.len()
        invariant
            i <= v@.len(),
            v@ == content@,
            ticked(v@, 0) == text::views(out@) + ticked(v@, i as int),
        decreases v@.len() - i,
    {
        let ghost before = text::views(out@);
        if v[i] == '`' {
            let start: usize = i;
            let j: usize = end_of_ticks(&v, start);
            proof {
                lemma_ticks_end(v@, start as int);
                lemma_closing_ticks(v@, j as int, j - start);
            }
            match find_closing_ticks(&v, j, j - start) {
                Some(r) => {
                    let span: String = string_of(&v, j, r);
                    out.push(span);
                    proof {
                        assert(text::views(out@) =~= before.push(span@));
                        assert(text::views(out@) + ticked(v@, r + (j - start)) =~= before + ticked(
                            v@,
                            start as int,
                        ));
                    }
                    i = r + (j - start);
                },
                None => {
                    i = j;
                },
            }
        } else {
            i = i + 1;
        }
    }
    proof {
        assert(text::views(out@) =~= ticked(content@, 0));
    }
    out
}

/// The runs of letters, digits, `_` and `:`.
pub fn tokenize(content: &str) -> (r: Vec<String>)
    ensures
        text::views(r@) == text::runs(content@, CharClass::Symbol),
{
    runs_of(content, CharClass::Symbol)
}

/// Whether a lowercase letter is followed by an uppercase one.
pub open spec fn case_shift(s: Seq<char>) -> bool {
    exists|i: int|
        0 <= i < s.len() - 1 && text::lowercase(#[trigger] s[i]) && text::uppercase(s[i + 1])
}

/// Whether one of two neighbours is an ASCII digit and the other a letter.
pub open spec fn digit_meets_letter(a: char, b: char) -> bool {
    (text::ascii_digit(a) && text::alphabetic(b)) || (text::alphabetic(a) && text::ascii_digit(b))
}

/// Whether `s` holds an ASCII digit next to a letter.
pub open spec fn has_digit_by_letter(s: Seq<char>) -> bool {
    exists|i: int| 0 <= i < s.len() - 1 && digit_meets_letter(#[trigger] s[i], s[i + 1])
}

/// Whether a token without colons at its ends is a code-like name: it takes two
/// bytes at least, begins with a letter or `_`, and holds `_`, `::`, a shift
/// from lowercase to uppercase, or a digit next to a letter.
pub open spec fn identifier(tok: Seq<char>) -> bool {
    let t = text::trim_end_char(text::trim_start_char(tok, ':'), ':');
    &&& text::utf8_len(t) >= 2
    &&& t.len() > 0
    &&& text::alphabetic(t[0]) || t[0] == '_'
    &&& t.contains('_') || text::contains_text(t, seq![':', ':']) || case_shift(t)
        || has_digit_by_letter(t)
}

/// Whether a token is a code-like name.
pub fn is_identifier(tok: &str) -> (r: bool)
    ensures
        r == identifier(tok@),
{
    let lead: String = trim_start_char_text(tok, ':');
    let t: String = trim_end_char_text(lead.as_str(), ':');
    let v: Vec<char> = chars_of(t.as_str());
    if byte_len(t.as_str()) < 2 || v.len() == 0 {
        return false;
    }
    if !(char_is_alphabetic(v[0]) || v[0] == '_') {
        return false;
    }
    let mut colons: Vec<char> = Vec::new();
    colons.push(':');
    colons.push(':');
    proof {
        assert(colons@ =~= seq![':', ':']);
        text::lemma_find_text(v@, colons@, 0);
    }
    if text_index(&v, &colons, 0).is_some() {
        return true;
    }
    let mut i: usize = 0;
    let mut prev_lower: bool = false;
    let mut prev_digit: bool = false;
    let mut prev_letter: bool = false;
    let mut found: bool = false;
    while i < v.len()
        invariant
            i <= v@.len(),
            prev_lower == (i > 0 && text::lowercase(v@[i - 1])),
            prev_digit == (i > 0 && text::ascii_digit(v@[i - 1])),
            prev_letter == (i > 0 && text::alphabetic(v@[i - 1])),
            found == ((exists|j: int| 0 <= j < i && v@[j] == '_') || (exists|j: int|
                0 <= j < i - 1 && text::lowercase(#[trigger] v@[j]) && text::uppercase(v@[j + 1]))
                || (exists|j: int| 0 <= j < i - 1 && digit_meets_letter(#[trigger] v@[j], v@[j + 1]))),
        decreases v@.len() - i,
    {
        let c: char = v[i];
        let u: u32 = c as u32;
        let under: bool = c == '_';
        let digit: bool = 0x30 <= u && u <= 0x39;
        let letter: bool = char_is_alphabetic(c);
        let met: bool = (prev_digit && letter) || (prev_letter && digit);
        let shift: bool = prev_lower && char_is_uppercase(c);
        proof {
            if under {
                assert(v@[i as int] == '_');
            }
            if met {
                assert(digit_meets_letter(v@[i - 1], v@[i - 1 + 1]));
            }
            if shift {
                assert(text::lowercase(v@[i - 1]) && text::uppercase(v@[i - 1 + 1]));
            }
        }
        if under || met || shift {
            found = true;
        }
        prev_lower = char_is_lowercase(c);
        prev_digit = digit;
        prev_letter = letter;
        i = i + 1;
    }
    proof {
        if v@.contains('_') {
            let j = choose|j: int| 0 <= j < v@.len() && v@[j] == '_';
            assert(0 <= j < i && v@[j] == '_');
        }
    }
    found
}

/// Whether `x` is the lowercase form of an identifier among the tokens of `s`.
pub open spec fn names_in(s: Seq<char>, x: Seq<char>) -> bool {
    exists|i: int|
        0 <= i < text::runs(s, CharClass::Symbol).len() && identifier(
            #[trigger] text::runs(s, CharClass::Symbol)[i],
        ) && x == text::ascii_lowered(text::runs(s, CharClass::Symbol)[i])
}

/// Whether `x` is the lowercase form of an identifier in `s` or in one of its
/// texts between backticks.
pub open spec fn names_identifier(s: Seq<char>, x: Seq<char>) -> bool {
    names_in(s, x) || exists|i: int|
        0 <= i < ticked(s, 0).len() && names_in(#[trigger] ticked(s, 0)[i], x)
}

/// Adds the identifiers of a text, in lowercase.
fn add_identifiers(out: &mut Vec<String>, content: &str)
    requires
        ordered::ascending(text::views(old(out)@)),
    ensures
        ordered::ascending(text::views(final(out)@)),
        forall|x: Seq<char>|
            #[trigger] text::views(final(out)@).contains(x) <==> text::views(old(out)@).contains(x)
                || names_in(content@, x),
{
    let toks: Vec<String> = tokenize(content);
    let ghost tv = text::views(toks@);
    let ghost had = text::views(out@);
    let mut i: usize = 0;
    while i < toks.len()
        invariant
            i <= toks@.len(),
            tv == text::views(toks@),
            ordered::ascending(text::views(out@)),
            forall|x: Seq<char>|
                #[trigger] text::views(out@).contains(x) <==> had.contains(x) || exists|j: int|
                    0 <= j < i && identifier(#[trigger] tv[j]) && x == text::ascii_lowered(tv[j]),
        decreases toks@.len() - i,
    {
        let ghost before = text::views(out@);
        assert(tv[i as int] == toks@[i as int]@);
        if is_identifier(toks[i].as_str()) {
            let low: String = ascii_lower_text(toks[i].as_str());
            let ghost k = low@;
            insert_key_text(out, low);
            proof {
                ordered::lemma_insert_ascending(before, k);
                assert forall|x: Seq<char>| #[trigger] text::views(out@).contains(x) <==> had.contains(
                    x,
                ) || exists|j: int|
                    0 <= j < i + 1 && identifier(#[trigger] tv[j]) && x == text::ascii_lowered(
                        tv[j],
                    ) by {
                    ordered::lemma_insert_key(before, k, x);
                    if x == k {
                        assert(identifier(tv[i as int]) && x == text::ascii_lowered(tv[i as int]));
                    }
                }
            }
        }
        i = i + 1;
    }
    proof {
        assert(tv.len() == toks@.len());
    }
}

/// Whether `names` lists the code-like names of `s` in ascending order, none twice.
pub open spec fn lists_identifiers(names: Seq<Seq<char>>, s: Seq<char>) -> bool {
    &&& ordered::ascending(names)
    &&& forall|x: Seq<char>| #[trigger] names.contains(x) <==> names_identifier(s, x)
}

/// The code-like names of a text in lowercase, in ascending order, none twice.
/// Plain words of one case are not among them.
pub fn extract_identifiers(content: &str) -> (r: Vec<String>)
    ensures
        lists_identifiers(text::views(r@), content@),
{
    let mut out: Vec<String> = Vec::new();
    let spans: Vec<String> = backtick_spans(content);
    let ghost sv = text::views(spans@);
    let mut i: usize = 0;
    while i < spans.len()
        invariant
            i <= spans@.len(),
            sv == text::views(spans@),
            ordered::ascending(text::views(out@)),
            forall|x: Seq<char>|
                #[trigger] text::views(out@).contains(x) <==> exists|j: int|
                    0 <= j < i && names_in(#[trigger] sv[j], x),
        decreases spans@.len() - i,
    {
        let ghost before = text::views(out@);
        assert(sv[i as int] == spans@[i as int]@);
        add_identifiers(&mut out, spans[i].as_str());
        proof {
            assert forall|x: Seq<char>| #[trigger] text::views(out@).contains(x) <==> exists|j: int|
                0 <= j < i + 1 && names_in(#[trigger] sv[j], x) by {
                assert(before.contains(x) <==> exists|j: int|
                    0 <= j < i && names_in(#[trigger] sv[j], x));
                if names_in(sv[i as int], x) {
                    assert(0 <= i as int && names_in(sv[i as int], x));
                }
            }
        }
        i = i + 1;
    }
    add_identifiers(&mut out, content);
    proof {
        assert(sv.len() == spans@.len());
    }
    out
}

/// `s` with a blank for every backtick.
pub open spec fn unticked(s: Seq<char>) -> Seq<char> {
    s.map_values(
        |c: char|
            if c == '`' {
                ' '
            } else {
                c
            },
    )
}

/// Backticks do no more than part words: a text names what it names with blanks in
/// their place.
pub proof fn law_backticks_only_separate(
    s: Seq<char>,
    names: Seq<Seq<char>>,
    unticked_names: Seq<Seq<char>>,
)
    requires
        lists_identifiers(names, s),
        lists_identifiers(unticked_names, unticked(s)),
    ensures
        names == unticked_names,
{
    assert forall|x: Seq<char>| names.contains(x) <==> unticked_names.contains(x) by {
        law_tokens_alone_name(s, x);
        law_tokens_alone_name(unticked(s), x);
        lemma_unticked_runs(s);
    }
    ordered::lemma_ascending_lists_agree(names, unticked_names);
}

/// Two texts with a blank between them name what either of them names, and name the
/// same in either order.
pub proof fn law_two_texts_name_what_either_names(
    a: Seq<char>,
    b: Seq<char>,
    names_a: Seq<Seq<char>>,
    names_b: Seq<Seq<char>>,
    forth: Seq<Seq<char>>,
    back: Seq<Seq<char>>,
)
    requires
        lists_identifiers(names_a, a),
        lists_identifiers(names_b, b),
        lists_identifiers(forth, a + seq![' '] + b),
        lists_identifiers(back, b + seq![' '] + a),
    ensures
        forall|x: Seq<char>|
            #[trigger] forth.contains(x) <==> names_a.contains(x) || names_b.contains(x),
        forth == back,
{
    assert forall|x: Seq<char>|
        #[trigger] forth.contains(x) <==> names_a.contains(x) || names_b.contains(x) by {
        lemma_names_of_two(a, b, x);
    }
    assert forall|x: Seq<char>| forth.contains(x) <==> back.contains(x) by {
        assert(forth.contains(x) <==> names_a.contains(x) || names_b.contains(x));
        lemma_names_of_two(b, a, x);
    }
    ordered::lemma_ascending_lists_agree(forth, back);
}

proof fn lemma_names_of_two(a: Seq<char>, b: Seq<char>, x: Seq<char>)
    ensures
        names_identifier(a + seq![' '] + b, x) <==> names_identifier(a, x) || names_identifier(
            b,
            x,
        ),
{
    let s = a + seq![' '] + b;
    law_tokens_alone_name(s, x);
    law_tokens_alone_name(a, x);
    law_tokens_alone_name(b, x);
    text::lemma_runs_across(a, seq![' '], CharClass::Symbol);
    text::lemma_runs_across(a + seq![' '], b, CharClass::Symbol);
    assert(text::runs(seq![' '].skip(1), CharClass::Symbol) =~= Seq::empty());
    let none = text::runs(seq![' '], CharClass::Symbol);
    assert(none =~= Seq::empty());
    let (ra, rb) = (text::runs(a, CharClass::Symbol), text::runs(b, CharClass::Symbol));
    assert(text::runs(s, CharClass::Symbol) =~= ra + rb);
    lemma_names_in_runs(s, ra, rb, Seq::empty(), x);
    lemma_listed(a, x);
    lemma_listed(b, x);
}

/// Whether `x` is the lowercase form of an identifier among `toks`.
spec fn named_by(toks: Seq<Seq<char>>, x: Seq<char>) -> bool {
    exists|i: int|
        0 <= i < toks.len() && identifier(#[trigger] toks[i]) && x == text::ascii_lowered(toks[i])
}

proof fn lemma_listed(s: Seq<char>, x: Seq<char>)
    ensures
        names_in(s, x) <==> named_by(text::runs(s, CharClass::Symbol), x),
{
}

proof fn lemma_names_in_runs(
    s: Seq<char>,
    a: Seq<Seq<char>>,
    b: Seq<Seq<char>>,
    c: Seq<Seq<char>>,
    x: Seq<char>,
)
    requires
        text::runs(s, CharClass::Symbol) == a + b + c,
    ensures
        names_in(s, x) <==> named_by(a, x) || named_by(b, x) || named_by(c, x),
{
    let all = a + b + c;
    lemma_listed(s, x);
    if named_by(all, x) {
        let i = choose|i: int|
            0 <= i < all.len() && identifier(#[trigger] all[i]) && x == text::ascii_lowered(all[i]);
        if i < a.len() {
            assert(a[i] == all[i]);
        } else if i < a.len() + b.len() {
            assert(b[i - a.len()] == all[i]);
        } else {
            assert(c[i - a.len() - b.len()] == all[i]);
        }
    }
    if named_by(a, x) {
        let i = choose|i: int|
            0 <= i < a.len() && identifier(#[trigger] a[i]) && x == text::ascii_lowered(a[i]);
        assert(all[i] == a[i]);
    }
    if named_by(b, x) {
        let i = choose|i: int|
            0 <= i < b.len() && identifier(#[trigger] b[i]) && x == text::ascii_lowered(b[i]);
        assert(all[a.len() + i] == b[i]);
    }
    if named_by(c, x) {
        let i = choose|i: int|
            0 <= i < c.len() && identifier(#[trigger] c[i]) && x == text::ascii_lowered(c[i]);
        assert(all[a.len() + b.len() + i] == c[i]);
    }
}

/// A text names the lowercase forms of those of its tokens that are identifiers, and
/// nothing else: what stands between backticks names no more than the whole text.
pub proof fn law_tokens_alone_name(s: Seq<char>, x: Seq<char>)
    ensures
        names_identifier(s, x) <==> names_in(s, x),
{
    if names_identifier(s, x) && !names_in(s, x) {
        let k = choose|k: int|
            0 <= k < ticked(s, 0).len() && names_in(#[trigger] ticked(s, 0)[k], x);
        lemma_span_names(s, 0, k, x);
    }
}

proof fn lemma_span_names(s: Seq<char>, i: int, k: int, x: Seq<char>)
    requires
        0 <= i <= s.len(),
        0 <= k < ticked(s, i).len(),
        names_in(ticked(s, i)[k], x),
    ensures
        names_in(s, x),
    decreases s.len() - i,
{
    if s[i] == '`' {
        let j = ticks_end(s, i);
        lemma_ticks_end(s, i);
        lemma_ticks(s, i, j - 1);
        lemma_closing_ticks(s, j, j - i);
        match closing_ticks(s, j, j - i) {
            Some(r) => {
                let span = s.subrange(j, r);
                let rest = ticked(s, r + (j - i));
                assert(ticked(s, i) == seq![span] + rest);
                if k == 0 {
                    lemma_part_between_ticks(s, j, r, x);
                } else {
                    assert(ticked(s, i)[k] == rest[k - 1]);
                    lemma_span_names(s, r + (j - i), k - 1, x);
                }
            },
            None => lemma_span_names(s, j, k, x),
        }
    } else {
        lemma_span_names(s, i + 1, k, x);
    }
}

proof fn lemma_ticks(s: Seq<char>, i: int, k: int)
    requires
        0 <= i <= k < ticks_end(s, i),
        i <= s.len(),
    ensures
        k < s.len(),
        s[k] == '`',
    decreases s.len() - i,
{
    if i < k {
        lemma_ticks(s, i + 1, k);
    }
}

proof fn lemma_part_between_ticks(s: Seq<char>, j: int, r: int, x: Seq<char>)
    requires
        0 < j <= r < s.len(),
        s[j - 1] == '`',
        s[r] == '`',
        names_in(s.subrange(j, r), x),
    ensures
        names_in(s, x),
{
    let (a, b, c) = (s.take(j), s.subrange(j, r), s.skip(r));
    assert(a.last() == '`' && c[0] == '`');
    text::lemma_runs_across(a, b, CharClass::Symbol);
    text::lemma_runs_across(a + b, c, CharClass::Symbol);
    assert(s =~= a + b + c);
    lemma_listed(b, x);
    lemma_names_in_runs(
        s,
        text::runs(a, CharClass::Symbol),
        text::runs(b, CharClass::Symbol),
        text::runs(c, CharClass::Symbol),
        x,
    );
}

proof fn lemma_unticked_runs(s: Seq<char>)
    ensures
        text::runs(unticked(s), CharClass::Symbol) == text::runs(s, CharClass::Symbol),
    decreases s.len(),
{
    let class = CharClass::Symbol;
    let u = unticked(s);
    if s.len() > 0 {
        if !text::in_class(class, s[0]) {
            assert(!text::in_class(class, u[0]));
            assert(u.skip(1) =~= unticked(s.skip(1)));
            lemma_unticked_runs(s.skip(1));
        } else {
            let n = text::run_len(s, class) as int;
            text::lemma_run_len(s, class);
            let (a, rest) = (s.take(n), s.skip(n));
            assert forall|i: int| 0 <= i < n implies a[i] == u[i] by {
                assert(text::in_class(class, s[i]));
            }
            assert(s =~= a + rest);
            assert(u =~= a + unticked(rest));
            lemma_unticked_runs(rest);
            text::lemma_runs_first(a, rest, class);
            text::lemma_runs_first(a, unticked(rest), class);
        }
    }
}

} // verus!
