//! What is found of memory: keys and words, links and names, hits and ranks, lines and
//! files, in terms of the texts.
use vstd::prelude::*;
use vstd::string::*;
use crate::memory::chunk::{ChunkView, MemorySource};
use crate::memory::chunking;
use crate::memory::config::Score;
use crate::memory::files;
use crate::memory::files::DailyFile;
use crate::memory::hits;
use crate::memory::hits::HitView;
use crate::memory::index::Fts5Index;
use crate::memory::keys;
use crate::memory::links;
use crate::memory::paths;
use crate::memory::recall;
use crate::memory::search;
use crate::memory::search::SearchStep;
use crate::memory::stats::StatMap;
use crate::number;
use crate::schema;
use crate::text;
use crate::text::CharClass;
use crate::date;
use crate::ordered;

verus! {

// ---------------------------------------------------------------------------
// Texts
// ---------------------------------------------------------------------------

/// Trimming a text drops white space at its ends and nothing else: what is left begins
/// and ends with something other than white space.
pub proof fn law_trimming_drops_white_space_alone(s: Seq<char>)
    ensures
        exists|a: Seq<char>, b: Seq<char>| #[trigger]
            (a + text::trim(s) + b) == s && text::blank(a) && text::blank(b),
        exists|b: Seq<char>| #[trigger] (text::trim_end(s) + b) == s && text::blank(b),
        text::trim(s).len() > 0 ==> !text::is_space(text::trim(s)[0]) && !text::is_space(
            text::trim(s).last(),
        ),
        text::trim_end(s).len() > 0 ==> !text::is_space(text::trim_end(s).last()),
{
    lemma_trim_start(s);
    let m = text::trim_start(s);
    let a = choose|a: Seq<char>| #[trigger] (a + m) == s && text::blank(a);
    lemma_trim_end(m);
    lemma_trim_end(s);
    let b = choose|b: Seq<char>| #[trigger] (text::trim_end(m) + b) == m && text::blank(b);
    assert(a + text::trim(s) + b =~= s);
    if text::trim(s).len() > 0 {
        assert(m[0] == text::trim(s)[0]);
    }
}

proof fn lemma_trim_start(s: Seq<char>)
    ensures
        exists|a: Seq<char>| #[trigger] (a + text::trim_start(s)) == s && text::blank(a),
        text::trim_start(s).len() > 0 ==> !text::is_space(text::trim_start(s)[0]),
    decreases s.len(),
{
    if s.len() > 0 && text::is_space(s[0]) {
        lemma_trim_start(s.skip(1));
        let a = choose|a: Seq<char>| #[trigger]
            (a + text::trim_start(s.skip(1))) == s.skip(1) && text::blank(a);
        let b = seq![s[0]] + a;
        assert(b + text::trim_start(s) =~= seq![s[0]] + s.skip(1));
        assert(seq![s[0]] + s.skip(1) =~= s);
        assert(text::blank(b));
    } else {
        let none = Seq::<char>::empty();
        assert(none + text::trim_start(s) =~= s);
        assert(text::blank(none));
    }
}

proof fn lemma_trim_end(s: Seq<char>)
    ensures
        exists|b: Seq<char>| #[trigger] (text::trim_end(s) + b) == s && text::blank(b),
        text::trim_end(s).len() > 0 ==> !text::is_space(text::trim_end(s).last()),
    decreases s.len(),
{
    if s.len() > 0 && text::is_space(s.last()) {
        let front = s.drop_last();
        lemma_trim_end(front);
        let a = choose|a: Seq<char>| #[trigger]
            (text::trim_end(front) + a) == front && text::blank(a);
        let b = a.push(s.last());
        assert(text::trim_end(s) + b =~= front.push(s.last()));
        assert(front.push(s.last()) =~= s);
        assert(text::blank(b));
    } else {
        let none = Seq::<char>::empty();
        assert(text::trim_end(s) + none =~= s);
        assert(text::blank(none));
    }
}

// ---------------------------------------------------------------------------
// Keys
// ---------------------------------------------------------------------------

/// The words of lines, one after the other.
pub open spec fn words_of(ls: Seq<Seq<char>>) -> Seq<Seq<char>>
    decreases ls.len(),
{
    if ls.len() == 0 {
        Seq::empty()
    } else {
        words_of(ls.drop_last()) + text::runs(ls.last(), CharClass::NonSpace)
    }
}

/// Normalising a text keeps each of its words, in order: what is hashed changes with
/// every change of a word.
pub proof fn law_normalizing_keeps_every_word(s: Seq<char>)
    ensures
        text::runs(keys::normalized(s), CharClass::NonSpace) == text::runs(
            s,
            CharClass::NonSpace,
        ),
{
    let ls = text::lines(s);
    let kept = keys::kept_lines(ls, ls.len() as int);
    lemma_words_of_text(s);
    lemma_words_kept(ls, ls.len() as int);
    assert(ls.take(ls.len() as int) =~= ls);
    lemma_words_of_joined(kept);
}

proof fn lemma_words_of_joined(ls: Seq<Seq<char>>)
    ensures
        text::runs(text::join(ls, seq!['\n']), CharClass::NonSpace) == words_of(ls),
    decreases ls.len(),
{
    let class = CharClass::NonSpace;
    let sep = seq!['\n'];
    assert(text::is_space('\n'));
    if ls.len() == 0 {
        assert(text::runs(text::join(ls, sep), class) =~= words_of(ls));
    } else if ls.len() == 1 {
        assert(words_of(ls.drop_last()) =~= Seq::empty());
        assert(words_of(ls) =~= text::runs(ls[0], class));
    } else {
        let front = ls.drop_last();
        lemma_words_of_joined(front);
        let a = text::join(front, sep);
        text::lemma_runs_across(a, sep, class);
        text::lemma_runs_across(a + sep, ls.last(), class);
        assert(text::runs(sep.skip(1), class) =~= Seq::empty());
        assert(text::runs(sep, class) =~= Seq::empty());
        assert(text::runs(a, class) + Seq::empty() =~= text::runs(a, class));
    }
}

proof fn lemma_words_kept(ls: Seq<Seq<char>>, n: int)
    requires
        0 <= n <= ls.len(),
    ensures
        words_of(keys::kept_lines(ls, n)) == words_of(ls.take(n)),
    decreases n,
{
    let class = CharClass::NonSpace;
    if n > 0 {
        lemma_words_kept(ls, n - 1);
        let line = ls[n - 1];
        let ws = text::runs(line, class);
        let now = ls.take(n);
        assert(now.drop_last() =~= ls.take(n - 1));
        let prev = keys::kept_lines(ls, n - 1);
        assert forall|i: int| 0 <= i < ws.len() implies keys::is_word(#[trigger] ws[i]) by {
            text::lemma_runs_are_runs(line, class, i);
        }
        keys::lemma_words_joined(ws);
        let t = keys::collapsed(line);
        if t.len() == 0 {
            assert(text::runs(t, class) =~= Seq::empty());
            assert(ws.len() == 0);
            assert(words_of(now) =~= words_of(ls.take(n - 1)));
        } else {
            let out = prev.push(t);
            assert(out.drop_last() =~= prev);
            assert(words_of(out) == words_of(prev) + ws);
        }
    } else {
        assert(ls.take(0) =~= Seq::empty());
    }
}

proof fn lemma_words_of_text(s: Seq<char>)
    ensures
        text::runs(s, CharClass::NonSpace) == words_of(text::lines(s)),
    decreases s.len(),
{
    let class = CharClass::NonSpace;
    let ls = text::lines(s);
    if s.len() == 0 {
        assert(words_of(ls) =~= Seq::empty());
    } else {
        let n = text::find_char(s, '\n', 0);
        text::lemma_find_char(s, '\n', 0);
        if n >= s.len() {
            assert(ls =~= seq![s]);
            assert(words_of(ls.drop_last()) =~= Seq::empty());
            assert(words_of(ls) =~= text::runs(s, class));
        } else {
            let line = s.take(n);
            let rest = s.skip(n + 1);
            lemma_words_of_text(rest);
            lemma_words_first(text::strip_cr(line), text::lines(rest));
            assert(text::is_space('\n') && text::is_space('\r'));
            let sep = seq!['\n'];
            assert(s =~= line + sep + rest);
            text::lemma_runs_across(line, sep, class);
            text::lemma_runs_across(line + sep, rest, class);
            assert(text::runs(sep.skip(1), class) =~= Seq::empty());
            assert(text::runs(sep, class) =~= Seq::empty());
            assert(text::runs(line, class) + Seq::empty() =~= text::runs(line, class));
            if line.len() > 0 && line.last() == '\r' {
                let cut = line.drop_last();
                let cr = seq!['\r'];
                assert(line =~= cut + cr);
                text::lemma_runs_across(cut, cr, class);
                assert(text::runs(cr.skip(1), class) =~= Seq::empty());
                assert(text::runs(cr, class) =~= Seq::empty());
                assert(text::runs(cut, class) + Seq::empty() =~= text::runs(cut, class));
            }
        }
    }
}

proof fn lemma_words_first(line: Seq<char>, rest: Seq<Seq<char>>)
    ensures
        words_of(seq![line] + rest) == text::runs(line, CharClass::NonSpace) + words_of(rest),
    decreases rest.len(),
{
    let all = seq![line] + rest;
    if rest.len() == 0 {
        assert(all.drop_last() =~= Seq::empty());
        assert(words_of(all.drop_last()) =~= Seq::empty());
        assert(all.last() == line);
        assert(words_of(all) =~= text::runs(line, CharClass::NonSpace) + words_of(rest));
    } else {
        lemma_words_first(line, rest.drop_last());
        assert(all.drop_last() =~= seq![line] + rest.drop_last());
        assert(all.last() == rest.last());
        assert(words_of(all) =~= text::runs(line, CharClass::NonSpace) + words_of(rest));
    }
}

/// A content key tells the heading and then the hash of the text; the key of a chunk
/// tells its source before it.
pub proof fn law_a_key_tells_source_heading_and_text(c: ChunkView)
    ensures
        ({
            let hash = keys::text_hash(c.text);
            let k = keys::content_key_spec(c.heading, c.text);
            &&& c.heading is Some ==> k == c.heading->0 + seq![':'] + hash
            &&& c.heading is None ==> k == seq![':'] + hash
            &&& c.source is Curated ==> keys::chunk_key_spec(c) == "curated"@ + seq![':'] + k
            &&& "daily:"@.is_prefix_of(keys::source_tag(c.source)) <==> c.source is Daily
            &&& k.is_suffix_of(keys::chunk_key_spec(c))
        }),
{
    let hash = keys::text_hash(c.text);
    let k = keys::content_key_spec(c.heading, c.text);
    if c.heading is None {
        assert(k =~= seq![':'] + hash);
    }
    let all = keys::chunk_key_spec(c);
    assert(all.subrange(all.len() - k.len(), all.len() as int) =~= k);
    reveal_strlit("curated");
    reveal_strlit("daily:");
    assert("curated"@[0] == 'c' && "daily:"@[0] == 'd');
    let tag = keys::source_tag(c.source);
    if c.source is Daily {
        assert(tag.take(6) =~= "daily:"@);
    } else if "daily:"@.is_prefix_of(tag) {
        assert(tag.take(6)[0] == tag[0]);
    }
}

// ---------------------------------------------------------------------------
// Links and names
// ---------------------------------------------------------------------------

/// A link names what stands before its bar, or all of it, without white space at its
/// ends.
pub proof fn law_a_link_names_what_stands_before_its_bar(a: Seq<char>, b: Seq<char>)
    requires
        !a.contains('|'),
    ensures
        links::link_target(a) == text::trim(a),
        links::link_target(a + seq!['|'] + b) == text::trim(a),
{
    let n = text::find_char(a, '|', 0);
    text::lemma_find_char(a, '|', 0);
    if n < a.len() {
        assert(a.contains(a[n]));
    }
    assert(a.take(a.len() as int) =~= a);
    let s = a + seq!['|'] + b;
    let m = text::find_char(s, '|', 0);
    text::lemma_find_char(s, '|', 0);
    assert(s[a.len() as int] == '|');
    if m < a.len() {
        assert(a.contains(a[m]));
        assert(s[m] == a[m]);
    }
    assert(s.take(m) =~= a);
}

/// A link is found where it stands, behind any text without a bracket, and what follows
/// it is searched on.
pub proof fn law_a_link_is_found_where_it_stands(
    pre: Seq<char>,
    inner: Seq<char>,
    post: Seq<char>,
)
    requires
        !pre.contains('['),
        !inner.contains(']'),
    ensures
        ({
            let s = pre + seq!['[', '['] + inner + seq![']', ']'] + post;
            let t = links::link_target(inner);
            let rest = links::link_targets(s, (pre.len() + inner.len()) as int + 4);
            &&& t.len() > 0 ==> links::link_targets(s, 0) == seq![t] + rest
            &&& t.len() == 0 ==> links::link_targets(s, 0) == rest
        }),
{
    let s = pre + seq!['[', '['] + inner + seq![']', ']'] + post;
    let p = pre.len() as int;
    lemma_before_link(s, 0, p);
    let close = p + 2 + inner.len();
    let mark = seq![']', ']'];
    assert(s[p] == '[' && s[p + 1] == '[');
    text::lemma_find_text(s, mark, p + 2);
    assert(s.subrange(close, close + 2) =~= mark);
    assert(text::stands_at(s, mark, close));
    let found = text::find_text(s, mark, p + 2);
    assert(found is Some);
    let f = found->0;
    if f < close {
        assert(s.subrange(f, f + 2)[0] == mark[0]);
        assert(s[f] == inner[f - p - 2]);
        assert(inner.contains(inner[f - p - 2]));
    }
    assert(f == close);
    assert(s.subrange(p + 2, close) =~= inner);
    let rest = links::link_targets(s, close + 2);
    if links::link_target(inner).len() == 0 {
        assert(Seq::<Seq<char>>::empty() + rest =~= rest);
    }
}

proof fn lemma_before_link(s: Seq<char>, i: int, p: int)
    requires
        0 <= i <= p,
        p + 1 < s.len(),
        forall|k: int| 0 <= k < p ==> s[k] != '[',
    ensures
        links::link_targets(s, i) == links::link_targets(s, p),
    decreases p - i,
{
    if i < p {
        lemma_before_link(s, i + 1, p);
    }
}

/// A token is a name just where it is at least two bytes long, begins with a letter or an
/// underscore, and holds an underscore, two colons, a shift of case or a digit next to
/// a letter. Colons at its ends do not matter.
pub proof fn law_what_makes_a_token_a_name(tok: Seq<char>)
    requires
        tok.len() > 0,
        tok[0] != ':',
        tok.last() != ':',
    ensures
        links::identifier(tok) <==> {
            &&& text::utf8_len(tok) >= 2
            &&& text::alphabetic(tok[0]) || tok[0] == '_'
            &&& {
                ||| tok.contains('_')
                ||| text::contains_text(tok, seq![':', ':'])
                ||| exists|i: int|
                    0 <= i < tok.len() - 1 && text::lowercase(#[trigger] tok[i]) && text::uppercase(
                        tok[i + 1],
                    )
                ||| exists|i: int|
                    0 <= i < tok.len() - 1 && text::alphabetic(#[trigger] tok[i])
                        && text::ascii_digit(tok[i + 1])
                ||| exists|i: int|
                    0 <= i < tok.len() - 1 && text::ascii_digit(#[trigger] tok[i])
                        && text::alphabetic(tok[i + 1])
            }
        },
        links::identifier(seq![':'] + tok) == links::identifier(tok),
        links::identifier(tok.push(':')) == links::identifier(tok),
{
    let before = seq![':'] + tok;
    let behind = tok.push(':');
    assert(text::trim_start_char(tok, ':') == tok);
    assert(text::trim_end_char(tok, ':') == tok);
    assert(before.skip(1) =~= tok);
    assert(text::trim_start_char(before, ':') == tok);
    assert(behind[0] == tok[0]);
    assert(text::trim_start_char(behind, ':') == behind);
    assert(behind.drop_last() =~= tok);
    if links::has_digit_by_letter(tok) {
        let i = choose|i: int|
            0 <= i < tok.len() - 1 && links::digit_meets_letter(#[trigger] tok[i], tok[i + 1]);
        if text::ascii_digit(tok[i]) && text::alphabetic(tok[i + 1]) {
        } else {
            assert(text::alphabetic(tok[i]) && text::ascii_digit(tok[i + 1]));
        }
    } else {
        assert forall|i: int| 0 <= i < tok.len() - 1 implies !links::digit_meets_letter(
            #[trigger] tok[i],
            tok[i + 1],
        ) by {}
    }
}

/// Whether links are the targets at the places: in order, each where it first comes, and
/// none left out.
pub open spec fn come_first(ts: Seq<Seq<char>>, at: Seq<int>, ws: Seq<Seq<char>>) -> bool {
    &&& at.len() == ws.len()
    &&& forall|i: int| 0 <= i < at.len() ==> 0 <= #[trigger] at[i] < ts.len() && ws[i] == ts[at[i]]
    &&& forall|i: int, j: int| 0 <= i < j < at.len() ==> #[trigger] at[i] < #[trigger] at[j]
    &&& forall|i: int, j: int|
        0 <= i < at.len() && 0 <= j < at[i] ==> #[trigger] ts[j] != #[trigger] ws[i]
    &&& forall|j: int| 0 <= j < ts.len() ==> ws.contains(#[trigger] ts[j])
}

/// The links of a text come in the order in which each is first named.
pub proof fn law_links_come_as_they_are_first_named(s: Seq<char>)
    ensures
        exists|at: Seq<int>| #[trigger]
            come_first(links::link_targets(s, 0), at, links::wikilinks(s)),
{
    let ts = links::link_targets(s, 0);
    let n = ts.len() as int;
    lemma_first_named(ts, n);
    assert(ts.take(n) =~= ts);
    let at = choose|at: Seq<int>| #[trigger] come_first(ts.take(n), at, links::first_seen(ts, n));
    assert(come_first(links::link_targets(s, 0), at, links::wikilinks(s)));
}

proof fn lemma_first_named(ts: Seq<Seq<char>>, n: int)
    requires
        0 <= n <= ts.len(),
    ensures
        exists|at: Seq<int>| #[trigger] come_first(ts.take(n), at, links::first_seen(ts, n)),
    decreases n,
{
    let now = ts.take(n);
    let ws = links::first_seen(ts, n);
    if n == 0 {
        assert(come_first(now, Seq::empty(), ws));
    } else {
        lemma_first_named(ts, n - 1);
        let before = ts.take(n - 1);
        let prev = links::first_seen(ts, n - 1);
        let at = choose|at: Seq<int>| #[trigger] come_first(before, at, prev);
        assert forall|j: int| 0 <= j < n - 1 implies #[trigger] now[j] == before[j] by {}
        let t = ts[n - 1];
        assert(now[n - 1] == t);
        if prev.contains(t) {
            assert forall|j: int| 0 <= j < now.len() implies ws.contains(#[trigger] now[j]) by {
                if j < n - 1 {
                    assert(prev.contains(before[j]));
                }
            }
            assert(come_first(now, at, ws));
        } else {
            let more = at.push(n - 1);
            assert(ws == prev.push(t));
            assert(ws[prev.len() as int] == t);
            assert forall|j: int| 0 <= j < now.len() implies ws.contains(#[trigger] now[j]) by {
                if j < n - 1 {
                    assert(prev.contains(before[j]));
                    let i = prev.index_of(before[j]);
                    assert(ws[i] == now[j]);
                }
            }
            assert forall|i: int, j: int| 0 <= i < more.len() && 0 <= j < more[i] implies
                #[trigger] now[j] != #[trigger] ws[i] by {
                if i < at.len() {
                    assert(ws[i] == prev[i]);
                    assert(before[j] != prev[i]);
                } else {
                    assert(prev.contains(before[j]));
                }
            }
            assert(come_first(now, more, ws));
        }
    }
}

/// What stands between two runs of as many backticks is a span of code, and what follows
/// is searched on; text without a backtick holds none.
pub proof fn law_code_stands_between_equal_backticks(
    pre: Seq<char>,
    ticks: Seq<char>,
    inner: Seq<char>,
    post: Seq<char>,
)
    requires
        !pre.contains('`'),
        !inner.contains('`'),
        inner.len() > 0,
        ticks.len() > 0,
        forall|i: int| 0 <= i < ticks.len() ==> #[trigger] ticks[i] == '`',
        post.len() > 0 ==> post[0] != '`',
    ensures
        ({
            let s = pre + ticks + inner + ticks + post;
            links::ticked(s, 0) == seq![inner] + links::ticked(s, s.len() - post.len())
        }),
        links::ticked(pre, 0).len() == 0,
{
    let s = pre + ticks + inner + ticks + post;
    let p = pre.len() as int;
    let n = ticks.len() as int;
    let r = p + n + inner.len();
    assert forall|i: int| 0 <= i < p implies #[trigger] s[i] != '`' by {
        assert(pre.contains(pre[i]));
        assert(s[i] == pre[i]);
    }
    lemma_before_ticks(s, 0, p);
    assert forall|i: int| p <= i < p + n implies #[trigger] s[i] == '`' by {
        assert(s[i] == ticks[i - p]);
    }
    assert forall|i: int| p + n <= i < r implies #[trigger] s[i] != '`' by {
        assert(s[i] == inner[i - p - n]);
        assert(inner.contains(inner[i - p - n]));
    }
    assert forall|i: int| r <= i < r + n implies #[trigger] s[i] == '`' by {
        assert(s[i] == ticks[i - r]);
    }
    if post.len() > 0 {
        assert(s[r + n] == post[0]);
    }
    lemma_ticks_run(s, p, p + n);
    lemma_ticks_run(s, r, r + n);
    lemma_before_close(s, p + n, r, n);
    assert(s.subrange(p + n, r) =~= inner);
    assert(links::closing_ticks(s, r, n) == Some(r));
    assert(s.len() - post.len() == r + n);
    assert forall|i: int| 0 <= i < p implies #[trigger] pre[i] != '`' by {
        assert(pre.contains(pre[i]));
    }
    lemma_before_ticks(pre, 0, p);
}

proof fn lemma_before_ticks(s: Seq<char>, i: int, p: int)
    requires
        0 <= i <= p <= s.len(),
        forall|k: int| i <= k < p ==> #[trigger] s[k] != '`',
    ensures
        links::ticked(s, i) == links::ticked(s, p),
    decreases p - i,
{
    if i < p {
        assert(s[i] != '`');
        lemma_before_ticks(s, i + 1, p);
    }
}

proof fn lemma_ticks_run(s: Seq<char>, i: int, j: int)
    requires
        0 <= i <= j <= s.len(),
        forall|k: int| i <= k < j ==> #[trigger] s[k] == '`',
        j < s.len() ==> s[j] != '`',
    ensures
        links::ticks_end(s, i) == j,
    decreases j - i,
{
    if i < j {
        assert(s[i] == '`');
        lemma_ticks_run(s, i + 1, j);
    }
}

proof fn lemma_before_close(s: Seq<char>, i: int, r: int, n: int)
    requires
        0 <= i <= r < s.len(),
        forall|k: int| i <= k < r ==> #[trigger] s[k] != '`',
    ensures
        links::closing_ticks(s, i, n) == links::closing_ticks(s, r, n),
    decreases r - i,
{
    if i < r {
        assert(s[i] != '`');
        lemma_before_close(s, i + 1, r, n);
    }
}

// ---------------------------------------------------------------------------
// Hits
// ---------------------------------------------------------------------------

/// Usage tells of a hit its weight and its last access, where decay is on and the chunk
/// has a row, and changes nothing else of it.
pub proof fn law_usage_tells_of_a_hit(h: HitView, m: StatMap, decay: bool, decayed: Score)
    ensures
        ({
            let k = keys::chunk_key_spec(h.chunk);
            let t = hits::annotated(h, m, decay, decayed);
            &&& t.chunk == h.chunk && t.score == h.score
            &&& !decay || !m.dom().contains(k) ==> t == h
            &&& decay && m.dom().contains(k) ==> t.last_accessed_ms == Some(m[k].last_accessed_ms)
            &&& decay && m.dom().contains(k) && m[k].pinned ==> t.weight == 0x3f80_0000
            &&& decay && m.dom().contains(k) && !m[k].pinned ==> t.weight == decayed
        }),
{
}

/// The best score is that of a hit, and no hit of a positive score has a higher one; it
/// is zero just where no hit has a positive score.
pub proof fn law_no_hit_scores_better_than_the_best(hs: Seq<HitView>, n: int)
    requires
        0 <= n <= hs.len(),
    ensures
        ({
            let best = search::best_score(hs, n);
            &&& forall|i: int|
                0 <= i < n && (#[trigger] hs[i]).score <= 0x7f80_0000 ==> hs[i].score <= best
            &&& best > 0 ==> exists|i: int| 0 <= i < n && (#[trigger] hs[i]).score == best
            &&& best <= 0x7f80_0000
        }),
    decreases n,
{
    if n > 0 {
        law_no_hit_scores_better_than_the_best(hs, n - 1);
        let best = search::best_score(hs, n);
        if best != search::best_score(hs, n - 1) {
            assert(hs[n - 1].score == best);
        }
    }
}

/// A search for the words of a query asks for as many matches as hits are wanted, and
/// for four times as many where they are to be ranked by similarity too; a query
/// without a word asks for nothing and finds nothing.
pub proof fn law_a_search_asks_for_its_words(
    query: Seq<char>,
    k: usize,
    vector: bool,
    r: SearchStep,
)
    requires
        search::begun(query, k, vector, r),
    ensures
        text::runs(query, CharClass::Alphanumeric).len() == 0 ==> r is Done && r->Done_found@.len()
            == 0,
        text::runs(query, CharClass::Alphanumeric).len() > 0 ==> r is Match && r->query@
            == text::join(
            Seq::new(
                text::runs(query, CharClass::Alphanumeric).len(),
                |i: int| seq!['"'] + text::runs(query, CharClass::Alphanumeric)[i] + seq!['"'],
            ),
            seq![' '],
        ),
        r is Match && !vector ==> r->limit == k,
        r is Match && vector && k * 4 <= usize::MAX ==> r->limit == k * 4,
{
    let ws = text::runs(query, CharClass::Alphanumeric);
    assert(recall::all_quoted(ws) =~= Seq::new(ws.len(), |i: int| seq!['"'] + ws[i] + seq!['"']));
}

/// Hits go on as they are: what matched is compared with the query where it has an
/// embedding, and is lifted where it has none and some hit has a positive score.
pub proof fn law_matches_go_on_as_they_are(
    state: Fts5Index,
    found: Seq<HitView>,
    decayed: Seq<Score>,
    vector: bool,
    r: SearchStep,
)
    requires
        search::matched(state, found, decayed, vector, r),
        found.len() > 0,
    ensures
        ({
            let hs = search::all_annotated(state, found, decayed);
            &&& hs.len() == found.len()
            &&& forall|i: int|
                0 <= i < hs.len() ==> (#[trigger] hs[i]).chunk == found[i].chunk && hs[i].score
                    == found[i].score
            &&& vector ==> r is Compare && hits::hit_views(r->Compare_found@) == hs
            &&& !vector && search::best_score(hs, hs.len() as int) == 0 ==> r is Done
                && hits::hit_views(r->Done_found@) == hs
            &&& !vector && search::best_score(hs, hs.len() as int) > 0 ==> r is Lift
                && hits::hit_views(r->Lift_found@) == hs && r->best == search::best_score(
                hs,
                hs.len() as int,
            )
        }),
{
}

/// Of two candidates that are similar to the query the more similar one has the better
/// rank, and of two that are equally so the earlier.
pub proof fn law_the_more_similar_has_the_better_rank(scores: Seq<Score>, i: int, j: int)
    requires
        0 <= i < scores.len(),
        0 <= j < scores.len(),
        scores[i] > 0,
        scores[j] > 0,
        scores[i] > scores[j] || (scores[i] == scores[j] && i < j),
    ensures
        recall::positive_before(scores, i, scores.len() as int) < recall::positive_before(
            scores,
            j,
            scores.len() as int,
        ),
{
    lemma_rank_order(scores, i, j, scores.len() as int);
}

proof fn lemma_rank_order(scores: Seq<Score>, i: int, j: int, n: int)
    requires
        0 <= n <= scores.len(),
        0 <= i < scores.len(),
        0 <= j < scores.len(),
        scores[i] > 0,
        scores[i] > scores[j] || (scores[i] == scores[j] && i < j),
    ensures
        recall::positive_before(scores, i, n) + (if i < n {
            1int
        } else {
            0
        }) <= recall::positive_before(scores, j, n),
    decreases n,
{
    if n > 0 {
        lemma_rank_order(scores, i, j, n - 1);
        if recall::comes_before(scores, n - 1, i) {
            assert(recall::comes_before(scores, n - 1, j));
        }
        if n - 1 == i {
            assert(recall::comes_before(scores, i, j));
            assert(!recall::comes_before(scores, i, i));
        }
    }
}

// ---------------------------------------------------------------------------
// Lines and files
// ---------------------------------------------------------------------------

/// A slice holds the lines from the first to the last that are asked for, both of them
/// too; without a first it starts at the top, without a last it goes to the end, and
/// without either it is the whole text.
pub proof fn law_a_slice_holds_the_lines_asked_for(s: Seq<char>, first: u32, last: u32)
    ensures
        ({
            let ls = text::lines(s);
            let n = ls.len() as int;
            &&& files::line_slice(s, None, None) == s
            &&& 1 <= first <= last <= n ==> files::line_slice(s, Some(first), Some(last))
                == text::join(ls.subrange(first - 1, last as int), seq!['\n'])
            &&& 1 <= first <= n ==> files::line_slice(s, Some(first), None) == text::join(
                ls.subrange(first - 1, n),
                seq!['\n'],
            )
            &&& 1 <= last <= n ==> files::line_slice(s, None, Some(last)) == text::join(
                ls.subrange(0, last as int),
                seq!['\n'],
            )
            &&& 1 <= first <= n < last ==> files::line_slice(s, Some(first), Some(last))
                == files::line_slice(s, Some(first), None)
            &&& first > n || (1 <= last < first) ==> files::line_slice(
                s,
                Some(first),
                Some(last),
            ).len() == 0
        }),
{
}

/// A path lies in a directory just where it goes by the directory's own components and
/// never up.
pub proof fn law_a_path_inside_goes_by_the_directory(path: Seq<char>, root: Seq<char>)
    ensures
        files::inside(path, root) <==> {
            let p = files::components(path);
            let r = files::components(root);
            &&& r.len() <= p.len()
            &&& forall|i: int| 0 <= i < r.len() ==> #[trigger] p[i] == r[i]
            &&& forall|i: int| 0 <= i < p.len() ==> #[trigger] p[i] != seq!['.', '.']
            &&& (path.len() > 0 && path[0] == '/') == (root.len() > 0 && root[0] == '/')
        },
{
    let p = files::components(path);
    let r = files::components(root);
    if r.is_prefix_of(p) {
        assert forall|i: int| 0 <= i < r.len() implies #[trigger] p[i] == r[i] by {
            assert(p.take(r.len() as int)[i] == r[i]);
        }
    }
    if r.len() <= p.len() && forall|i: int| 0 <= i < r.len() ==> #[trigger] p[i] == r[i] {
        assert(p.take(r.len() as int) =~= r);
    }
}

/// A name with the extension is that of a Markdown file where something stands before
/// it.
pub proof fn law_a_markdown_name_has_a_stem(stem: Seq<char>)
    ensures
        files::markdown_name(stem + seq!['.', 'm', 'd']) <==> stem.len() > 0,
{
    let ext = seq!['.', 'm', 'd'];
    let name = stem + ext;
    assert(name.len() == stem.len() + 3);
    assert(name.skip(name.len() - 3) =~= ext);
}

/// The name of a Markdown file ends in the extension.
pub proof fn law_a_markdown_name_ends_in_its_extension(name: Seq<char>)
    requires
        files::markdown_name(name),
    ensures
        name.len() > 3,
        name[name.len() - 3] == '.',
        name[name.len() - 2] == 'm',
        name[name.len() - 1] == 'd',
{
    let tail = name.skip(name.len() - 3);
    assert(tail[0] == '.' && tail[1] == 'm' && tail[2] == 'd');
}

/// The chunks of the daily logs are those of each log in turn: one more log adds its own
/// chunks at the end.
pub proof fn law_each_daily_log_adds_its_chunks(
    fs: Seq<DailyFile>,
    sources: Seq<MemorySource>,
    f: DailyFile,
    source: MemorySource,
)
    requires
        sources.len() == fs.len(),
    ensures
        files::daily_chunks(fs, sources, 0).len() == 0,
        files::daily_chunks(fs.push(f), sources.push(source), fs.len() as int + 1)
            == files::daily_chunks(fs, sources, fs.len() as int) + chunking::chunks(
            text::lines(f.raw@),
            source,
            f.path@,
        ),
{
    lemma_logs_before(fs, sources, f, source, fs.len() as int);
}

proof fn lemma_logs_before(
    fs: Seq<DailyFile>,
    sources: Seq<MemorySource>,
    f: DailyFile,
    source: MemorySource,
    n: int,
)
    requires
        0 <= n <= fs.len() == sources.len(),
    ensures
        files::daily_chunks(fs.push(f), sources.push(source), n) == files::daily_chunks(
            fs,
            sources,
            n,
        ),
    decreases n,
{
    if n > 0 {
        lemma_logs_before(fs, sources, f, source, n - 1);
        assert(fs.push(f)[n - 1] == fs[n - 1]);
        assert(sources.push(source)[n - 1] == sources[n - 1]);
    }
}

/// The files of memory have their places in its directory.
pub proof fn law_files_have_their_places(root: Seq<char>, y: int, m: int, d: int)
    requires
        root.len() > 0,
        root.last() != '/',
        0 <= y <= 9999,
    ensures
        paths::curated_file(root) == root + seq!['/'] + "MEMORY.md"@,
        paths::index_file(root) == root + seq!['/'] + "index.db"@,
        paths::daily_file(root, y, m, d) == root + seq!['/'] + "daily"@ + seq!['/'] + (
        number::four_digits(y as nat) + seq!['-'] + number::two_digits(m as nat) + seq!['-']
            + number::two_digits(d as nat)) + ".md"@,
{
    reveal_strlit("/");
    reveal_strlit("daily");
    assert("/"@ =~= seq!['/']);
    let dir = root + seq!['/'] + "daily"@;
    assert("daily"@.len() == 5 && "daily"@[4] == 'y');
    assert(dir.last() == "daily"@[4]);
    let name = number::four_digits(y as nat) + seq!['-'] + number::two_digits(m as nat) + seq![
        '-',
    ] + number::two_digits(d as nat);
    assert(paths::daily_file(root, y, m, d) =~= dir + seq!['/'] + name + ".md"@);
}

/// A database lacks just the steps above its version, and takes them in order.
pub proof fn law_just_the_later_steps_are_lacking(version: int, latest: int, step: int)
    ensures
        ({
            let steps = schema::lacking(version, latest);
            &&& steps.contains(step) <==> 1 <= step <= latest && step > version
            &&& forall|i: int, j: int| 0 <= i < j < steps.len() ==> #[trigger] steps[i] < #[trigger] steps[j]
        }),
{
    let steps = schema::lacking(version, latest);
    let done = if version < 0 {
        0int
    } else {
        version
    };
    if 1 <= step <= latest && step > version {
        assert(steps[step - done - 1] == step);
    }
}

/// A path goes by the names between its slashes: a name behind a path is one more of its
/// components, and neither an empty part nor a lone dot is.
pub proof fn law_a_path_goes_by_its_names(p: Seq<char>, name: Seq<char>)
    requires
        !name.contains('/'),
    ensures
        name.len() > 0 && name != seq!['.'] ==> files::components(p + seq!['/'] + name)
            == files::components(p).push(name),
        name.len() == 0 || name == seq!['.'] ==> files::components(p + seq!['/'] + name)
            == files::components(p),
        name.len() > 0 ==> files::components(name) == seq![name],
        name.len() == 0 ==> files::components(name).len() == 0,
{
    let parts = text::split_char(p, '/');
    let s = p + seq!['/'] + name;
    let more = text::split_char(s, '/');
    lemma_split_behind(p, name);
    lemma_parts_before(parts, name, parts.len() as int);
    assert(more == parts.push(name));
    assert(more.len() == parts.len() + 1 && more[parts.len() as int] == name);
    assert(parts.len() > 0) by {
        lemma_some_part(p);
    }
    let n = text::find_char(name, '/', 0);
    text::lemma_find_char(name, '/', 0);
    if n < name.len() {
        assert(name.contains(name[n]));
    }
    assert(text::split_char(name, '/') =~= seq![name]);
    reveal_with_fuel(files::named_parts, 2);
    if name.len() > 0 {
        assert(files::components(name) =~= seq![name]);
    }
}

proof fn lemma_some_part(p: Seq<char>)
    ensures
        text::split_char(p, '/').len() > 0,
{
}

proof fn lemma_split_behind(p: Seq<char>, name: Seq<char>)
    requires
        !name.contains('/'),
    ensures
        text::split_char(p + seq!['/'] + name, '/') == text::split_char(p, '/').push(name),
    decreases p.len(),
{
    let s = p + seq!['/'] + name;
    let n = text::find_char(p, '/', 0);
    let m = text::find_char(s, '/', 0);
    text::lemma_find_char(p, '/', 0);
    text::lemma_find_char(s, '/', 0);
    assert(s[p.len() as int] == '/');
    if n >= p.len() {
        if m < p.len() {
            assert(s[m] == p[m]);
        }
        assert(m == p.len());
        assert(s.take(m) =~= p);
        assert(s.skip(m + 1) =~= name);
        let k = text::find_char(name, '/', 0);
        text::lemma_find_char(name, '/', 0);
        if k < name.len() {
            assert(name.contains(name[k]));
        }
        assert(text::split_char(name, '/') =~= seq![name]);
        assert(text::split_char(p, '/') =~= seq![p]);
        assert(seq![p] + seq![name] =~= seq![p].push(name));
    } else {
        assert(s[n] == p[n]);
        if m < n {
            assert(s[m] == p[m]);
        }
        assert(m == n);
        let rest = p.skip(n + 1);
        lemma_split_behind(rest, name);
        assert(s.take(m) =~= p.take(n));
        assert(s.skip(m + 1) =~= rest + seq!['/'] + name);
        assert(seq![p.take(n)] + text::split_char(rest, '/').push(name) =~= (seq![p.take(n)]
            + text::split_char(rest, '/')).push(name));
    }
}

proof fn lemma_parts_before(parts: Seq<Seq<char>>, name: Seq<char>, n: int)
    requires
        0 <= n <= parts.len(),
    ensures
        files::named_parts(parts.push(name), n) == files::named_parts(parts, n),
    decreases n,
{
    if n > 0 {
        lemma_parts_before(parts, name, n - 1);
        assert(parts.push(name)[n - 1] == parts[n - 1]);
    }
}

/// A path names a Markdown file where its last name does.
pub proof fn law_a_path_is_markdown_by_its_last_name(p: Seq<char>, name: Seq<char>)
    requires
        !name.contains('/'),
        name.len() > 0,
        name != seq!['.'],
    ensures
        files::markdown_path(p + seq!['/'] + name) <==> files::markdown_name(name),
        files::markdown_path(name) <==> files::markdown_name(name),
{
    law_a_path_goes_by_its_names(p, name);
    assert(files::components(p).push(name).last() == name);
    assert(seq![name].last() == name);
}

/// A log belongs to the day that its name gives, and a file whose name gives none is
/// curated.
pub proof fn law_a_log_belongs_to_the_day_of_its_name(
    stem: Seq<char>,
    source: MemorySource,
    tagged: MemorySource,
)
    requires
        files::source_of_name(stem + seq!['.', 'm', 'd'], source),
        keys::source_of_tag("daily:"@ + stem, tagged),
    ensures
        date::date_of_text(stem) is Some ==> source is Daily && source->date@
            == date::date_of_text(stem)->0,
        date::date_of_text(stem) is None ==> source is Curated,
        date::date_of_text(stem) is Some ==> tagged is Daily && tagged->date@
            == date::date_of_text(stem)->0,
        date::date_of_text(stem) is None ==> tagged is Curated,
{
    let name = stem + seq!['.', 'm', 'd'];
    assert(name.take(name.len() - 3) =~= stem);
    reveal_strlit("daily:");
    let tag = "daily:"@ + stem;
    assert(tag.take(6) =~= "daily:"@);
    assert(tag.skip(6) =~= stem);
}

/// Keys are kept in order, each once: what is put among them is there, and all that were
/// there stay.
pub proof fn law_keys_stay_in_order(ks: Seq<Seq<char>>, k: Seq<char>, x: Seq<char>)
    requires
        ordered::ascending(ks),
    ensures
        ordered::ascending(ordered::insert_key(ks, k)),
        ordered::insert_key(ks, k).contains(x) <==> ks.contains(x) || x == k,
{
    ordered::lemma_insert_key(ks, k, x);
    ordered::lemma_insert_ascending(ks, k);
}

} // verus!
