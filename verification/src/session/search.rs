//! Full-text search over transcripts: what a query is turned into.
use vstd::prelude::*;
use vstd::string::*;
use crate::text;
use crate::text::CharClass;

verus! {

/// Something that a search found.
#[derive(Debug)]
pub struct SearchHit {
    pub session_id: String,
    pub session_title: Option<String>,
    pub message_id: String,
    pub role: String,
    /// Where in the message it was found, the match being marked.
    pub snippet: String,
    /// In milliseconds since 1970.
    pub created_at: i64,
}

/// A text with each double quote doubled.
pub open spec fn doubled(s: Seq<char>) -> Seq<char>
    decreases s.len(),
{
    if s.len() == 0 {
        Seq::empty()
    } else if s.last() == '"' {
        doubled(s.drop_last()).push('"').push('"')
    } else {
        doubled(s.drop_last()).push(s.last())
    }
}

/// A token as a string of the query language, in which nothing is special.
pub open spec fn quoted(tok: Seq<char>) -> Seq<char> {
    seq!['"'] + doubled(tok) + seq!['"']
}

/// The tokens as strings of the query language.
pub open spec fn all_quoted(toks: Seq<Seq<char>>) -> Seq<Seq<char>> {
    Seq::new(toks.len(), |i: int| quoted(toks[i]))
}

/// A query in which every token is taken literally.
pub open spec fn escaped(query: Seq<char>) -> Seq<char> {
    text::join(all_quoted(text::runs(query, CharClass::NonSpace)), " "@)
}

/// A token as a string of the query language.
fn quote_token(tok: &str) -> (r: String)
    ensures
        r@ == quoted(tok@),
{
    let v: Vec<char> = text::chars_of(tok);
    let mut out = String::new();
    out.push('"');
    let mut i: usize = 0;
    proof {
        assert(v@.take(0) =~= Seq::<char>::empty());
        assert(out@ =~= seq!['"'] + doubled(v@.take(0)));
    }
    while i < v.len()
        invariant
            i <= v@.len(),
            v@ == tok@,
            out@ == seq!['"'] + doubled(v@.take(i as int)),
        decreases v@.len() - i,
    {
        let c: char = v[i];
        let ghost upto = doubled(v@.take(i as int));
        proof {
            assert(v@.take(i + 1).drop_last() =~= v@.take(i as int));
            assert(v@.take(i + 1).last() == c);
        }
        if c == '"' {
            out.push('"');
            out.push('"');
            assert(out@ =~= seq!['"'] + upto.push('"').push('"'));
        } else {
            out.push(c);
            assert(out@ =~= seq!['"'] + upto.push(c));
        }
        i = i + 1;
    }
    proof {
        assert(v@.take(i as int) =~= v@);
    }
    out.push('"');
    assert(out@ =~= quoted(tok@));
    out
}

/// A query in which every token is taken literally.
pub fn fts5_escape(query: &str) -> (r: String)
    ensures
        r@ == escaped(query@),
{
    let toks: Vec<String> = text::runs_of(query, CharClass::NonSpace);
    let ghost tv = text::views(toks@);
    let mut out: Vec<String> = Vec::new();
    let mut i: usize = 0;
    assert(text::views(out@) =~= all_quoted(tv).take(0));
    while i < toks.len()
        invariant
            i <= toks@.len(),
            tv == text::views(toks@),
            text::views(out@) == all_quoted(tv).take(i as int),
        decreases toks@.len() - i,
    {
        let ghost before = text::views(out@);
        out.push(quote_token(toks[i].as_str()));
        proof {
            assert(tv[i as int] == toks@[i as int]@);
            assert(text::views(out@) =~= before.push(quoted(tv[i as int])));
            assert(all_quoted(tv).take(i + 1) =~= all_quoted(tv).take(i as int).push(
                quoted(tv[i as int]),
            ));
        }
        i = i + 1;
    }
    proof {
        assert(all_quoted(tv).take(i as int) =~= all_quoted(tv));
    }
    text::join_all(&out, " ")
}

/// What to search for: nothing where the query is blank, else the query with
/// every token taken literally.
pub fn search_query(query: &str) -> (r: Option<String>)
    ensures
        text::opt_view(r) == if text::blank(query@) {
            None
        } else {
            Some(escaped(text::trim(query@)))
        },
{
    if text::is_blank(query) {
        return None;
    }
    let t: String = text::trim_text(query);
    Some(fts5_escape(t.as_str()))
}

/// What the inside of a string of the query language stands for: pairs of
/// quotes stand for one. `None` where a quote stands alone, which would end the
/// string.
pub open spec fn unquoted(s: Seq<char>) -> Option<Seq<char>>
    decreases s.len(),
{
    if s.len() == 0 {
        Some(Seq::empty())
    } else if s.last() != '"' {
        match unquoted(s.drop_last()) {
            Some(t) => Some(t.push(s.last())),
            None => None,
        }
    } else if s.len() >= 2 && s[s.len() - 2] == '"' {
        match unquoted(s.drop_last().drop_last()) {
            Some(t) => Some(t.push('"')),
            None => None,
        }
    } else {
        None
    }
}

/// Whatever a token holds, the query language reads it back as the token: no
/// character of it ends the string or is taken for an operator.
pub proof fn law_quoted_token_is_literal(tok: Seq<char>)
    ensures
        quoted(tok).len() >= 2,
        quoted(tok)[0] == '"',
        quoted(tok).last() == '"',
        unquoted(quoted(tok).subrange(1, quoted(tok).len() - 1)) == Some(tok),
{
    lemma_unquoted(tok);
    assert(quoted(tok).subrange(1, quoted(tok).len() - 1) =~= doubled(tok));
}

/// Doubling the quotes of a text and reading it back gives the text.
proof fn lemma_unquoted(s: Seq<char>)
    ensures
        unquoted(doubled(s)) == Some(s),
    decreases s.len(),
{
    if s.len() > 0 {
        let rest = s.drop_last();
        lemma_unquoted(rest);
        let d = doubled(rest);
        if s.last() == '"' {
            let t = d.push('"').push('"');
            assert(t.drop_last().drop_last() =~= d);
            assert(t[t.len() - 2] == '"');
        } else {
            assert(d.push(s.last()).drop_last() =~= d);
        }
        assert(rest.push(s.last()) =~= s);
    } else {
        assert(s =~= Seq::<char>::empty());
    }
}

} // verus!
