//! Recall: the match expression of a query, and the order of the hits.
use vstd::prelude::*;
use vstd::string::*;
use crate::memory::config::Score;
use crate::text;
use crate::text::{join_all, runs_of, CharClass};

verus! {

/// How many candidates are fetched for each hit that is asked for, before they
/// are ranked again.
pub const FUSION_POOL_FACTOR: usize = 4;

/// `tok` in double quotes.
pub open spec fn quoted(tok: Seq<char>) -> Seq<char> {
    seq!['"'] + tok + seq!['"']
}

/// Each of the tokens in double quotes.
pub open spec fn all_quoted(toks: Seq<Seq<char>>) -> Seq<Seq<char>> {
    Seq::new(toks.len(), |i: int| quoted(toks[i]))
}

/// The match expression of a query: its runs of letters and digits, each in
/// double quotes, with spaces between; none where there is no such run.
pub open spec fn match_query(raw: Seq<char>) -> Option<Seq<char>> {
    let toks = text::runs(raw, CharClass::Alphanumeric);
    if toks.len() == 0 {
        None
    } else {
        Some(text::join(all_quoted(toks), seq![' ']))
    }
}

/// The match expression of a query, in which no punctuation of the query is
/// left; none for a query without letters and digits.
pub fn fts_query(raw: &str) -> (r: Option<String>)
    ensures
        text::opt_view(r) == match_query(raw@),
{
    let toks: Vec<String> = runs_of(raw, CharClass::Alphanumeric);
    let ghost tv = text::views(toks@);
    proof {
        assert(tv.len() == toks@.len());
        reveal_strlit(" ");
        assert(" "@ =~= seq![' ']);
    }
    if toks.len() == 0 {
        return None;
    }
    let mut out: Vec<String> = Vec::new();
    let mut i: usize = 0;
    assert(text::views(out@) =~= all_quoted(tv).take(0));
    while i < toks.len()
        invariant
            i <= toks@.len(),
            tv == text::views(toks@),
            tv.len() == toks@.len(),
            text::views(out@) == all_quoted(tv).take(i as int),
        decreases toks@.len() - i,
    {
        let ghost before = text::views(out@);
        let mut q = String::new();
        q.push('"');
        q.append(toks[i].as_str());
        q.push('"');
        out.push(q);
        proof {
            assert(tv[i as int] == toks@[i as int]@);
            assert(q@ =~= quoted(tv[i as int]));
            assert(text::views(out@) =~= before.push(q@));
            assert(all_quoted(tv).take(i + 1) =~= before.push(q@));
        }
        i = i + 1;
    }
    proof {
        assert(all_quoted(tv).take(i as int) =~= all_quoted(tv));
    }
    Some(join_all(&out, " "))
}

/// No token of a match expression holds a double quote, so none can end its
/// quotes: every ASCII character between them is a letter or a digit.
pub proof fn law_match_tokens_hold_no_quotes(raw: Seq<char>, i: int, j: int)
    requires
        0 <= i < text::runs(raw, CharClass::Alphanumeric).len(),
        0 <= j < text::runs(raw, CharClass::Alphanumeric)[i].len(),
    ensures
        text::alphanumeric(text::runs(raw, CharClass::Alphanumeric)[i][j]),
        text::runs(raw, CharClass::Alphanumeric)[i][j] != '"',
    decreases raw.len(),
{
    let class = CharClass::Alphanumeric;
    let all = text::runs(raw, class);
    if raw.len() > 0 {
        if !text::in_class(class, raw[0]) {
            law_match_tokens_hold_no_quotes(raw.skip(1), i, j);
        } else {
            let n = text::run_len(raw, class) as int;
            text::lemma_run_len(raw, class);
            let rest = text::runs(raw.skip(n), class);
            assert(all == seq![raw.take(n)] + rest);
            if i == 0 {
                assert(all[0][j] == raw[j]);
                assert(text::in_class(class, raw[j]));
            } else {
                assert(all[i] == rest[i - 1]);
                law_match_tokens_hold_no_quotes(raw.skip(n), i - 1, j);
            }
        }
    }
}

/// The number of candidates to fetch for `k` hits.
pub fn fusion_pool(k: usize) -> (r: usize)
    ensures
        r == (if k * 4 > usize::MAX {
            usize::MAX as int
        } else {
            k * 4
        }),
        r >= k,
{
    match k.checked_mul(FUSION_POOL_FACTOR) {
        Some(n) => n,
        None => usize::MAX,
    }
}

/// Whether candidate `j` comes before candidate `i`: it scores higher, or as
/// high and stands earlier.
pub open spec fn comes_before(scores: Seq<Score>, j: int, i: int) -> bool {
    scores[j] > scores[i] || (scores[j] == scores[i] && j < i)
}

/// The number of the first `n` candidates with a positive score that come
/// before candidate `i`.
pub open spec fn positive_before(scores: Seq<Score>, i: int, n: int) -> nat
    decreases n,
{
    if n <= 0 {
        0
    } else {
        positive_before(scores, i, n - 1) + (if scores[n - 1] > 0 && comes_before(
            scores,
            n - 1,
            i,
        ) {
            1nat
        } else {
            0nat
        })
    }
}

/// The rank of each candidate by its similarity to the query, from 0 for the
/// most similar. `similarity` is 0 for a candidate that has no embedding or no
/// positive similarity, and such a candidate has no rank.
pub fn vector_ranks(similarity: &Vec<Score>) -> (r: Vec<Option<usize>>)
    ensures
        r@.len() == similarity@.len(),
        forall|i: int|
            0 <= i < r@.len() ==> (match #[trigger] r@[i] {
                Some(k) => similarity@[i] > 0 && k == positive_before(
                    similarity@,
                    i,
                    similarity@.len() as int,
                ),
                None => similarity@[i] == 0,
            }),
{
    let mut out: Vec<Option<usize>> = Vec::new();
    let mut i: usize = 0;
    while i < similarity.len()
        invariant
            i <= similarity@.len(),
            out@.len() == i,
            forall|a: int|
                0 <= a < i ==> (match #[trigger] out@[a] {
                    Some(k) => similarity@[a] > 0 && k == positive_before(
                        similarity@,
                        a,
                        similarity@.len() as int,
                    ),
                    None => similarity@[a] == 0,
                }),
        decreases similarity@.len() - i,
    {
        if similarity[i] == 0 {
            out.push(None);
        } else {
            let mut k: usize = 0;
            let mut j: usize = 0;
            while j < similarity.len()
                invariant
                    j <= similarity@.len(),
                    i < similarity@.len(),
                    k <= j,
                    k == positive_before(similarity@, i as int, j as int),
                decreases similarity@.len() - j,
            {
                if similarity[j] > 0 && (similarity[j] > similarity[i] || (similarity[j]
                    == similarity[i] && j < i)) {
                    k = k + 1;
                }
                j = j + 1;
            }
            out.push(Some(k));
        }
        i = i + 1;
    }
    out
}

/// Whether `r` lists the first places from the highest score to the lowest, of
/// equal scores the earlier place first.
pub open spec fn ranked(scores: Seq<Score>, r: Seq<usize>) -> bool {
    forall|a: int, b: int|
        0 <= a < b < r.len() ==> comes_before(
            scores,
            (#[trigger] r[a]) as int,
            (#[trigger] r[b]) as int,
        )
}

/// The places of the candidates from the highest score to the lowest; of equal
/// scores the earlier place comes first.
pub fn rank_by_score(scores: &Vec<Score>) -> (r: Vec<usize>)
    ensures
        r@.len() == scores@.len(),
        forall|a: int| 0 <= a < r@.len() ==> (#[trigger] r@[a]) < scores@.len(),
        forall|i: int| 0 <= i < scores@.len() ==> r@.contains(#[trigger] (i as usize)),
        ranked(scores@, r@),
{
    let mut out: Vec<usize> = Vec::new();
    let mut i: usize = 0;
    while i < scores.len()
        invariant
            i <= scores@.len(),
            out@.len() == i,
            forall|a: int| 0 <= a < out@.len() ==> (#[trigger] out@[a]) < i,
            forall|x: int| 0 <= x < i ==> out@.contains(#[trigger] (x as usize)),
            ranked(scores@, out@),
        decreases scores@.len() - i,
    {
        let ghost had = out@;
        let mut at: usize = out.len();
        while at > 0 && scores[out[at - 1]] < scores[i]
            invariant
                out@ == had,
                at <= out@.len(),
                i < scores@.len(),
                forall|a: int| 0 <= a < out@.len() ==> (#[trigger] out@[a]) < i,
                forall|a: int|
                    at <= a < out@.len() ==> scores@[(#[trigger] out@[a]) as int]
                        < scores@[i as int],
                ranked(scores@, out@),
            decreases at,
        {
            at = at - 1;
        }
        out.insert(at, i);
        proof {
            let now = out@;
            assert(now =~= had.insert(at as int, i));
            assert forall|a: int, b: int| 0 <= a < b < now.len() implies comes_before(
                scores@,
                (#[trigger] now[a]) as int,
                (#[trigger] now[b]) as int,
            ) by {
                if b == at {
                    assert(now[a] == had[a]);
                    if a < at - 1 {
                        assert(comes_before(scores@, had[a] as int, had[at - 1] as int));
                    }
                } else if a == at {
                    assert(now[b] == had[b - 1]);
                } else {
                    let x = if a < at {
                        a
                    } else {
                        a - 1
                    };
                    let y = if b < at {
                        b
                    } else {
                        b - 1
                    };
                    assert(now[a] == had[x]);
                    assert(now[b] == had[y]);
                }
            }
            assert forall|x: int| 0 <= x < i + 1 implies now.contains(#[trigger] (x as usize)) by {
                if x < i {
                    assert(had.contains(x as usize));
                    let a = choose|a: int| 0 <= a < had.len() && had[a] == x as usize;
                    assert(now[if a < at {
                        a
                    } else {
                        a + 1
                    }] == x as usize);
                } else {
                    assert(now[at as int] == x as usize);
                }
            }
            assert forall|a: int| 0 <= a < now.len() implies (#[trigger] now[a]) < i + 1 by {
                if a < at {
                    assert(now[a] == had[a]);
                } else if a > at {
                    assert(now[a] == had[a - 1]);
                }
            }
        }
        i = i + 1;
    }
    out
}

/// The candidate with the highest score, and of equal ones the earliest, comes
/// first.
pub proof fn law_highest_score_comes_first(scores: Seq<Score>, r: Seq<usize>, i: int)
    requires
        ranked(scores, r),
        r.len() == scores.len(),
        0 <= i < scores.len() <= usize::MAX,
        forall|x: int| 0 <= x < scores.len() ==> r.contains(#[trigger] (x as usize)),
    ensures
        scores[i] <= scores[r[0] as int],
        scores[i] == scores[r[0] as int] ==> r[0] <= i,
{
    assert(r.contains(i as usize));
    let a = choose|a: int| 0 <= a < r.len() && r[a] == i as usize;
    if a > 0 {
        assert(comes_before(scores, r[0] as int, r[a] as int));
    }
}

} // verus!
