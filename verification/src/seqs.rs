//! Facts about filtered sequences.
use vstd::prelude::*;

verus! {

/// One more element either passes the filter at the end or does not.
pub proof fn lemma_filter_take<A>(s: Seq<A>, pred: spec_fn(A) -> bool, i: int)
    requires
        0 <= i < s.len(),
    ensures
        s.take(i + 1).filter(pred) == if pred(s[i]) {
            s.take(i).filter(pred).push(s[i])
        } else {
            s.take(i).filter(pred)
        },
{
    reveal(Seq::filter);
    assert(s.take(i + 1).drop_last() =~= s.take(i));
}

/// An element of a filtered sequence stood in the sequence and passes.
pub proof fn lemma_filter_from<A>(s: Seq<A>, pred: spec_fn(A) -> bool, k: int)
    requires
        0 <= k < s.filter(pred).len(),
    ensures
        s.contains(s.filter(pred)[k]),
        pred(s.filter(pred)[k]),
    decreases s.len(),
{
    reveal(Seq::filter);
    if s.len() > 0 {
        let rest = s.drop_last();
        if k < rest.filter(pred).len() {
            lemma_filter_from(rest, pred, k);
            let i = choose|i: int| 0 <= i < rest.len() && rest[i] == rest.filter(pred)[k];
            assert(s[i] == s.filter(pred)[k]);
        } else {
            assert(s[s.len() - 1] == s.filter(pred)[k]);
        }
    }
}

/// Filtering by what all kept elements fail leaves nothing.
pub proof fn lemma_filter_disjoint<A>(
    s: Seq<A>,
    p: spec_fn(A) -> bool,
    q: spec_fn(A) -> bool,
)
    requires
        forall|x: A| #[trigger] p(x) ==> !q(x),
    ensures
        s.filter(p).filter(q) == Seq::<A>::empty(),
{
    if s.filter(p).filter(q).len() > 0 {
        let f = s.filter(p);
        lemma_filter_from(f, q, 0);
        let m = choose|m: int| 0 <= m < f.len() && f[m] == f.filter(q)[0];
        lemma_filter_from(s, p, m);
    }
    assert(s.filter(p).filter(q) =~= Seq::<A>::empty());
}

/// Leaving out first what would be left out anyway changes nothing.
pub proof fn lemma_filter_narrower<A>(
    s: Seq<A>,
    p: spec_fn(A) -> bool,
    q: spec_fn(A) -> bool,
)
    requires
        forall|x: A| #[trigger] q(x) ==> p(x),
    ensures
        s.filter(p).filter(q) == s.filter(q),
    decreases s.len(),
{
    reveal(Seq::filter);
    if s.len() > 0 {
        let rest = s.drop_last();
        lemma_filter_narrower(rest, p, q);
        if p(s.last()) {
            assert(s.filter(p).drop_last() =~= rest.filter(p));
            assert(s.filter(p).last() == s.last());
        } else {
            assert(!q(s.last()));
        }
    }
}

/// A new element anywhere adds one to those that pass, if it passes.
pub proof fn lemma_filter_insert_len<A>(s: Seq<A>, p: spec_fn(A) -> bool, k: int, x: A)
    requires
        0 <= k <= s.len(),
    ensures
        s.insert(k, x).filter(p).len() == s.filter(p).len() + if p(x) {
            1int
        } else {
            0
        },
{
    let a = s.take(k);
    let b = s.skip(k);
    assert(s =~= a + b);
    assert(s.insert(k, x) =~= a + seq![x] + b);
    Seq::filter_distributes_over_add(a, b, p);
    Seq::filter_distributes_over_add(a, seq![x], p);
    Seq::filter_distributes_over_add(a + seq![x], b, p);
    reveal(Seq::filter);
    assert(seq![x].drop_last() =~= Seq::<A>::empty());
    assert(seq![x].drop_last().filter(p) =~= Seq::<A>::empty());
}

/// What holds between the elements of a sequence, in order, holds between those
/// that pass a filter.
pub proof fn lemma_filter_pairwise<A>(
    s: Seq<A>,
    p: spec_fn(A) -> bool,
    rel: spec_fn(A, A) -> bool,
)
    requires
        forall|i: int, j: int|
            #![trigger s[i], s[j]]
            0 <= i < j < s.len() ==> rel(s[i], s[j]),
    ensures
        forall|i: int, j: int|
            #![trigger s.filter(p)[i], s.filter(p)[j]]
            0 <= i < j < s.filter(p).len() ==> rel(s.filter(p)[i], s.filter(p)[j]),
    decreases s.len(),
{
    reveal(Seq::filter);
    if s.len() > 0 {
        let rest = s.drop_last();
        lemma_filter_pairwise(rest, p, rel);
        let f = rest.filter(p);
        assert forall|i: int, j: int|
            #![trigger s.filter(p)[i], s.filter(p)[j]]
            0 <= i < j < s.filter(p).len() implies rel(s.filter(p)[i], s.filter(p)[j]) by {
            if j < f.len() {
                assert(s.filter(p)[i] == f[i] && s.filter(p)[j] == f[j]);
            } else {
                assert(s.filter(p)[i] == f[i]);
                lemma_filter_from(rest, p, i);
                let m = choose|m: int| 0 <= m < rest.len() && rest[m] == f[i];
                assert(s[m] == rest[m]);
                assert(rel(s[m], s[s.len() - 1]));
            }
        }
    }
}

/// Filters that agree on the elements of a sequence keep the same of them.
pub proof fn lemma_filter_agree<A>(s: Seq<A>, p: spec_fn(A) -> bool, q: spec_fn(A) -> bool)
    requires
        forall|i: int| 0 <= i < s.len() ==> p(#[trigger] s[i]) == q(s[i]),
    ensures
        s.filter(p) == s.filter(q),
    decreases s.len(),
{
    reveal(Seq::filter);
    if s.len() > 0 {
        let rest = s.drop_last();
        assert forall|i: int| 0 <= i < rest.len() implies p(#[trigger] rest[i]) == q(rest[i]) by {
            assert(rest[i] == s[i]);
        }
        lemma_filter_agree(rest, p, q);
        assert(p(s[s.len() - 1]) == q(s[s.len() - 1]));
    }
}

/// Filtering twice is filtering by both.
pub proof fn lemma_filter_both<A>(s: Seq<A>, p: spec_fn(A) -> bool, q: spec_fn(A) -> bool)
    ensures
        s.filter(p).filter(q) == s.filter(|x: A| p(x) && q(x)),
    decreases s.len(),
{
    reveal(Seq::filter);
    let b = |x: A| p(x) && q(x);
    if s.len() > 0 {
        let rest = s.drop_last();
        lemma_filter_both(rest, p, q);
        if p(s.last()) {
            assert(s.filter(p).drop_last() =~= rest.filter(p));
            assert(s.filter(p).last() == s.last());
        }
    }
    assert(s.filter(p).filter(q) =~= s.filter(b));
}

} // verus!
