//! Lists of texts in ascending order.
use vstd::prelude::*;
use vstd::string::*;
use crate::text;
use crate::text::{same_text, text_no_later};

verus! {

/// Whether the texts ascend, none twice.
pub open spec fn ascending(ks: Seq<Seq<char>>) -> bool {
    forall|i: int, j: int|
        0 <= i < j < ks.len() ==> text::text_le(#[trigger] ks[i], #[trigger] ks[j]) && ks[i]
            != ks[j]
}

/// `ks` with `k` at its place in ascending order, once.
pub open spec fn insert_key(ks: Seq<Seq<char>>, k: Seq<char>) -> Seq<Seq<char>>
    decreases ks.len(),
{
    if ks.len() == 0 {
        seq![k]
    } else if ks[0] == k {
        ks
    } else if text::text_le(k, ks[0]) {
        seq![k] + ks
    } else {
        seq![ks[0]] + insert_key(ks.skip(1), k)
    }
}

/// Puts a key at its place in ascending order, once.
pub fn insert_key_text(ks: &mut Vec<String>, key: String)
    ensures
        text::views(final(ks)@) == insert_key(text::views(old(ks)@), key@),
{
    let ghost kv = text::views(ks@);
    let mut i: usize = 0;
    proof {
        assert(kv.skip(0) =~= kv);
        assert(kv.take(0) + insert_key(kv, key@) =~= insert_key(kv, key@));
    }
    while i < ks.len() && !text_no_later(key.as_str(), ks[i].as_str())
        invariant
            i <= ks@.len(),
            kv == text::views(ks@),
            insert_key(kv, key@) == kv.take(i as int) + insert_key(kv.skip(i as int), key@),
        decreases ks@.len() - i,
    {
        proof {
            let rest = kv.skip(i as int);
            assert(rest[0] == ks@[i as int]@);
            text::lemma_text_le_total(key@, rest[0]);
            lemma_text_le_reflexive(key@);
            assert(rest.skip(1) =~= kv.skip(i + 1));
            assert(kv.take(i as int) + (seq![rest[0]] + insert_key(kv.skip(i + 1), key@)) =~= kv.take(
                i + 1,
            ) + insert_key(kv.skip(i + 1), key@));
        }
        i = i + 1;
    }
    if i < ks.len() && same_text(ks[i].as_str(), key.as_str()) {
        proof {
            assert(kv.skip(i as int)[0] == key@);
            assert(kv.take(i as int) + kv.skip(i as int) =~= kv);
        }
        return ;
    }
    ks.insert(i, key);
    proof {
        let rest = kv.skip(i as int);
        if rest.len() > 0 {
            assert(rest[0] == kv[i as int]);
        }
        assert(insert_key(rest, key@) =~= seq![key@] + rest);
        assert(text::views(ks@) =~= kv.take(i as int) + (seq![key@] + rest));
    }
}

proof fn lemma_text_le_reflexive(a: Seq<char>)
    ensures
        text::text_le(a, a),
{
    text::lemma_text_le_total(a, a);
}

/// What an inserted key leaves in the list.
pub proof fn lemma_insert_key(ks: Seq<Seq<char>>, k: Seq<char>, x: Seq<char>)
    ensures
        insert_key(ks, k).contains(x) <==> ks.contains(x) || x == k,
    decreases ks.len(),
{
    let out = insert_key(ks, k);
    if ks.len() == 0 {
        assert(out[0] == k);
        assert(out.contains(x) <==> x == k);
    } else if ks[0] == k {
        assert(ks.contains(k));
    } else if text::text_le(k, ks[0]) {
        assert(out[0] == k);
        if ks.contains(x) {
            let i = choose|i: int| 0 <= i < ks.len() && ks[i] == x;
            assert(out[i + 1] == x);
        }
        if out.contains(x) {
            let i = choose|i: int| 0 <= i < out.len() && out[i] == x;
            if i > 0 {
                assert(ks[i - 1] == x);
            }
        }
    } else {
        lemma_insert_key(ks.skip(1), k, x);
        let rest = insert_key(ks.skip(1), k);
        assert(out[0] == ks[0]);
        if rest.contains(x) {
            let i = choose|i: int| 0 <= i < rest.len() && rest[i] == x;
            assert(out[i + 1] == x);
        }
        if out.contains(x) {
            let i = choose|i: int| 0 <= i < out.len() && out[i] == x;
            if i > 0 {
                assert(rest[i - 1] == x);
            }
        }
        if ks.skip(1).contains(x) {
            let i = choose|i: int| 0 <= i < ks.skip(1).len() && ks.skip(1)[i] == x;
            assert(ks[i + 1] == x);
        }
        if ks.contains(x) {
            let i = choose|i: int| 0 <= i < ks.len() && ks[i] == x;
            if i > 0 {
                assert(ks.skip(1)[i - 1] == x);
            }
        }
    }
}

/// Inserting a key keeps the order.
pub proof fn lemma_insert_ascending(ks: Seq<Seq<char>>, k: Seq<char>)
    requires
        ascending(ks),
    ensures
        ascending(insert_key(ks, k)),
    decreases ks.len(),
{
    let out = insert_key(ks, k);
    if ks.len() == 0 || ks[0] == k {
    } else if text::text_le(k, ks[0]) {
        assert forall|i: int, j: int| 0 <= i < j < out.len() implies text::text_le(
            #[trigger] out[i],
            #[trigger] out[j],
        ) && out[i] != out[j] by {
            assert(out[j] == ks[j - 1]);
            if i > 0 {
                assert(out[i] == ks[i - 1]);
            } else if j > 1 {
                assert(text::text_le(ks[0], ks[j - 1]));
                text::lemma_text_le_trans(k, ks[0], ks[j - 1]);
                if k == ks[j - 1] {
                    text::lemma_text_le_total(k, ks[0]);
                }
            }
        }
    } else {
        let tail = ks.skip(1);
        assert(ascending(tail)) by {
            assert forall|i: int, j: int| 0 <= i < j < tail.len() implies text::text_le(
                #[trigger] tail[i],
                #[trigger] tail[j],
            ) && tail[i] != tail[j] by {
                assert(tail[i] == ks[i + 1]);
                assert(tail[j] == ks[j + 1]);
            }
        }
        lemma_insert_ascending(tail, k);
        let rest = insert_key(tail, k);
        assert forall|i: int, j: int| 0 <= i < j < out.len() implies text::text_le(
            #[trigger] out[i],
            #[trigger] out[j],
        ) && out[i] != out[j] by {
            assert(out[j] == rest[j - 1]);
            if i > 0 {
                assert(out[i] == rest[i - 1]);
            } else {
                assert(rest.contains(rest[j - 1]));
                lemma_insert_key(tail, k, rest[j - 1]);
                if rest[j - 1] == k {
                    text::lemma_text_le_total(k, ks[0]);
                } else {
                    let m = choose|m: int| 0 <= m < tail.len() && tail[m] == rest[j - 1];
                    assert(tail[m] == ks[m + 1]);
                    assert(text::text_le(ks[0], ks[m + 1]));
                }
            }
        }
    }
}

/// Two ascending lists of the same texts are one list.
pub proof fn lemma_ascending_lists_agree(a: Seq<Seq<char>>, b: Seq<Seq<char>>)
    requires
        ascending(a),
        ascending(b),
        forall|x: Seq<char>| a.contains(x) <==> b.contains(x),
    ensures
        a == b,
    decreases a.len(),
{
    if a.len() == 0 {
        if b.len() > 0 {
            assert(b.contains(b[0]));
        }
        assert(a =~= b);
    } else {
        assert(a.contains(a[0]));
        let j = choose|j: int| 0 <= j < b.len() && b[j] == a[0];
        assert(b.contains(b[0]));
        let i = choose|i: int| 0 <= i < a.len() && a[i] == b[0];
        text::lemma_text_le_total(a[0], b[0]);
        assert(a[0] == b[0]);
        let (c, d) = (a.skip(1), b.skip(1));
        assert forall|x: Seq<char>| c.contains(x) <==> d.contains(x) by {
            lemma_rest_holds_the_others(a, x);
            lemma_rest_holds_the_others(b, x);
        }
        lemma_ascending_lists_agree(c, d);
        assert(a =~= seq![a[0]] + c);
        assert(b =~= seq![b[0]] + d);
    }
}

proof fn lemma_rest_holds_the_others(a: Seq<Seq<char>>, x: Seq<char>)
    requires
        a.len() > 0,
        ascending(a),
    ensures
        a.skip(1).contains(x) <==> a.contains(x) && x != a[0],
{
    if a.skip(1).contains(x) {
        let i = choose|i: int| 0 <= i < a.skip(1).len() && a.skip(1)[i] == x;
        assert(a[i + 1] == x && a[0] != a[i + 1]);
    }
    if a.contains(x) && x != a[0] {
        let i = choose|i: int| 0 <= i < a.len() && a[i] == x;
        assert(a.skip(1)[i - 1] == x);
    }
}

} // verus!
