//! Which steps bring a database up to the current layout.
use vstd::prelude::*;

verus! {

/// The steps that a database of that version still lacks: those above its
/// version, up to the latest, in order.
pub open spec fn lacking(version: int, latest: int) -> Seq<int> {
    let done = if version < 0 {
        0int
    } else {
        version
    };
    if done >= latest {
        Seq::empty()
    } else {
        Seq::new((latest - done) as nat, |i: int| done + 1 + i)
    }
}

/// The steps that a database of that version still lacks, in order. Each of them
/// takes the database to the version of the same number.
pub fn pending_steps(version: i64, latest: u32) -> (r: Vec<u32>)
    ensures
        r@.map_values(|k: u32| k as int) == lacking(version as int, latest as int),
{
    let mut out: Vec<u32> = Vec::new();
    let done: i64 = if version < 0 {
        0
    } else {
        version
    };
    if done >= latest as i64 {
        assert(out@.map_values(|k: u32| k as int) =~= lacking(version as int, latest as int));
        return out;
    }
    let mut k: u32 = done as u32;
    let ghost all = lacking(version as int, latest as int);
    while k < latest
        invariant
            0 <= done <= k <= latest,
            all.len() == latest - done,
            forall|i: int| 0 <= i < all.len() ==> #[trigger] all[i] == done + 1 + i,
            out@.len() == k - done,
            forall|i: int| 0 <= i < out@.len() ==> #[trigger] out@[i] == done + 1 + i,
        decreases latest - k,
    {
        k = k + 1;
        out.push(k);
    }
    assert(out@.map_values(|k: u32| k as int) =~= all);
    out
}

/// A database that has gone through the steps it lacked lacks none, whatever its
/// version was; steps are not taken twice.
pub proof fn law_migration_is_idempotent(version: int, latest: int)
    requires
        latest >= 0,
    ensures
        lacking(latest, latest) == Seq::<int>::empty(),
        lacking(version, latest).len() > 0 ==> lacking(version, latest).last() == latest,
        forall|i: int|
            0 <= i < lacking(version, latest).len() ==> version < #[trigger] lacking(
                version,
                latest,
            )[i],
{
}

} // verus!
