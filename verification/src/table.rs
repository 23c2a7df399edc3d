//! A table of rows with a text key each, in the order of insertion.
use vstd::prelude::*;
use vstd::string::*;
use crate::text;
use crate::text::{holds_text, same_text};

verus! {

/// Rows by key; no key has two.
pub struct Table<V> {
    rows: Vec<(String, V)>,
}

/// Whether a row has that key.
pub open spec fn has_row<V>(rows: Seq<(String, V)>, k: Seq<char>) -> bool {
    exists|i: int| 0 <= i < rows.len() && (#[trigger] rows[i]).0@ == k
}

/// The value of the row with that key.
pub open spec fn row_value<V>(rows: Seq<(String, V)>, k: Seq<char>) -> V {
    rows[choose|i: int| 0 <= i < rows.len() && (#[trigger] rows[i]).0@ == k].1
}

/// The rows as a map from keys to values.
pub open spec fn rows_map<V>(rows: Seq<(String, V)>) -> Map<Seq<char>, V> {
    Map::new(|k: Seq<char>| has_row(rows, k), |k: Seq<char>| row_value(rows, k))
}

/// Whether no key has two rows.
pub open spec fn keys_distinct<V>(rows: Seq<(String, V)>) -> bool {
    forall|i: int, j: int|
        0 <= i < j < rows.len() ==> (#[trigger] rows[i]).0@ != (#[trigger] rows[j]).0@
}

impl<V> View for Table<V> {
    type V = Map<Seq<char>, V>;

    closed spec fn view(&self) -> Map<Seq<char>, V> {
        rows_map(self.rows@)
    }
}

proof fn lemma_row<V>(rows: Seq<(String, V)>, i: int)
    requires
        keys_distinct(rows),
        0 <= i < rows.len(),
    ensures
        rows_map(rows).dom().contains(rows[i].0@),
        rows_map(rows)[rows[i].0@] == rows[i].1,
{
    let k = rows[i].0@;
    let j = choose|j: int| 0 <= j < rows.len() && (#[trigger] rows[j]).0@ == k;
    assert(rows[i].0@ == k);
    if i < j {
        assert(rows[i].0@ != rows[j].0@);
    } else if j < i {
        assert(rows[j].0@ != rows[i].0@);
    }
}

impl<V: Copy> Table<V> {
    /// Whether no key has two rows.
    pub closed spec fn wf(&self) -> bool {
        keys_distinct(self.rows@)
    }

    /// The keys in the order of insertion.
    pub closed spec fn key_list(&self) -> Seq<Seq<char>> {
        Seq::new(self.rows@.len(), |i: int| self.rows@[i].0@)
    }

    /// A table without rows.
    pub fn new() -> (r: Self)
        ensures
            r.wf(),
            r@ == Map::<Seq<char>, V>::empty(),
    {
        let t = Table { rows: Vec::new() };
        assert(t@ =~= Map::<Seq<char>, V>::empty());
        t
    }

    /// The number of rows.
    pub fn len(&self) -> (r: usize)
        requires
            self.wf(),
        ensures
            r == self.key_list().len(),
            r == 0 <==> self@ == Map::<Seq<char>, V>::empty(),
    {
        proof {
            if self.rows@.len() > 0 {
                lemma_row(self.rows@, 0);
            } else {
                assert(self@ =~= Map::<Seq<char>, V>::empty());
            }
        }
        self.rows.len()
    }

    /// The place of the row with that key.
    fn place(&self, key: &str) -> (r: Option<usize>)
        requires
            self.wf(),
        ensures
            match r {
                Some(i) => i < self.rows@.len() && self.rows@[i as int].0@ == key@
                    && self@.dom().contains(key@) && self@[key@] == self.rows@[i as int].1,
                None => !self@.dom().contains(key@) && forall|j: int|
                    0 <= j < self.rows@.len() ==> (#[trigger] self.rows@[j]).0@ != key@,
            },
    {
        let mut i: usize = 0;
        while i < self.rows.len()
            invariant
                i <= self.rows@.len(),
                keys_distinct(self.rows@),
                forall|j: int| 0 <= j < i ==> (#[trigger] self.rows@[j]).0@ != key@,
            decreases self.rows@.len() - i,
        {
            if same_text(self.rows[i].0.as_str(), key) {
                proof {
                    lemma_row(self.rows@, i as int);
                }
                return Some(i);
            }
            i = i + 1;
        }
        None
    }

    /// The value of the row with that key.
    pub fn get(&self, key: &str) -> (r: Option<V>)
        requires
            self.wf(),
        ensures
            match r {
                Some(v) => self@.dom().contains(key@) && v == self@[key@],
                None => !self@.dom().contains(key@),
            },
    {
        match self.place(key) {
            Some(i) => Some(self.rows[i].1),
            None => None,
        }
    }

    /// Sets the row with that key, adding it where there is none.
    pub fn put(&mut self, key: &str, v: V)
        requires
            old(self).wf(),
        ensures
            final(self).wf(),
            final(self)@ == old(self)@.insert(key@, v),
    {
        let ghost had = self.rows@;
        let ghost before = self@;
        match self.place(key) {
            Some(i) => {
                let k: String = self.rows[i].0.clone();
                self.rows.set(i, (k, v));
                proof {
                    let rows = self.rows@;
                    assert(keys_distinct(rows)) by {
                        assert forall|a: int, b: int| 0 <= a < b < rows.len() implies (
                        #[trigger] rows[a]).0@ != (#[trigger] rows[b]).0@ by {
                            assert(had[a].0@ != had[b].0@);
                        }
                    }
                    lemma_same_but(had, rows, i as int, key@, v);
                }
            },
            None => {
                self.rows.push((key.to_owned(), v));
                proof {
                    let rows = self.rows@;
                    assert(keys_distinct(rows));
                    lemma_pushed(had, rows, key@, v);
                }
            },
        }
    }

    /// Keeps only the rows whose key is listed.
    pub fn retain(&mut self, keys: &Vec<String>)
        requires
            old(self).wf(),
        ensures
            final(self).wf(),
            final(self)@ == old(self)@.restrict(
                Set::new(|k: Seq<char>| text::views(keys@).contains(k)),
            ),
    {
        let ghost had = self.rows@;
        let ghost listed = Set::new(|k: Seq<char>| text::views(keys@).contains(k));
        let mut out: Vec<(String, V)> = Vec::new();
        let mut i: usize = 0;
        while i < self.rows.len()
            invariant
                i <= self.rows@.len(),
                self.rows@ == had,
                keys_distinct(had),
                keys_distinct(out@),
                listed == Set::new(|k: Seq<char>| text::views(keys@).contains(k)),
                forall|j: int|
                    0 <= j < out@.len() ==> listed.contains((#[trigger] out@[j]).0@) && exists|a: int|
                        0 <= a < i && had[a].0@ == out@[j].0@ && (#[trigger] had[a]).1 == out@[j].1,
                forall|a: int|
                    0 <= a < i && listed.contains((#[trigger] had[a]).0@) ==> has_row(
                        out@,
                        had[a].0@,
                    ),
            decreases self.rows@.len() - i,
        {
            let ghost before = out@;
            if holds_text(keys, self.rows[i].0.as_str()) {
                let k: String = self.rows[i].0.clone();
                let v: V = self.rows[i].1;
                out.push((k, v));
                proof {
                    assert(keys_distinct(out@)) by {
                        assert forall|a: int, b: int| 0 <= a < b < out@.len() implies (
                        #[trigger] out@[a]).0@ != (#[trigger] out@[b]).0@ by {
                            if b == before.len() {
                                assert(before[a] == out@[a]);
                                let c = choose|c: int|
                                    0 <= c < i && had[c].0@ == before[a].0@ && (
                                    #[trigger] had[c]).1 == before[a].1;
                                assert(had[c].0@ != had[i as int].0@);
                            }
                        }
                    }
                    assert(out@[before.len() as int].0@ == had[i as int].0@);
                    assert forall|a: int|
                        0 <= a < i + 1 && listed.contains((#[trigger] had[a]).0@) implies has_row(
                        out@,
                        had[a].0@,
                    ) by {
                        if a < i {
                            let c = choose|c: int|
                                0 <= c < before.len() && (#[trigger] before[c]).0@ == had[a].0@;
                            assert(out@[c].0@ == had[a].0@);
                        }
                    }
                    assert forall|j: int| 0 <= j < out@.len() implies listed.contains(
                        (#[trigger] out@[j]).0@,
                    ) && exists|a: int|
                        0 <= a < i + 1 && had[a].0@ == out@[j].0@ && (#[trigger] had[a]).1
                            == out@[j].1 by {
                        if j < before.len() {
                            assert(before[j] == out@[j]);
                        } else {
                            assert(had[i as int].1 == out@[j].1);
                        }
                    }
                }
            }
            i = i + 1;
        }
        self.rows = out;
        proof {
            let rows = self.rows@;
            let want = rows_map(had).restrict(listed);
            assert forall|k: Seq<char>| #[trigger] rows_map(rows).dom().contains(k)
                <==> want.dom().contains(k) by {
                if has_row(rows, k) {
                    let j = choose|j: int| 0 <= j < rows.len() && (#[trigger] rows[j]).0@ == k;
                    let a = choose|a: int|
                        0 <= a < had.len() && had[a].0@ == rows[j].0@ && (#[trigger] had[a]).1
                            == rows[j].1;
                    lemma_row(had, a);
                }
                if want.dom().contains(k) {
                    let a = choose|a: int| 0 <= a < had.len() && (#[trigger] had[a]).0@ == k;
                    assert(listed.contains(had[a].0@));
                }
            }
            assert forall|k: Seq<char>| #[trigger] rows_map(rows).dom().contains(k) implies rows_map(
                rows,
            )[k] == want[k] by {
                let j = choose|j: int| 0 <= j < rows.len() && (#[trigger] rows[j]).0@ == k;
                lemma_row(rows, j);
                let a = choose|a: int|
                    0 <= a < had.len() && had[a].0@ == rows[j].0@ && (#[trigger] had[a]).1
                        == rows[j].1;
                lemma_row(had, a);
            }
            assert(rows_map(rows) =~= want);
        }
    }

    /// The keys in the order of insertion.
    pub fn keys(&self) -> (r: Vec<String>)
        requires
            self.wf(),
        ensures
            text::views(r@) == self.key_list(),
            r@.len() == self.key_list().len(),
            text::views(r@).no_duplicates(),
            forall|k: Seq<char>|
                #[trigger] text::views(r@).contains(k) <==> self@.dom().contains(k),
    {
        let mut out: Vec<String> = Vec::new();
        let mut i: usize = 0;
        while i < self.rows.len()
            invariant
                i <= self.rows@.len(),
                out@.len() == i,
                forall|j: int| 0 <= j < i ==> (#[trigger] out@[j])@ == self.rows@[j].0@,
            decreases self.rows@.len() - i,
        {
            out.push(self.rows[i].0.clone());
            i = i + 1;
        }
        proof {
            let ks = text::views(out@);
            assert(ks =~= self.key_list());
            assert forall|a: int, b: int| 0 <= a < ks.len() && 0 <= b < ks.len() && a != b implies ks[a]
                != ks[b] by {
                if a < b {
                    assert(self.rows@[a].0@ != self.rows@[b].0@);
                } else {
                    assert(self.rows@[b].0@ != self.rows@[a].0@);
                }
            }
            assert forall|k: Seq<char>| #[trigger] ks.contains(k) <==> self@.dom().contains(k) by {
                if ks.contains(k) {
                    let a = choose|a: int| 0 <= a < ks.len() && ks[a] == k;
                    lemma_row(self.rows@, a);
                }
                if self@.dom().contains(k) {
                    let a = choose|a: int|
                        0 <= a < self.rows@.len() && (#[trigger] self.rows@[a]).0@ == k;
                    assert(ks[a] == k);
                }
            }
        }
        out
    }
}

proof fn lemma_same_but<V>(
    had: Seq<(String, V)>,
    rows: Seq<(String, V)>,
    i: int,
    k: Seq<char>,
    v: V,
)
    requires
        keys_distinct(had),
        keys_distinct(rows),
        rows.len() == had.len(),
        0 <= i < had.len(),
        had[i].0@ == k,
        rows[i].0@ == k,
        rows[i].1 == v,
        forall|j: int| 0 <= j < had.len() && j != i ==> rows[j] == #[trigger] had[j],
    ensures
        rows_map(rows) =~= rows_map(had).insert(k, v),
{
    let want = rows_map(had).insert(k, v);
    lemma_row(rows, i);
    lemma_row(had, i);
    assert forall|x: Seq<char>| #[trigger] rows_map(rows).dom().contains(x) <==> want.dom().contains(
        x,
    ) by {
        if has_row(rows, x) {
            let j = choose|j: int| 0 <= j < rows.len() && (#[trigger] rows[j]).0@ == x;
            assert(had[j].0@ == x);
        }
        if has_row(had, x) {
            let j = choose|j: int| 0 <= j < had.len() && (#[trigger] had[j]).0@ == x;
            assert(rows[j].0@ == x);
        }
    }
    assert forall|x: Seq<char>| #[trigger] rows_map(rows).dom().contains(x) implies rows_map(
        rows,
    )[x] == want[x] by {
        let j = choose|j: int| 0 <= j < rows.len() && (#[trigger] rows[j]).0@ == x;
        lemma_row(rows, j);
        if j != i {
            assert(rows[j] == had[j]);
            lemma_row(had, j);
            if j < i {
                assert(rows[j].0@ != rows[i].0@);
            } else {
                assert(rows[i].0@ != rows[j].0@);
            }
        }
    }
}

proof fn lemma_pushed<V>(had: Seq<(String, V)>, rows: Seq<(String, V)>, k: Seq<char>, v: V)
    requires
        keys_distinct(had),
        keys_distinct(rows),
        rows.len() == had.len() + 1,
        rows.last().0@ == k,
        rows.last().1 == v,
        forall|j: int| 0 <= j < had.len() ==> rows[j] == #[trigger] had[j],
    ensures
        rows_map(rows) =~= rows_map(had).insert(k, v),
{
    let want = rows_map(had).insert(k, v);
    let n = had.len() as int;
    lemma_row(rows, n);
    assert forall|x: Seq<char>| #[trigger] rows_map(rows).dom().contains(x) <==> want.dom().contains(
        x,
    ) by {
        if has_row(rows, x) {
            let j = choose|j: int| 0 <= j < rows.len() && (#[trigger] rows[j]).0@ == x;
            if j < n {
                assert(had[j].0@ == x);
            }
        }
        if has_row(had, x) {
            let j = choose|j: int| 0 <= j < had.len() && (#[trigger] had[j]).0@ == x;
            assert(rows[j].0@ == x);
        }
    }
    assert forall|x: Seq<char>| #[trigger] rows_map(rows).dom().contains(x) implies rows_map(
        rows,
    )[x] == want[x] by {
        let j = choose|j: int| 0 <= j < rows.len() && (#[trigger] rows[j]).0@ == x;
        lemma_row(rows, j);
        if j < n {
            assert(rows[j] == had[j]);
            lemma_row(had, j);
            assert(rows[j].0@ != rows[n].0@);
        }
    }
}

} // verus!
