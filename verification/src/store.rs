//! An ordered key-value space with atomic batch writes, point lookups and
//! ordered range scans.
//!
//! The store is a map from keys to rows. It keeps its rows in key order, so
//! a scan between two keys is one stretch of them.

use vstd::prelude::*;
use crate::rows::{Key, Row, RowModel, row_models, lemma_key_order_total, lemma_key_order_transitive};

verus! {

/// A set of changes that the store applies as one: first the deletions, then
/// the rows, each in order, a later row replacing an earlier one with its key.
#[derive(Clone, Debug, PartialEq, Eq)]
pub struct WriteBatch {
    pub deletes: Vec<Key>,
    pub puts: Vec<Row>,
}

/// What a batch holds.
pub struct BatchModel {
    pub deletes: Seq<Key>,
    pub puts: Seq<RowModel>,
}

impl View for WriteBatch {
    type V = BatchModel;

    open spec fn view(&self) -> BatchModel {
        BatchModel { deletes: self.deletes@, puts: row_models(self.puts@) }
    }
}

/// The map after each of the rows was filed under its key, in order.
pub open spec fn apply_puts(m: Map<Key, RowModel>, puts: Seq<RowModel>) -> Map<Key, RowModel>
    decreases puts.len(),
{
    if puts.len() == 0 {
        m
    } else {
        apply_puts(m, puts.drop_last()).insert(puts.last().key(), puts.last())
    }
}

/// The map after each of the keys was removed.
pub open spec fn apply_deletes(m: Map<Key, RowModel>, deletes: Seq<Key>) -> Map<Key, RowModel>
    decreases deletes.len(),
{
    if deletes.len() == 0 {
        m
    } else {
        apply_deletes(m, deletes.drop_last()).remove(deletes.last())
    }
}

/// The map after a batch was applied.
pub open spec fn apply_batch(m: Map<Key, RowModel>, batch: BatchModel) -> Map<Key, RowModel> {
    apply_puts(apply_deletes(m, batch.deletes), batch.puts)
}

/// Whether the rows come in strictly ascending order of their keys.
pub open spec fn ascending(s: Seq<RowModel>) -> bool {
    forall|i: int, j: int| 0 <= i < j < s.len() ==> (#[trigger] s[i]).key().lt((#[trigger] s[j]).key())
}

/// Whether `s` lists the rows of `m`: in key order, each once, none missing.
pub open spec fn lists(s: Seq<RowModel>, m: Map<Key, RowModel>) -> bool {
    &&& ascending(s)
    &&& forall|i: int| 0 <= i < s.len() ==> m.contains_key((#[trigger] s[i]).key()) && m[s[i].key()] == s[i]
    &&& forall|k: Key|
        #[trigger] m.contains_key(k) ==> exists|i: int|
            0 <= i < s.len() && (#[trigger] s[i]).key() == k
}

/// Whether every row of the map is filed under its own key.
pub open spec fn keyed(m: Map<Key, RowModel>) -> bool {
    forall|k: Key| #[trigger] m.contains_key(k) ==> m[k].key() == k
}

/// A map that a sequence of rows lists files every row under its own key.
pub proof fn lemma_lists_keyed(s: Seq<RowModel>, m: Map<Key, RowModel>)
    requires
        lists(s, m),
    ensures
        keyed(m),
{
    assert forall|k: Key| #[trigger] m.contains_key(k) implies m[k].key() == k by {
        let i = choose|i: int| 0 <= i < s.len() && (#[trigger] s[i]).key() == k;
        assert(m[s[i].key()] == s[i]);
    }
}

proof fn lemma_lists_insert(s: Seq<RowModel>, m: Map<Key, RowModel>, idx: int, row: RowModel)
    requires
        lists(s, m),
        0 <= idx <= s.len(),
        forall|i: int| 0 <= i < idx ==> (#[trigger] s[i]).key().lt(row.key()),
        forall|i: int| idx <= i < s.len() ==> row.key().lt((#[trigger] s[i]).key()),
    ensures
        lists(s.insert(idx, row), m.insert(row.key(), row)),
{
    let s2 = s.insert(idx, row);
    let m2 = m.insert(row.key(), row);
    assert forall|i: int, j: int| 0 <= i < j < s2.len() implies (#[trigger] s2[i]).key().lt(
        (#[trigger] s2[j]).key(),
    ) by {
        let oi = if i < idx { i } else { i - 1 };
        let oj = if j < idx { j } else { j - 1 };
        if i != idx && j != idx {
            assert(s2[i] == s[oi] && s2[j] == s[oj]);
            assert(s[oi].key().lt(s[oj].key()));
        } else if i == idx {
            assert(s2[j] == s[oj]);
        } else {
            assert(s2[i] == s[oi]);
        }
    }
    assert forall|i: int| 0 <= i < s2.len() implies m2.contains_key((#[trigger] s2[i]).key())
        && m2[s2[i].key()] == s2[i] by {
        if i != idx {
            let oi = if i < idx { i } else { i - 1 };
            assert(s2[i] == s[oi]);
            lemma_key_order_total(s[oi].key(), row.key());
        }
    }
    assert forall|k: Key| #[trigger] m2.contains_key(k) implies exists|i: int|
        0 <= i < s2.len() && (#[trigger] s2[i]).key() == k by {
        if k == row.key() {
            assert(s2[idx].key() == k);
        } else {
            assert(m.contains_key(k));
            let oi = choose|i: int| 0 <= i < s.len() && (#[trigger] s[i]).key() == k;
            let ni = if oi < idx { oi } else { oi + 1 };
            assert(s2[ni] == s[oi]);
        }
    }
}

proof fn lemma_lists_update(s: Seq<RowModel>, m: Map<Key, RowModel>, idx: int, row: RowModel)
    requires
        lists(s, m),
        0 <= idx < s.len(),
        s[idx].key() == row.key(),
    ensures
        lists(s.update(idx, row), m.insert(row.key(), row)),
{
    let s2 = s.update(idx, row);
    let m2 = m.insert(row.key(), row);
    assert forall|i: int, j: int| 0 <= i < j < s2.len() implies (#[trigger] s2[i]).key().lt(
        (#[trigger] s2[j]).key(),
    ) by {
        assert(s2[i].key() == s[i].key() && s2[j].key() == s[j].key());
        assert(s[i].key().lt(s[j].key()));
    }
    assert forall|i: int| 0 <= i < s2.len() implies m2.contains_key((#[trigger] s2[i]).key())
        && m2[s2[i].key()] == s2[i] by {
        if i != idx {
            assert(s2[i] == s[i]);
            if i < idx {
                assert(s[i].key().lt(s[idx].key()));
            } else {
                assert(s[idx].key().lt(s[i].key()));
            }
            lemma_key_order_total(s[i].key(), row.key());
        }
    }
    assert forall|k: Key| #[trigger] m2.contains_key(k) implies exists|i: int|
        0 <= i < s2.len() && (#[trigger] s2[i]).key() == k by {
        if k == row.key() {
            assert(s2[idx].key() == k);
        } else {
            assert(m.contains_key(k));
            let oi = choose|i: int| 0 <= i < s.len() && (#[trigger] s[i]).key() == k;
            assert(s2[oi] == s[oi]);
        }
    }
}

proof fn lemma_lists_remove(s: Seq<RowModel>, m: Map<Key, RowModel>, idx: int)
    requires
        lists(s, m),
        0 <= idx < s.len(),
    ensures
        lists(s.remove(idx), m.remove(s[idx].key())),
{
    let s2 = s.remove(idx);
    let m2 = m.remove(s[idx].key());
    assert forall|i: int, j: int| 0 <= i < j < s2.len() implies (#[trigger] s2[i]).key().lt(
        (#[trigger] s2[j]).key(),
    ) by {
        let oi = if i < idx { i } else { i + 1 };
        let oj = if j < idx { j } else { j + 1 };
        assert(s2[i] == s[oi] && s2[j] == s[oj]);
        assert(s[oi].key().lt(s[oj].key()));
    }
    assert forall|i: int| 0 <= i < s2.len() implies m2.contains_key((#[trigger] s2[i]).key())
        && m2[s2[i].key()] == s2[i] by {
        let oi = if i < idx { i } else { i + 1 };
        assert(s2[i] == s[oi]);
        if oi < idx {
            assert(s[oi].key().lt(s[idx].key()));
        } else {
            assert(s[idx].key().lt(s[oi].key()));
        }
        lemma_key_order_total(s[oi].key(), s[idx].key());
    }
    assert forall|k: Key| #[trigger] m2.contains_key(k) implies exists|i: int|
        0 <= i < s2.len() && (#[trigger] s2[i]).key() == k by {
        assert(m.contains_key(k));
        let oi = choose|i: int| 0 <= i < s.len() && (#[trigger] s[i]).key() == k;
        let ni = if oi < idx { oi } else { oi - 1 };
        assert(s2[ni] == s[oi]);
    }
}

/// A key that no row of an ascending stretch around it carries is not in the map.
proof fn lemma_lists_absent(s: Seq<RowModel>, m: Map<Key, RowModel>, idx: int, k: Key)
    requires
        lists(s, m),
        0 <= idx <= s.len(),
        forall|i: int| 0 <= i < idx ==> (#[trigger] s[i]).key().lt(k),
        forall|i: int| idx <= i < s.len() ==> k.lt((#[trigger] s[i]).key()),
    ensures
        !m.contains_key(k),
{
    if m.contains_key(k) {
        let i = choose|i: int| 0 <= i < s.len() && (#[trigger] s[i]).key() == k;
        lemma_key_order_total(s[i].key(), k);
    }
}

/// The ordered key-value store.
pub struct Store {
    rows: Vec<Row>,
    map: Ghost<Map<Key, RowModel>>,
}

impl View for Store {
    type V = Map<Key, RowModel>;

    closed spec fn view(&self) -> Map<Key, RowModel> {
        self.map@
    }
}

impl Store {
    /// The rows of the store in key order.
    pub closed spec fn ordered(&self) -> Seq<RowModel> {
        row_models(self.rows@)
    }

    /// The store's invariant: its rows are kept in key order, one for each
    /// key of the map.
    pub closed spec fn wf(&self) -> bool {
        lists(self.ordered(), self@)
    }

    /// The rows in order list the map, and each is filed under its own key.
    pub proof fn lemma_ordered(&self)
        requires
            self.wf(),
        ensures
            lists(self.ordered(), self@),
            keyed(self@),
    {
        lemma_lists_keyed(self.ordered(), self@);
    }

    /// An empty store.
    pub fn new() -> (s: Store)
        ensures
            s.wf(),
            s@ == Map::<Key, RowModel>::empty(),
    {
        Store { rows: Vec::new(), map: Ghost(Map::empty()) }
    }

    /// The number of rows.
    pub fn len(&self) -> (n: usize)
        ensures
            n == self.ordered().len(),
    {
        self.rows.len()
    }

    /// The row at a place in key order.
    pub fn row_at(&self, i: usize) -> (row: &Row)
        requires
            i < self.ordered().len(),
        ensures
            row@ == self.ordered()[i as int],
    {
        &self.rows[i]
    }

    /// The number of rows whose key comes before `key`; with `inclusive`,
    /// the number of those whose key is `key` or comes before it.
    pub fn bound(&self, key: &Key, inclusive: bool) -> (n: usize)
        requires
            self.wf(),
        ensures
            n <= self.ordered().len(),
            forall|i: int|
                0 <= i < self.ordered().len() ==> (i < n <==> ((#[trigger] self.ordered()[i]).key().lt(
                    *key,
                ) || (inclusive && self.ordered()[i].key() == *key))),
    {
        let ghost s = self.ordered();
        let mut lo: usize = 0;
        let mut hi: usize = self.rows.len();
        while lo < hi
            invariant
                lo <= hi <= self.rows.len(),
                s == self.ordered(),
                s.len() == self.rows.len(),
                ascending(s),
                forall|i: int|
                    0 <= i < lo ==> ((#[trigger] s[i]).key().lt(*key) || (inclusive && s[i].key()
                        == *key)),
                forall|i: int|
                    hi <= i < s.len() ==> !((#[trigger] s[i]).key().lt(*key) || (inclusive
                        && s[i].key() == *key)),
            decreases hi - lo,
        {
            let mid = lo + (hi - lo) / 2;
            let k = self.rows[mid].key();
            assert(k == s[mid as int].key());
            let before = k.precedes(key) || (inclusive && k == *key);
            if before {
                assert forall|i: int| 0 <= i < mid + 1 implies ((#[trigger] s[i]).key().lt(*key) || (
                inclusive && s[i].key() == *key)) by {
                    if i < mid {
                        assert(s[i].key().lt(s[mid as int].key()));
                        if k.lt(*key) {
                            lemma_key_order_transitive(s[i].key(), k, *key);
                        }
                    }
                }
                lo = mid + 1;
            } else {
                assert forall|i: int| mid <= i < s.len() implies !((#[trigger] s[i]).key().lt(*key) || (
                inclusive && s[i].key() == *key)) by {
                    if i > mid {
                        assert(s[mid as int].key().lt(s[i].key()));
                        lemma_key_order_total(k, *key);
                        lemma_key_order_total(s[i].key(), *key);
                        if s[i].key().lt(*key) {
                            lemma_key_order_transitive(k, s[i].key(), *key);
                        }
                    }
                }
                hi = mid;
            }
        }
        lo
    }

    /// The row filed under `key`, if there is one.
    pub fn get(&self, key: &Key) -> (r: Option<&Row>)
        requires
            self.wf(),
        ensures
            match r {
                Some(row) => self@.contains_key(*key) && row@ == self@[*key],
                None => !self@.contains_key(*key),
            },
    {
        let idx = self.bound(key, false);
        if idx < self.rows.len() && self.rows[idx].key() == *key {
            assert(self.ordered()[idx as int].key() == *key);
            Some(&self.rows[idx])
        } else {
            proof {
                let s = self.ordered();
                assert forall|i: int| idx <= i < s.len() implies key.lt((#[trigger] s[i]).key()) by {
                    lemma_key_order_total(s[i].key(), *key);
                    if i > idx {
                        assert(s[idx as int].key().lt(s[i].key()));
                        lemma_key_order_total(s[idx as int].key(), *key);
                    }
                }
                lemma_lists_absent(s, self@, idx as int, *key);
            }
            None
        }
    }

    /// Whether a row is filed under `key`.
    pub fn contains(&self, key: &Key) -> (b: bool)
        requires
            self.wf(),
        ensures
            b == self@.contains_key(*key),
    {
        self.get(key).is_some()
    }

    /// Files a row under its key, in place of the row that was there.
    pub fn put(&mut self, row: Row)
        requires
            old(self).wf(),
        ensures
            final(self).wf(),
            final(self)@ == old(self)@.insert(row@.key(), row@),
    {
        let key = row.key();
        let idx = self.bound(&key, false);
        let ghost s = self.ordered();
        let ghost m = self@;
        let ghost model = row@;
        if idx < self.rows.len() && self.rows[idx].key() == key {
            self.rows.set(idx, row);
            proof {
                lemma_lists_update(s, m, idx as int, model);
                self.map = Ghost(m.insert(model.key(), model));
                assert(self.ordered() =~= s.update(idx as int, model));
            }
        } else {
            proof {
                assert forall|i: int| idx <= i < s.len() implies key.lt((#[trigger] s[i]).key()) by {
                    lemma_key_order_total(s[i].key(), key);
                    if i > idx {
                        assert(s[idx as int].key().lt(s[i].key()));
                        lemma_key_order_total(s[idx as int].key(), key);
                    }
                }
                lemma_lists_insert(s, m, idx as int, model);
            }
            self.rows.insert(idx, row);
            proof {
                self.map = Ghost(m.insert(model.key(), model));
                assert(self.ordered() =~= s.insert(idx as int, model));
            }
        }
    }

    /// Removes the row filed under `key`, if there is one.
    pub fn delete(&mut self, key: &Key)
        requires
            old(self).wf(),
        ensures
            final(self).wf(),
            final(self)@ == old(self)@.remove(*key),
    {
        let idx = self.bound(key, false);
        let ghost s = self.ordered();
        let ghost m = self@;
        if idx < self.rows.len() && self.rows[idx].key() == *key {
            proof {
                lemma_lists_remove(s, m, idx as int);
            }
            self.rows.remove(idx);
            proof {
                self.map = Ghost(m.remove(*key));
                assert(self.ordered() =~= s.remove(idx as int));
            }
        } else {
            proof {
                assert forall|i: int| idx <= i < s.len() implies key.lt((#[trigger] s[i]).key()) by {
                    lemma_key_order_total(s[i].key(), *key);
                    if i > idx {
                        assert(s[idx as int].key().lt(s[i].key()));
                        lemma_key_order_total(s[idx as int].key(), *key);
                    }
                }
                lemma_lists_absent(s, m, idx as int, *key);
                assert(m.remove(*key) =~= m);
            }
        }
    }

    /// Applies a batch as one change: its deletions, then its rows.
    pub fn write(&mut self, batch: WriteBatch)
        requires
            old(self).wf(),
        ensures
            final(self).wf(),
            final(self)@ == apply_batch(old(self)@, batch@),
    {
        let ghost m0 = self@;
        let WriteBatch { deletes, puts } = batch;
        let mut i: usize = 0;
        while i < deletes.len()
            invariant
                i <= deletes.len(),
                self.wf(),
                self@ == apply_deletes(m0, deletes@.take(i as int)),
            decreases deletes.len() - i,
        {
            self.delete(&deletes[i]);
            proof {
                assert(deletes@.take(i + 1).drop_last() =~= deletes@.take(i as int));
            }
            i += 1;
        }
        assert(deletes@.take(i as int) =~= deletes@);
        let ghost m1 = self@;
        let ghost all = row_models(puts@);
        let ghost n = puts@.len();
        let mut rest = reversed(puts);
        while rest.len() > 0
            invariant
                rest@.len() <= n,
                n == all.len(),
                self.wf(),
                forall|j: int| 0 <= j < rest@.len() ==> (#[trigger] rest@[j])@ == all[n - 1 - j],
                self@ == apply_puts(m1, all.take(n - rest@.len())),
            decreases rest.len(),
        {
            let ghost done = n - rest@.len();
            let row = rest.pop().unwrap();
            assert(row@ == all[done]);
            self.put(row);
            proof {
                assert(all.take(done + 1).drop_last() =~= all.take(done));
            }
        }
        assert(all.take(n as int) =~= all);
    }
}

/// The rows in the opposite order.
fn reversed(rows: Vec<Row>) -> (r: Vec<Row>)
    ensures
        r@.len() == rows@.len(),
        forall|j: int| 0 <= j < r@.len() ==> (#[trigger] r@[j])@ == row_models(rows@)[rows@.len() - 1 - j],
{
    let ghost all = row_models(rows@);
    let ghost n = rows@.len();
    let mut rows = rows;
    let mut r: Vec<Row> = Vec::new();
    while rows.len() > 0
        invariant
            rows@.len() + r@.len() == n,
            n == all.len(),
            forall|j: int| 0 <= j < rows@.len() ==> (#[trigger] rows@[j])@ == all[j],
            forall|j: int| 0 <= j < r@.len() ==> (#[trigger] r@[j])@ == all[n - 1 - j],
        decreases rows.len(),
    {
        let row = rows.pop().unwrap();
        r.push(row);
    }
    r
}

} // verus!
