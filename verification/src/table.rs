//! An ordered key-value table: byte-string keys kept in lexicographic order,
//! with point lookup, insertion and ranged scans by position.

use crate::bytes::{
    bytes_eq, bytes_le, bytes_lt, lemma_lex_asymmetric, lemma_lex_irreflexive,
    lemma_lex_le_transitive, lemma_lex_total, lemma_lex_transitive, lex_le, lex_lt,
};
use vstd::prelude::*;

verus! {

/// One entry of a table.
pub struct Entry<V> {
    pub key: Vec<u8>,
    pub value: V,
}

/// A table from byte-string keys to values, ordered by key.
pub struct OrderedTable<V> {
    items: Vec<Entry<V>>,
}

/// Keys strictly increase along the sequence.
pub open spec fn strictly_sorted<V>(e: Seq<(Seq<u8>, V)>) -> bool {
    forall|i: int, j: int| 0 <= i < j < e.len() ==> lex_lt(#[trigger] e[i].0, #[trigger] e[j].0)
}

/// Whether some entry of the sequence has the key.
pub open spec fn has_key<V>(e: Seq<(Seq<u8>, V)>, key: Seq<u8>) -> bool {
    exists|i: int| 0 <= i < e.len() && #[trigger] e[i].0 == key
}

/// The position of the key in the sequence.
pub open spec fn position_of<V>(e: Seq<(Seq<u8>, V)>, key: Seq<u8>) -> int {
    choose|i: int| 0 <= i < e.len() && #[trigger] e[i].0 == key
}

/// The map that a sequence of entries stands for.
pub open spec fn entries_map<V>(e: Seq<(Seq<u8>, V)>) -> Map<Seq<u8>, V> {
    Map::new(|k: Seq<u8>| has_key(e, k), |k: Seq<u8>| e[position_of(e, k)].1)
}

/// In a sorted sequence a key occurs at one position only, so the map gives
/// each entry's key that entry's value.
pub proof fn lemma_entry_lookup<V>(e: Seq<(Seq<u8>, V)>, i: int)
    requires
        strictly_sorted(e),
        0 <= i < e.len(),
    ensures
        has_key(e, e[i].0),
        position_of(e, e[i].0) == i,
        entries_map(e).contains_key(e[i].0),
        entries_map(e)[e[i].0] == e[i].1,
{
    let p = position_of(e, e[i].0);
    if p < i {
        lemma_lex_irreflexive(e[i].0);
        assert(lex_lt(e[p].0, e[i].0));
    } else if i < p {
        lemma_lex_irreflexive(e[i].0);
        assert(lex_lt(e[i].0, e[p].0));
    }
}

/// Putting a new entry at its place in a sorted sequence adds it to the map.
proof fn lemma_insert_entry<V>(e: Seq<(Seq<u8>, V)>, p: int, key: Seq<u8>, value: V)
    requires
        strictly_sorted(e),
        0 <= p <= e.len(),
        forall|i: int| 0 <= i < p ==> lex_lt(#[trigger] e[i].0, key),
        forall|i: int| p <= i < e.len() ==> lex_lt(key, #[trigger] e[i].0),
    ensures
        strictly_sorted(e.insert(p, (key, value))),
        entries_map(e.insert(p, (key, value))) == entries_map(e).insert(key, value),
{
    let n = e.insert(p, (key, value));
    assert forall|i: int, j: int| 0 <= i < j < n.len() implies lex_lt(
        #[trigger] n[i].0,
        #[trigger] n[j].0,
    ) by {
        if j < p {
        } else if j == p {
        } else if i < p {
            lemma_lex_transitive(n[i].0, key, n[j].0);
        } else if i == p {
        } else {
            assert(lex_lt(e[i - 1].0, e[j - 1].0));
        }
    }
    assert forall|k: Seq<u8>| has_key(n, k) <==> (k == key || has_key(e, k)) by {
        if has_key(n, k) {
            let i = position_of(n, k);
            if i < p {
                assert(e[i].0 == k);
            } else if i > p {
                assert(e[i - 1].0 == k);
            }
        }
        if k == key {
            assert(n[p].0 == k);
        }
        if has_key(e, k) {
            let i = position_of(e, k);
            if i < p {
                assert(n[i].0 == k);
            } else {
                assert(n[i + 1].0 == k);
            }
        }
    }
    assert forall|k: Seq<u8>| has_key(n, k) implies entries_map(n)[k] == entries_map(e).insert(
        key,
        value,
    )[k] by {
        let i = position_of(n, k);
        lemma_entry_lookup(n, i);
        if i < p {
            lemma_entry_lookup(e, i);
        } else if i > p {
            lemma_entry_lookup(e, i - 1);
            lemma_lex_irreflexive(key);
        }
    }
    assert(entries_map(n) =~= entries_map(e).insert(key, value));
}

/// Replacing the value of an entry of a sorted sequence updates the map.
proof fn lemma_update_entry<V>(e: Seq<(Seq<u8>, V)>, p: int, value: V)
    requires
        strictly_sorted(e),
        0 <= p < e.len(),
    ensures
        strictly_sorted(e.update(p, (e[p].0, value))),
        entries_map(e.update(p, (e[p].0, value))) == entries_map(e).insert(e[p].0, value),
{
    let key = e[p].0;
    let n = e.update(p, (key, value));
    assert forall|i: int, j: int| 0 <= i < j < n.len() implies lex_lt(
        #[trigger] n[i].0,
        #[trigger] n[j].0,
    ) by {
        assert(lex_lt(e[i].0, e[j].0));
    }
    assert forall|k: Seq<u8>| has_key(n, k) <==> (k == key || has_key(e, k)) by {
        if has_key(n, k) {
            let i = position_of(n, k);
            assert(e[i].0 == k);
        }
        if k == key {
            assert(n[p].0 == k);
        }
        if has_key(e, k) {
            let i = position_of(e, k);
            assert(n[i].0 == k);
        }
    }
    assert forall|k: Seq<u8>| has_key(n, k) implies entries_map(n)[k] == entries_map(e).insert(
        key,
        value,
    )[k] by {
        let i = position_of(n, k);
        lemma_entry_lookup(n, i);
        lemma_entry_lookup(e, i);
    }
    assert(entries_map(n) =~= entries_map(e).insert(key, value));
}

impl<V> View for OrderedTable<V> {
    type V = Map<Seq<u8>, V>;

    /// The table as a map from keys to values.
    open spec fn view(&self) -> Map<Seq<u8>, V> {
        entries_map(self.entries())
    }
}

impl<V> OrderedTable<V> {
    /// The entries in storage order, each as a key and its value.
    pub closed spec fn entries(&self) -> Seq<(Seq<u8>, V)> {
        Seq::new(self.items@.len(), |i: int| (self.items@[i].key@, self.items@[i].value))
    }

    /// The table is well formed when its keys strictly increase.
    pub open spec fn wf(&self) -> bool {
        strictly_sorted(self.entries())
    }

    /// An empty table.
    pub fn new() -> (table: Self)
        ensures
            table.wf(),
            table.entries() == Seq::<(Seq<u8>, V)>::empty(),
            table@ == Map::<Seq<u8>, V>::empty(),
    {
        let table = OrderedTable { items: Vec::new() };
        proof {
            assert(table.entries() =~= Seq::<(Seq<u8>, V)>::empty());
            assert(table@ =~= Map::<Seq<u8>, V>::empty());
        }
        table
    }

    /// The number of entries.
    pub fn len(&self) -> (n: usize)
        ensures
            n == self.entries().len(),
    {
        self.items.len()
    }

    /// The key at a position.
    pub fn key_at(&self, i: usize) -> (key: &Vec<u8>)
        requires
            i < self.entries().len(),
        ensures
            key@ == self.entries()[i as int].0,
    {
        &self.items[i].key
    }

    /// The value at a position.
    pub fn value_at(&self, i: usize) -> (value: &V)
        requires
            i < self.entries().len(),
        ensures
            *value == self.entries()[i as int].1,
    {
        &self.items[i].value
    }

    /// The first position whose key is not before `key`: every entry in front
    /// of it has a smaller key, every entry from it on has `key` or a larger one.
    pub fn lower_bound(&self, key: &Vec<u8>) -> (p: usize)
        requires
            self.wf(),
        ensures
            p <= self.entries().len(),
            forall|i: int| 0 <= i < p ==> lex_lt(#[trigger] self.entries()[i].0, key@),
            forall|i: int|
                p <= i < self.entries().len() ==> lex_le(key@, #[trigger] self.entries()[i].0),
    {
        let mut lo: usize = 0;
        let mut hi: usize = self.items.len();
        while lo < hi
            invariant
                self.wf(),
                lo <= hi <= self.entries().len(),
                self.entries().len() == self.items@.len(),
                forall|i: int| 0 <= i < lo ==> lex_lt(#[trigger] self.entries()[i].0, key@),
                forall|i: int|
                    hi <= i < self.entries().len() ==> lex_le(key@, #[trigger] self.entries()[i].0),
            decreases hi - lo,
        {
            let mid: usize = lo + (hi - lo) / 2;
            if bytes_lt(&self.items[mid].key, key) {
                proof {
                    assert(self.entries()[mid as int].0 == self.items@[mid as int].key@);
                    assert forall|i: int| 0 <= i < mid + 1 implies lex_lt(
                        #[trigger] self.entries()[i].0,
                        key@,
                    ) by {
                        if i < mid {
                            lemma_lex_transitive(
                                self.entries()[i].0,
                                self.entries()[mid as int].0,
                                key@,
                            );
                        }
                    }
                }
                lo = mid + 1;
            } else {
                proof {
                    assert(self.entries()[mid as int].0 == self.items@[mid as int].key@);
                    lemma_lex_total(self.entries()[mid as int].0, key@);
                    assert forall|i: int| mid <= i < self.entries().len() implies lex_le(
                        key@,
                        #[trigger] self.entries()[i].0,
                    ) by {
                        if mid < i {
                            lemma_lex_le_transitive(
                                key@,
                                self.entries()[mid as int].0,
                                self.entries()[i].0,
                            );
                        }
                    }
                }
                hi = mid;
            }
        }
        lo
    }

    /// Looks a key up.
    pub fn get(&self, key: &Vec<u8>) -> (found: Option<&V>)
        requires
            self.wf(),
        ensures
            match found {
                Some(value) => self@.contains_key(key@) && self@[key@] == *value,
                None => !self@.contains_key(key@),
            },
    {
        let p = self.lower_bound(key);
        if p < self.items.len() && bytes_eq(&self.items[p].key, key) {
            proof {
                assert(self.entries()[p as int].0 == key@);
                lemma_entry_lookup(self.entries(), p as int);
            }
            Some(&self.items[p].value)
        } else {
            proof {
                if has_key(self.entries(), key@) {
                    let i = position_of(self.entries(), key@);
                    lemma_lex_irreflexive(key@);
                    if i >= p {
                        assert(lex_le(key@, self.entries()[p as int].0));
                        if i > p {
                            lemma_lex_asymmetric(self.entries()[p as int].0, self.entries()[i].0);
                        }
                    }
                }
            }
            None
        }
    }

    /// Stores a value under a key, replacing what the key held before.
    pub fn put(&mut self, key: Vec<u8>, value: V)
        requires
            old(self).wf(),
        ensures
            final(self).wf(),
            final(self)@ == old(self)@.insert(key@, value),
    {
        let p = self.lower_bound(&key);
        let ghost before = self.entries();
        if p < self.items.len() && bytes_eq(&self.items[p].key, &key) {
            self.items.set(p, Entry { key, value });
            proof {
                lemma_update_entry(before, p as int, value);
                assert(self.entries() =~= before.update(p as int, (before[p as int].0, value)));
            }
        } else {
            proof {
                assert forall|i: int| p <= i < before.len() implies lex_lt(
                    key@,
                    #[trigger] before[i].0,
                ) by {
                    if i > p {
                        assert(lex_lt(before[p as int].0, before[i].0));
                        lemma_lex_le_transitive(key@, before[p as int].0, before[i].0);
                        if key@ == before[i].0 {
                            lemma_lex_asymmetric(before[p as int].0, before[i].0);
                        }
                    }
                }
                lemma_insert_entry(before, p as int, key@, value);
            }
            self.items.insert(p, Entry { key, value });
            proof {
                assert(self.entries() =~= before.insert(p as int, (key@, value)));
            }
        }
    }

    /// The positions of the entries whose keys lie between `start` and `end`,
    /// both included: they are the positions from `lo` up to, not including, `hi`.
    pub fn range(&self, start: &Vec<u8>, end: &Vec<u8>) -> (bounds: (usize, usize))
        requires
            self.wf(),
        ensures
            bounds.0 <= bounds.1 <= self.entries().len(),
            forall|i: int|
                0 <= i < self.entries().len() ==> ((bounds.0 <= i < bounds.1) <==> (lex_le(
                    start@,
                    #[trigger] self.entries()[i].0,
                ) && lex_le(self.entries()[i].0, end@))),
    {
        let lo = self.lower_bound(start);
        let mut hi: usize = lo;
        while hi < self.items.len() && bytes_le(&self.items[hi].key, end)
            invariant
                self.wf(),
                lo <= hi <= self.entries().len(),
                self.entries().len() == self.items@.len(),
                forall|i: int| lo <= i < hi ==> lex_le(#[trigger] self.entries()[i].0, end@),
            decreases self.entries().len() - hi,
        {
            assert(self.entries()[hi as int].0 == self.items@[hi as int].key@);
            hi += 1;
        }
        proof {
            assert forall|i: int| 0 <= i < self.entries().len() implies ((lo <= i < hi) <==> (lex_le(
                start@,
                #[trigger] self.entries()[i].0,
            ) && lex_le(self.entries()[i].0, end@))) by {
                let k = self.entries()[i].0;
                if i < lo {
                    lemma_lex_asymmetric(k, start@);
                } else if i >= hi {
                    let h = self.entries()[hi as int].0;
                    assert(h == self.items@[hi as int].key@);
                    if lex_le(k, end@) {
                        if i > hi {
                            assert(lex_lt(h, k));
                        }
                        lemma_lex_le_transitive(h, k, end@);
                    }
                }
            }
        }
        (lo, hi)
    }
}

} // verus!
