//! A table keyed by texts, kept in an ordered table under the stored form of
//! each text.

use crate::key::{
    held_text, holds_text, lemma_text_encoding_injective, lemma_text_round_trip, storable, text_encoding,
    text_key, text_of_key,
};
use crate::table::{has_key, lemma_entry_lookup, position_of, OrderedTable};
use vstd::prelude::*;

verus! {

/// Whether a key is the stored form of a text.
pub open spec fn is_text_key(key: Seq<u8>) -> bool {
    &&& holds_text(key)
    &&& storable(held_text(key))
    &&& text_encoding(held_text(key)) == key
}

/// The stored form of a text is a text key.
pub proof fn lemma_text_key(text: Seq<char>)
    requires
        storable(text),
    ensures
        is_text_key(text_encoding(text)),
        held_text(text_encoding(text)) == text,
{
    lemma_text_round_trip(text, Seq::empty());
    assert(text_encoding(text) + Seq::<u8>::empty() =~= text_encoding(text));
}

/// A table from texts to values.
pub struct TextTable<V> {
    inner: OrderedTable<V>,
}

impl<V> View for TextTable<V> {
    type V = Map<Seq<char>, V>;

    /// The table as a map from texts to values.
    closed spec fn view(&self) -> Map<Seq<char>, V> {
        Map::new(
            |t: Seq<char>| storable(t) && self.inner@.contains_key(text_encoding(t)),
            |t: Seq<char>| self.inner@[text_encoding(t)],
        )
    }
}

impl<V> TextTable<V> {
    /// The table is well formed when its ordered table is and every key in it
    /// is the stored form of a text.
    pub closed spec fn wf(&self) -> bool {
        &&& self.inner.wf()
        &&& forall|k: Seq<u8>| self.inner@.contains_key(k) ==> is_text_key(k)
    }

    /// The texts of the table, in storage order.
    pub closed spec fn texts(&self) -> Seq<Seq<char>> {
        Seq::new(self.inner.entries().len(), |i: int| held_text(self.inner.entries()[i].0))
    }

    /// The values of the table, in storage order.
    pub closed spec fn values(&self) -> Seq<V> {
        Seq::new(self.inner.entries().len(), |i: int| self.inner.entries()[i].1)
    }

    /// The listing by position shows the whole table, each text once.
    pub proof fn lemma_listing(&self)
        requires
            self.wf(),
        ensures
            self.texts().len() == self.values().len(),
            forall|i: int|
                0 <= i < self.texts().len() ==> self@.contains_key(#[trigger] self.texts()[i])
                    && self@[self.texts()[i]] == self.values()[i],
            forall|i: int, j: int|
                0 <= i < j < self.texts().len() ==> #[trigger] self.texts()[i]
                    != #[trigger] self.texts()[j],
            forall|t: Seq<char>|
                self@.contains_key(t) ==> exists|i: int|
                    0 <= i < self.texts().len() && #[trigger] self.texts()[i] == t,
    {
        let e = self.inner.entries();
        assert forall|i: int| 0 <= i < self.texts().len() implies self@.contains_key(
            #[trigger] self.texts()[i],
        ) && self@[self.texts()[i]] == self.values()[i] by {
            lemma_entry_lookup(e, i);
            assert(self.inner@.contains_key(e[i].0));
            assert(is_text_key(e[i].0));
        }
        assert forall|i: int, j: int| 0 <= i < j < self.texts().len() implies #[trigger] self.texts()[i]
            != #[trigger] self.texts()[j] by {
            lemma_entry_lookup(e, i);
            lemma_entry_lookup(e, j);
            assert(self.inner@.contains_key(e[i].0));
            assert(self.inner@.contains_key(e[j].0));
            assert(is_text_key(e[i].0) && is_text_key(e[j].0));
        }
        assert forall|t: Seq<char>| self@.contains_key(t) implies exists|i: int|
            0 <= i < self.texts().len() && #[trigger] self.texts()[i] == t by {
            let k = text_encoding(t);
            assert(has_key(e, k));
            let i = position_of(e, k);
            lemma_text_key(t);
            assert(self.texts()[i] == t);
        }
    }

    /// An empty table.
    pub fn new() -> (table: Self)
        ensures
            table.wf(),
            table@ == Map::<Seq<char>, V>::empty(),
    {
        let table = TextTable { inner: OrderedTable::new() };
        proof {
            assert(table@ =~= Map::<Seq<char>, V>::empty());
        }
        table
    }

    /// The number of entries.
    pub fn len(&self) -> (n: usize)
        ensures
            n == self.texts().len(),
            n == self.values().len(),
    {
        self.inner.len()
    }

    /// The text at a position of the listing.
    pub fn text_at(&self, i: usize) -> (text: String)
        requires
            self.wf(),
            i < self.texts().len(),
        ensures
            text@ == self.texts()[i as int],
    {
        proof {
            lemma_entry_lookup(self.inner.entries(), i as int);
            assert(self.inner@.contains_key(self.inner.entries()[i as int].0));
            assert(is_text_key(self.inner.entries()[i as int].0));
        }
        match text_of_key(self.inner.key_at(i)) {
            Some(text) => text,
            None => String::new(),
        }
    }

    /// The value at a position of the listing.
    pub fn value_at(&self, i: usize) -> (value: &V)
        requires
            i < self.values().len(),
        ensures
            *value == self.values()[i as int],
    {
        self.inner.value_at(i)
    }

    /// Looks a text up.
    pub fn get(&self, text: &String) -> (found: Option<&V>)
        requires
            self.wf(),
        ensures
            match found {
                Some(value) => self@.contains_key(text@) && self@[text@] == *value,
                None => !self@.contains_key(text@),
            },
    {
        let key = text_key(text);
        self.inner.get(&key)
    }

    /// Stores a value under a text, replacing what the text held before.
    pub fn put(&mut self, text: &String, value: V)
        requires
            old(self).wf(),
        ensures
            final(self).wf(),
            final(self)@ == old(self)@.insert(text@, value),
    {
        let key = text_key(text);
        self.inner.put(key, value);
        proof {
            lemma_text_key(text@);
            assert forall|t: Seq<char>| #[trigger]
                self@.contains_key(t) <==> old(self)@.insert(text@, value).contains_key(t) by {
                if storable(t) && text_encoding(t) == text_encoding(text@) {
                    lemma_text_encoding_injective(t, Seq::empty(), text@, Seq::empty());
                }
            }
            assert forall|t: Seq<char>| self@.contains_key(t) implies #[trigger] self@[t] == old(
                self,
            )@.insert(text@, value)[t] by {
                if text_encoding(t) == text_encoding(text@) {
                    lemma_text_encoding_injective(t, Seq::empty(), text@, Seq::empty());
                }
            }
            assert(self@ =~= old(self)@.insert(text@, value));
        }
    }
}

} // verus!
