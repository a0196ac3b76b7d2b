//! The three small stores of the frontier: per-domain state, redirects, and
//! the per-domain key ranges of a shard.

use crate::model::{Domain, DomainState, RangeRecord, UrlString};
use crate::text_table::TextTable;
use vstd::prelude::*;

verus! {

/// Copies a byte string.
pub fn copy_bytes(bytes: &Vec<u8>) -> (copy: Vec<u8>)
    ensures
        copy@ == bytes@,
{
    let mut copy: Vec<u8> = Vec::with_capacity(bytes.len());
    let mut i: usize = 0;
    while i < bytes.len()
        invariant
            i <= bytes@.len(),
            copy@ == bytes@.take(i as int),
        decreases bytes@.len() - i,
    {
        copy.push(bytes[i]);
        assert(bytes@.take(i as int).push(bytes@[i as int]) =~= bytes@.take(i as int + 1));
        i += 1;
    }
    assert(bytes@.take(bytes@.len() as int) =~= bytes@);
    copy
}

/// The store of domain states: domain to state.
pub struct DomainStateDb {
    table: TextTable<DomainState>,
}

impl View for DomainStateDb {
    type V = Map<Seq<char>, DomainState>;

    /// The store as a map from domains to their states.
    closed spec fn view(&self) -> Map<Seq<char>, DomainState> {
        self.table@
    }
}

impl DomainStateDb {
    /// The store is well formed.
    pub closed spec fn wf(&self) -> bool {
        self.table.wf()
    }

    /// An empty store.
    pub fn new() -> (db: Self)
        ensures
            db.wf(),
            db@ == Map::<Seq<char>, DomainState>::empty(),
    {
        DomainStateDb { table: TextTable::new() }
    }

    /// The state of a domain, if the store holds one.
    pub fn get(&self, domain: &Domain) -> (state: Option<DomainState>)
        requires
            self.wf(),
        ensures
            state == (if self@.contains_key(domain@) {
                Some(self@[domain@])
            } else {
                None
            }),
    {
        match self.table.get(domain) {
            Some(state) => Some(*state),
            None => None,
        }
    }

    /// Stores the state of a domain.
    pub fn put(&mut self, domain: &Domain, state: &DomainState)
        requires
            old(self).wf(),
        ensures
            final(self).wf(),
            final(self)@ == old(self)@.insert(domain@, *state),
    {
        self.table.put(domain, *state);
    }

    /// The domains of the store, in storage order.
    pub closed spec fn domains(&self) -> Seq<Seq<char>> {
        self.table.texts()
    }

    /// The states of the domains of the store, in storage order.
    pub closed spec fn states(&self) -> Seq<DomainState> {
        self.table.values()
    }

    /// The domains of the store with their states, in storage order.
    pub open spec fn listing(&self) -> Seq<(Seq<char>, DomainState)> {
        Seq::new(self.domains().len(), |i: int| (self.domains()[i], self.states()[i]))
    }

    /// The listing by position shows the whole store, each domain once.
    pub proof fn lemma_listing(&self)
        requires
            self.wf(),
        ensures
            self.domains().len() == self.states().len(),
            forall|i: int|
                0 <= i < self.domains().len() ==> self@.contains_key(#[trigger] self.domains()[i])
                    && self@[self.domains()[i]] == self.states()[i],
            forall|i: int, j: int|
                0 <= i < j < self.domains().len() ==> #[trigger] self.domains()[i]
                    != #[trigger] self.domains()[j],
            forall|d: Seq<char>|
                self@.contains_key(d) ==> exists|i: int|
                    0 <= i < self.domains().len() && #[trigger] self.domains()[i] == d,
    {
        self.table.lemma_listing();
    }

    /// The number of domains in the store.
    pub fn len(&self) -> (n: usize)
        ensures
            n == self.domains().len(),
            n == self.states().len(),
    {
        self.table.len()
    }

    /// The domain at a position of the listing.
    pub fn domain_at(&self, i: usize) -> (domain: Domain)
        requires
            self.wf(),
            i < self.domains().len(),
        ensures
            domain@ == self.domains()[i as int],
    {
        self.table.text_at(i)
    }

    /// The state at a position of the listing.
    pub fn state_at(&self, i: usize) -> (state: DomainState)
        requires
            i < self.states().len(),
        ensures
            state == self.states()[i as int],
    {
        *self.table.value_at(i)
    }

    /// All domains with their states, each domain once, in storage order.
    pub fn iter(&self) -> (all: Vec<(Domain, DomainState)>)
        requires
            self.wf(),
        ensures
            lists_map(all@, self@),
    {
        let mut all: Vec<(Domain, DomainState)> = Vec::new();
        let n = self.table.len();
        proof {
            self.table.lemma_listing();
        }
        let mut i: usize = 0;
        while i < n
            invariant
                self.wf(),
                n == self.table.texts().len(),
                n == self.table.values().len(),
                i <= n,
                all@.len() == i,
                forall|j: int|
                    0 <= j < i ==> (#[trigger] all@[j]).0@ == self.table.texts()[j] && all@[j].1
                        == self.table.values()[j],
            decreases n - i,
        {
            let domain = self.table.text_at(i);
            let state = *self.table.value_at(i);
            all.push((domain, state));
            i += 1;
        }
        proof {
            assert forall|d: Seq<char>| self@.contains_key(d) implies exists|j: int|
                0 <= j < all@.len() && (#[trigger] all@[j]).0@ == d by {
                let j = choose|j: int|
                    0 <= j < self.table.texts().len() && #[trigger] self.table.texts()[j] == d;
                assert(all@[j].0@ == d);
            }
        }
        all
    }
}

/// A listing shows a map: each entry of the listing is an entry of the map,
/// no domain is listed twice, and every domain of the map is listed.
pub open spec fn lists_map<S>(all: Seq<(String, S)>, map: Map<Seq<char>, S>) -> bool {
    &&& forall|j: int|
        0 <= j < all.len() ==> map.contains_key((#[trigger] all[j]).0@) && map[all[j].0@] == all[j].1
    &&& forall|i: int, j: int|
        0 <= i < j < all.len() ==> (#[trigger] all[i]).0@ != (#[trigger] all[j]).0@
    &&& forall|d: Seq<char>|
        map.contains_key(d) ==> exists|j: int| 0 <= j < all.len() && (#[trigger] all[j]).0@ == d
}

/// The store of redirects: source URL to the URL it redirects to.
pub struct RedirectDb {
    table: TextTable<UrlString>,
}

impl View for RedirectDb {
    type V = Map<Seq<char>, Seq<char>>;

    /// The store as a map from source URLs to target URLs.
    closed spec fn view(&self) -> Map<Seq<char>, Seq<char>> {
        Map::new(|u: Seq<char>| self.table@.contains_key(u), |u: Seq<char>| self.table@[u]@)
    }
}

impl RedirectDb {
    /// The store is well formed.
    pub closed spec fn wf(&self) -> bool {
        self.table.wf()
    }

    /// An empty store.
    pub fn new() -> (db: Self)
        ensures
            db.wf(),
            db@ == Map::<Seq<char>, Seq<char>>::empty(),
    {
        let db = RedirectDb { table: TextTable::new() };
        assert(db@ =~= Map::<Seq<char>, Seq<char>>::empty());
        db
    }

    /// Records that `from` redirects to `to`.
    pub fn put(&mut self, from: &UrlString, to: &UrlString)
        requires
            old(self).wf(),
        ensures
            final(self).wf(),
            final(self)@ == old(self)@.insert(from@, to@),
    {
        self.table.put(from, to.clone());
        assert(self@ =~= old(self)@.insert(from@, to@));
    }

    /// Where `from` redirects to, if a redirect is recorded for it.
    pub fn get(&self, from: &UrlString) -> (to: Option<UrlString>)
        requires
            self.wf(),
        ensures
            match to {
                Some(url) => self@.contains_key(from@) && self@[from@] == url@,
                None => !self@.contains_key(from@),
            },
    {
        match self.table.get(from) {
            Some(url) => Some(url.clone()),
            None => None,
        }
    }
}

/// The range index of a shard: domain to the bounds of its keys.
pub struct RangesDb {
    table: TextTable<RangeRecord>,
}

impl View for RangesDb {
    type V = Map<Seq<char>, (Seq<u8>, Seq<u8>)>;

    /// The index as a map from domains to the first and the last key.
    closed spec fn view(&self) -> Map<Seq<char>, (Seq<u8>, Seq<u8>)> {
        Map::new(
            |d: Seq<char>| self.table@.contains_key(d),
            |d: Seq<char>| (self.table@[d].start@, self.table@[d].end@),
        )
    }
}

impl RangesDb {
    /// The index is well formed.
    pub closed spec fn wf(&self) -> bool {
        self.table.wf()
    }

    /// An empty index.
    pub fn new() -> (db: Self)
        ensures
            db.wf(),
            db@ == Map::<Seq<char>, (Seq<u8>, Seq<u8>)>::empty(),
    {
        let db = RangesDb { table: TextTable::new() };
        assert(db@ =~= Map::<Seq<char>, (Seq<u8>, Seq<u8>)>::empty());
        db
    }

    /// The bounds recorded for a domain, if any.
    pub fn get(&self, domain: &Domain) -> (range: Option<RangeRecord>)
        requires
            self.wf(),
        ensures
            match range {
                Some(r) => self@.contains_key(domain@) && self@[domain@] == (r.start@, r.end@),
                None => !self@.contains_key(domain@),
            },
    {
        match self.table.get(domain) {
            Some(r) => Some(RangeRecord { start: copy_bytes(&r.start), end: copy_bytes(&r.end) }),
            None => None,
        }
    }

    /// Records the bounds of a domain.
    pub fn put(&mut self, domain: &Domain, range: &RangeRecord)
        requires
            old(self).wf(),
        ensures
            final(self).wf(),
            final(self)@ == old(self)@.insert(domain@, (range.start@, range.end@)),
    {
        let record = RangeRecord { start: copy_bytes(&range.start), end: copy_bytes(&range.end) };
        self.table.put(domain, record);
        assert(self@ =~= old(self)@.insert(domain@, (range.start@, range.end@)));
    }
}

} // verus!
