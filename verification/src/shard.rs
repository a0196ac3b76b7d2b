//! One shard of the URL-state store: an ordered table from composite keys to
//! URL states, with a range index that bounds the keys of each domain.

use crate::bytes::{
    bytes_lt, is_prefix, lemma_between_keeps_prefix, lemma_lex_le_transitive, lemma_lex_total, lex_le,
    lex_lt,
};
use crate::key::{
    composite_key, domain_prefix, held_text, holds_text, key_of_url, lemma_composite_key_injective,
    lemma_composite_key_parts, lemma_prefix_tells_domain, prefix_of_domain, storable, url_of_key,
};
use crate::model::{lookup, Domain, RangeRecord, UrlState, UrlStatus, UrlString};
use crate::stores::{copy_bytes, RangesDb};
use crate::table::{has_key, lemma_entry_lookup, position_of, OrderedTable};
use vstd::prelude::*;

verus! {

/// A URL of a domain, as a pair of texts.
pub type UrlId = (Seq<char>, Seq<char>);

/// Whether a key is the composite key of some URL of some domain.
pub open spec fn is_url_key(key: Seq<u8>) -> bool {
    exists|d: Seq<char>, u: Seq<char>|
        storable(d) && storable(u) && #[trigger] composite_key(d, u) == key
}

/// The URL states that a table of composite keys holds.
pub open spec fn url_map(table: Map<Seq<u8>, UrlState>) -> Map<UrlId, UrlState> {
    Map::new(
        |id: UrlId| storable(id.0) && storable(id.1) && table.contains_key(composite_key(id.0, id.1)),
        |id: UrlId| table[composite_key(id.0, id.1)],
    )
}

/// The texts of a batch of URL states.
pub open spec fn batch_view(batch: Seq<(UrlString, UrlState)>) -> Seq<(Seq<char>, UrlState)> {
    Seq::new(batch.len(), |i: int| (batch[i].0@, batch[i].1))
}

/// The URL states after the first `n` writes of a batch for a domain: each
/// write sets the state of its URL, a later write winning over an earlier one.
pub open spec fn apply_batch(
    states: Map<UrlId, UrlState>,
    domain: Seq<char>,
    batch: Seq<(Seq<char>, UrlState)>,
    n: int,
) -> Map<UrlId, UrlState>
    decreases n,
{
    if n <= 0 {
        states
    } else {
        apply_batch(states, domain, batch, n - 1).insert((domain, batch[n - 1].0), batch[n - 1].1)
    }
}

/// The number of bytes that a stored URL state takes.
pub open spec fn state_len(state: UrlState) -> nat {
    match state.status {
        UrlStatus::Failed { status_code: Some(_) } => 15,
        UrlStatus::Failed { status_code: None } => 13,
        _ => 12,
    }
}

/// The number of bytes that the first `n` writes of a batch add to a shard.
pub open spec fn batch_bytes(domain: Seq<char>, batch: Seq<(Seq<char>, UrlState)>, n: int) -> nat
    decreases n,
{
    if n <= 0 {
        0
    } else {
        batch_bytes(domain, batch, n - 1) + composite_key(domain, batch[n - 1].0).len() + state_len(
            batch[n - 1].1,
        )
    }
}

/// A size counter after `added` more bytes; it stops at the largest number.
pub open spec fn grown_size(size: u64, added: nat) -> u64 {
    if size + added > u64::MAX {
        u64::MAX
    } else {
        (size + added) as u64
    }
}

/// Writing one more key to a table of composite keys sets the state of its URL.
pub proof fn lemma_url_map_insert(
    table: Map<Seq<u8>, UrlState>,
    domain: Seq<char>,
    url: Seq<char>,
    state: UrlState,
)
    requires
        storable(domain),
        storable(url),
    ensures
        url_map(table.insert(composite_key(domain, url), state)) == url_map(table).insert(
            (domain, url),
            state,
        ),
{
    let key = composite_key(domain, url);
    let a = url_map(table.insert(key, state));
    let b = url_map(table).insert((domain, url), state);
    assert forall|id: UrlId| a.contains_key(id) <==> b.contains_key(id) by {
        if storable(id.0) && storable(id.1) && composite_key(id.0, id.1) == key {
            lemma_composite_key_injective(id.0, id.1, domain, url);
        }
    }
    assert forall|id: UrlId| a.contains_key(id) implies a[id] == b[id] by {
        if composite_key(id.0, id.1) == key {
            lemma_composite_key_injective(id.0, id.1, domain, url);
        }
    }
    assert(a =~= b);
}

/// The bounds of a domain enclose every key of the domain in the table.
pub open spec fn encloses(
    table: Map<Seq<u8>, UrlState>,
    domain: Seq<char>,
    start: Seq<u8>,
    end: Seq<u8>,
) -> bool {
    forall|u: Seq<char>|
        storable(u) && table.contains_key(#[trigger] composite_key(domain, u)) ==> lex_le(
            start,
            composite_key(domain, u),
        ) && lex_le(composite_key(domain, u), end)
}

/// The bounds are keys of the domain themselves.
pub open spec fn bounds_of_domain(domain: Seq<char>, start: Seq<u8>, end: Seq<u8>) -> bool {
    is_prefix(domain_prefix(domain), start) && is_prefix(domain_prefix(domain), end)
}

/// The table holds no key of the domain.
pub open spec fn holds_none_of(table: Map<Seq<u8>, UrlState>, domain: Seq<char>) -> bool {
    forall|u: Seq<char>| storable(u) ==> !table.contains_key(#[trigger] composite_key(domain, u))
}

/// What links a table of composite keys to its range index: every key is a
/// composite key; a domain with a key has bounds; and the bounds of a domain
/// are keys of that domain which enclose all its keys.
pub open spec fn indexed(
    table: Map<Seq<u8>, UrlState>,
    ranges: Map<Seq<char>, (Seq<u8>, Seq<u8>)>,
) -> bool {
    &&& forall|k: Seq<u8>| #[trigger] table.contains_key(k) ==> is_url_key(k)
    &&& forall|d: Seq<char>|
        storable(d) && !#[trigger] ranges.contains_key(d) ==> holds_none_of(table, d)
    &&& forall|d: Seq<char>| #[trigger]
        ranges.contains_key(d) ==> storable(d) && bounds_of_domain(d, ranges[d].0, ranges[d].1)
            && encloses(table, d, ranges[d].0, ranges[d].1)
}

/// The index holds for every domain but one, whose bounds are being rewritten.
pub open spec fn indexed_beside(
    table: Map<Seq<u8>, UrlState>,
    ranges: Map<Seq<char>, (Seq<u8>, Seq<u8>)>,
    domain: Seq<char>,
) -> bool {
    &&& forall|k: Seq<u8>| #[trigger] table.contains_key(k) ==> is_url_key(k)
    &&& forall|d: Seq<char>|
        storable(d) && d != domain && !#[trigger] ranges.contains_key(d) ==> holds_none_of(table, d)
    &&& forall|d: Seq<char>| #[trigger]
        ranges.contains_key(d) ==> storable(d) && bounds_of_domain(d, ranges[d].0, ranges[d].1) && (d
            != domain ==> encloses(table, d, ranges[d].0, ranges[d].1))
}

/// The bounds in hand for a domain fit the table: without bounds the table
/// holds no key of the domain.
pub open spec fn bounded(
    table: Map<Seq<u8>, UrlState>,
    domain: Seq<char>,
    have: bool,
    start: Seq<u8>,
    end: Seq<u8>,
) -> bool {
    if have {
        bounds_of_domain(domain, start, end) && encloses(table, domain, start, end)
    } else {
        holds_none_of(table, domain)
    }
}

/// Writing a key of a domain, and widening the domain's bounds to hold it,
/// keeps the index of the other domains and fits the new bounds.
proof fn lemma_write_widens(
    table: Map<Seq<u8>, UrlState>,
    ranges: Map<Seq<char>, (Seq<u8>, Seq<u8>)>,
    domain: Seq<char>,
    url: Seq<char>,
    state: UrlState,
    have: bool,
    start: Seq<u8>,
    end: Seq<u8>,
    new_start: Seq<u8>,
    new_end: Seq<u8>,
)
    requires
        indexed_beside(table, ranges, domain),
        bounded(table, domain, have, start, end),
        storable(domain),
        storable(url),
        new_start == (if !have || lex_lt(composite_key(domain, url), start) {
            composite_key(domain, url)
        } else {
            start
        }),
        new_end == (if !have || lex_lt(end, composite_key(domain, url)) {
            composite_key(domain, url)
        } else {
            end
        }),
    ensures
        indexed_beside(table.insert(composite_key(domain, url), state), ranges, domain),
        bounded(table.insert(composite_key(domain, url), state), domain, true, new_start, new_end),
{
    let key = composite_key(domain, url);
    let grown = table.insert(key, state);
    lemma_composite_key_parts(domain, url);
    assert forall|d: Seq<char>|
        storable(d) && d != domain && !#[trigger] ranges.contains_key(d) implies holds_none_of(
        grown,
        d,
    ) by {
        assert forall|u: Seq<char>| storable(u) implies !grown.contains_key(
            #[trigger] composite_key(d, u),
        ) by {
            if composite_key(d, u) == key {
                lemma_composite_key_injective(d, u, domain, url);
            }
        }
    }
    assert forall|d: Seq<char>| #[trigger] ranges.contains_key(d) implies storable(d)
        && bounds_of_domain(d, ranges[d].0, ranges[d].1) && (d != domain ==> encloses(
        grown,
        d,
        ranges[d].0,
        ranges[d].1,
    )) by {
        if d != domain {
            assert forall|u: Seq<char>|
                storable(u) && grown.contains_key(#[trigger] composite_key(d, u)) implies lex_le(
                ranges[d].0,
                composite_key(d, u),
            ) && lex_le(composite_key(d, u), ranges[d].1) by {
                if composite_key(d, u) == key {
                    lemma_composite_key_injective(d, u, domain, url);
                }
            }
        }
    }
    assert forall|k: Seq<u8>| #[trigger] grown.contains_key(k) implies is_url_key(k) by {
        if k == key {
            assert(composite_key(domain, url) == k);
        }
    }
    assert forall|u: Seq<char>|
        storable(u) && grown.contains_key(#[trigger] composite_key(domain, u)) implies lex_le(
        new_start,
        composite_key(domain, u),
    ) && lex_le(composite_key(domain, u), new_end) by {
        let k = composite_key(domain, u);
        lemma_lex_total(key, start);
        lemma_lex_total(end, key);
        if k == key {
        } else {
            assert(table.contains_key(k));
            if have {
                lemma_lex_le_transitive(new_start, start, k);
                lemma_lex_le_transitive(k, end, new_end);
            }
        }
    }
}

/// Once the bounds in hand are recorded, the index holds for every domain.
proof fn lemma_record_bounds(
    table: Map<Seq<u8>, UrlState>,
    ranges: Map<Seq<char>, (Seq<u8>, Seq<u8>)>,
    domain: Seq<char>,
    start: Seq<u8>,
    end: Seq<u8>,
)
    requires
        indexed_beside(table, ranges, domain),
        bounded(table, domain, true, start, end),
        storable(domain),
    ensures
        indexed(table, ranges.insert(domain, (start, end))),
{
    let r = ranges.insert(domain, (start, end));
    assert forall|d: Seq<char>| storable(d) && !#[trigger] r.contains_key(d) implies holds_none_of(
        table,
        d,
    ) by {
        assert(!ranges.contains_key(d));
    }
    assert forall|d: Seq<char>| #[trigger] r.contains_key(d) implies storable(d) && bounds_of_domain(
        d,
        r[d].0,
        r[d].1,
    ) && encloses(table, d, r[d].0, r[d].1) by {
        if d != domain {
            assert(ranges.contains_key(d));
        }
    }
}

/// A key between the bounds of a domain is the key of a URL of that domain.
proof fn lemma_key_in_bounds(key: Seq<u8>, domain: Seq<char>, start: Seq<u8>, end: Seq<u8>) -> (url: Seq<
    char,
>)
    requires
        is_url_key(key),
        storable(domain),
        bounds_of_domain(domain, start, end),
        lex_le(start, key),
        lex_le(key, end),
    ensures
        storable(url),
        key == composite_key(domain, url),
        domain_prefix(domain).len() <= key.len(),
        holds_text(key.subrange(domain_prefix(domain).len() as int, key.len() as int)),
        held_text(key.subrange(domain_prefix(domain).len() as int, key.len() as int)) == url,
{
    let (d, u) = choose|d: Seq<char>, u: Seq<char>|
        storable(d) && storable(u) && #[trigger] composite_key(d, u) == key;
    lemma_between_keeps_prefix(domain_prefix(domain), start, key, end);
    lemma_composite_key_parts(d, u);
    lemma_prefix_tells_domain(d, domain, key);
    u
}

/// A range index after a write for a domain: the bounds of the domain, if
/// it had any, have not shrunk, and the bounds of every other domain are as
/// they were.
pub open spec fn widened(
    before: Map<Seq<char>, (Seq<u8>, Seq<u8>)>,
    after: Map<Seq<char>, (Seq<u8>, Seq<u8>)>,
    domain: Seq<char>,
) -> bool {
    &&& forall|d: Seq<char>|
        d != domain ==> (#[trigger] after.contains_key(d) <==> before.contains_key(d)) && (
        before.contains_key(d) ==> after[d] == before[d])
    &&& before.contains_key(domain) ==> after.contains_key(domain) && lex_le(
        after[domain].0,
        before[domain].0,
    ) && lex_le(before[domain].1, after[domain].1)
}

/// The bounds of a domain after the first `n` writes of a batch: the bounds
/// it had, if any, widened key by key, so that the start is the smallest and
/// the end the largest of the old bounds and the keys written.
pub open spec fn widened_by(
    found: Option<(Seq<u8>, Seq<u8>)>,
    domain: Seq<char>,
    batch: Seq<(Seq<char>, UrlState)>,
    n: int,
) -> Option<(Seq<u8>, Seq<u8>)>
    decreases n,
{
    if n <= 0 {
        found
    } else {
        let key = composite_key(domain, batch[n - 1].0);
        match widened_by(found, domain, batch, n - 1) {
            None => Some((key, key)),
            Some(range) => Some(
                (
                    if lex_lt(key, range.0) {
                        key
                    } else {
                        range.0
                    },
                    if lex_lt(range.1, key) {
                        key
                    } else {
                        range.1
                    },
                ),
            ),
        }
    }
}

/// The range index after a batch for a domain: the domain has the bounds
/// that the batch widened, if it has any, and every other domain is as it
/// was.
pub open spec fn bounds_after(
    bounds: Map<Seq<char>, (Seq<u8>, Seq<u8>)>,
    domain: Seq<char>,
    batch: Seq<(Seq<char>, UrlState)>,
) -> Map<Seq<char>, (Seq<u8>, Seq<u8>)> {
    match widened_by(lookup(bounds, domain), domain, batch, batch.len() as int) {
        Some(range) => bounds.insert(domain, range),
        None => bounds,
    }
}

/// One shard of the URL-state store.
pub struct UrlStateDbShard {
    db: OrderedTable<UrlState>,
    ranges: RangesDb,
    approx_size_bytes: u64,
}

impl View for UrlStateDbShard {
    type V = Map<UrlId, UrlState>;

    /// The shard as a map from URLs, each with its domain, to states.
    closed spec fn view(&self) -> Map<UrlId, UrlState> {
        url_map(self.db@)
    }
}

impl UrlStateDbShard {
    /// The shard is well formed: its table is in order, and its range index
    /// encloses the keys of each domain.
    pub closed spec fn wf(&self) -> bool {
        &&& self.db.wf()
        &&& self.ranges.wf()
        &&& indexed(self.db@, self.ranges@)
    }

    /// The range index: for each domain written here, its first and last bound.
    pub closed spec fn bounds(&self) -> Map<Seq<char>, (Seq<u8>, Seq<u8>)> {
        self.ranges@
    }

    /// The approximate size of the shard in bytes.
    pub closed spec fn size(&self) -> u64 {
        self.approx_size_bytes
    }

    /// An empty shard.
    pub fn new() -> (shard: Self)
        ensures
            shard.wf(),
            shard@ == Map::<UrlId, UrlState>::empty(),
            shard.bounds() == Map::<Seq<char>, (Seq<u8>, Seq<u8>)>::empty(),
            shard.size() == 0,
    {
        let shard = UrlStateDbShard {
            db: OrderedTable::new(),
            ranges: RangesDb::new(),
            approx_size_bytes: 0,
        };
        assert(shard@ =~= Map::<UrlId, UrlState>::empty());
        shard
    }

    /// The state of a URL of a domain, if the shard holds one.
    pub fn get(&self, domain: &Domain, url: &UrlString) -> (state: Option<UrlState>)
        requires
            self.wf(),
        ensures
            state == (if self@.contains_key((domain@, url@)) {
                Some(self@[(domain@, url@)])
            } else {
                None
            }),
    {
        let key = key_of_url(domain, url);
        match self.db.get(&key) {
            Some(state) => Some(*state),
            None => None,
        }
    }

    /// Writes a batch of URL states for one domain, in order, and widens the
    /// domain's bounds in the range index so that they hold every key written.
    pub fn put_batch(&mut self, domain: &Domain, urls: &Vec<(UrlString, UrlState)>)
        requires
            old(self).wf(),
        ensures
            final(self).wf(),
            final(self)@ == apply_batch(old(self)@, domain@, batch_view(urls@), urls@.len() as int),
            final(self).size() == grown_size(
                old(self).size(),
                batch_bytes(domain@, batch_view(urls@), urls@.len() as int),
            ),
            final(self).bounds() == bounds_after(old(self).bounds(), domain@, batch_view(urls@)),
            widened(old(self).bounds(), final(self).bounds(), domain@),
            urls@.len() > 0 ==> final(self).bounds().contains_key(domain@),
    {
        let ghost batch = batch_view(urls@);
        let ghost old_bounds = self.ranges@;
        let mut have: bool = false;
        let mut start: Vec<u8> = Vec::new();
        let mut end: Vec<u8> = Vec::new();
        match self.ranges.get(domain) {
            Some(range) => {
                have = true;
                start = range.start;
                end = range.end;
            },
            None => {},
        }
        let prefix = prefix_of_domain(domain);
        let mut i: usize = 0;
        while i < urls.len()
            invariant
                i <= urls@.len(),
                batch == batch_view(urls@),
                storable(domain@),
                self.db.wf(),
                self.ranges.wf(),
                self.ranges@ == old(self).ranges@,
                old_bounds == old(self).ranges@,
                self.ranges@.contains_key(domain@) ==> have,
                i > 0 ==> have,
                widened_by(lookup(old_bounds, domain@), domain@, batch, i as int) == (if have {
                    Some((start@, end@))
                } else {
                    None
                }),
                old_bounds.contains_key(domain@) ==> lex_le(start@, old_bounds[domain@].0) && lex_le(
                    old_bounds[domain@].1,
                    end@,
                ),
                indexed_beside(self.db@, self.ranges@, domain@),
                bounded(self.db@, domain@, have, start@, end@),
                url_map(self.db@) == apply_batch(old(self)@, domain@, batch, i as int),
                self.approx_size_bytes == grown_size(
                    old(self).approx_size_bytes,
                    batch_bytes(domain@, batch, i as int),
                ),
            decreases urls@.len() - i,
        {
            let key = key_of_url(domain, &urls[i].0);
            let state = urls[i].1;
            let ghost url = urls@[i as int].0@;
            let ghost old_start = start@;
            let ghost old_end = end@;
            let ghost old_have = have;
            assert(batch[i as int] == (url, state));
            proof {
                if old_bounds.contains_key(domain@) {
                    if lex_lt(key@, start@) {
                        lemma_lex_le_transitive(key@, start@, old_bounds[domain@].0);
                    }
                    if lex_lt(end@, key@) {
                        lemma_lex_le_transitive(old_bounds[domain@].1, end@, key@);
                    }
                }
            }
            if !have || bytes_lt(&key, &start) {
                start = copy_bytes(&key);
            }
            if !have || bytes_lt(&end, &key) {
                end = copy_bytes(&key);
            }
            have = true;
            proof {
                lemma_write_widens(
                    self.db@,
                    self.ranges@,
                    domain@,
                    url,
                    state,
                    old_have,
                    old_start,
                    old_end,
                    start@,
                    end@,
                );
                lemma_url_map_insert(self.db@, domain@, url, state);
            }
            let written = grow_size(key.len() as u64, stored_len(&state));
            self.approx_size_bytes = grow_size(self.approx_size_bytes, written);
            self.db.put(key, state);
            i += 1;
        }
        if have {
            proof {
                lemma_record_bounds(self.db@, self.ranges@, domain@, start@, end@);
            }
            self.ranges.put(domain, &RangeRecord { start, end });
        } else {
            proof {
                assert(indexed(self.db@, self.ranges@));
            }
        }
    }

    /// Every URL of a domain that the shard holds, with its state, in key
    /// order. The scan runs between the domain's bounds in the range index;
    /// a domain without bounds was never written here and has no URLs.
    pub fn get_all_urls(&self, domain: &Domain) -> (all: Vec<(UrlString, UrlState)>)
        requires
            self.wf(),
        ensures
            lists_urls(all@, self@, domain@),
            forall|i: int, j: int|
                0 <= i < j < all@.len() ==> lex_lt(
                    composite_key(domain@, (#[trigger] all@[i]).0@),
                    composite_key(domain@, (#[trigger] all@[j]).0@),
                ),
    {
        let mut all: Vec<(UrlString, UrlState)> = Vec::new();
        let prefix = prefix_of_domain(domain);
        match self.ranges.get(domain) {
            None => {
                proof {
                    assert(holds_none_of(self.db@, domain@));
                }
                all
            },
            Some(range) => {
                let (lo, hi) = self.db.range(&range.start, &range.end);
                let ghost e = self.db.entries();
                let mut i: usize = lo;
                while i < hi
                    invariant
                        self.wf(),
                        e == self.db.entries(),
                        lo <= i <= hi <= e.len(),
                        storable(domain@),
                        prefix@ == domain_prefix(domain@),
                        self.ranges@.contains_key(domain@),
                        self.ranges@[domain@] == (range.start@, range.end@),
                        forall|j: int|
                            0 <= j < e.len() ==> ((lo <= j < hi) <==> (lex_le(
                                range.start@,
                                #[trigger] e[j].0,
                            ) && lex_le(e[j].0, range.end@))),
                        all@.len() == i - lo,
                        forall|j: int|
                            0 <= j < all@.len() ==> e[lo + j].0 == composite_key(
                                domain@,
                                (#[trigger] all@[j]).0@,
                            ) && storable(all@[j].0@) && all@[j].1 == e[lo + j].1,
                    decreases hi - i,
                {
                    let key = self.db.key_at(i);
                    proof {
                        lemma_entry_lookup(e, i as int);
                        let u = lemma_key_in_bounds(key@, domain@, range.start@, range.end@);
                    }
                    match url_of_key(key, prefix.len()) {
                        Some(url) => {
                            all.push((url, *self.db.value_at(i)));
                        },
                        None => {},
                    }
                    i += 1;
                }
                proof {
                    assert forall|j: int| 0 <= j < all@.len() implies self@.contains_key(
                        (domain@, (#[trigger] all@[j]).0@),
                    ) && self@[(domain@, all@[j].0@)] == all@[j].1 by {
                        lemma_entry_lookup(e, lo + j);
                    }
                    assert forall|a: int, b: int| 0 <= a < b < all@.len() implies (
                    #[trigger] all@[a]).0@ != (#[trigger] all@[b]).0@ by {
                        lemma_entry_lookup(e, lo + a);
                        lemma_entry_lookup(e, lo + b);
                    }
                    assert forall|a: int, b: int| 0 <= a < b < all@.len() implies lex_lt(
                        composite_key(domain@, (#[trigger] all@[a]).0@),
                        composite_key(domain@, (#[trigger] all@[b]).0@),
                    ) by {
                        assert(lex_lt(e[lo + a].0, e[lo + b].0));
                    }
                    assert forall|u: Seq<char>| self@.contains_key((domain@, u)) implies exists|
                        j: int,
                    |
                        0 <= j < all@.len() && (#[trigger] all@[j]).0@ == u by {
                        let k = composite_key(domain@, u);
                        assert(has_key(e, k));
                        let p = position_of(e, k);
                        assert(self.db@.contains_key(composite_key(domain@, u)));
                        assert(lo <= p < hi);
                        let j = p - lo;
                        lemma_composite_key_injective(domain@, u, domain@, all@[j].0@);
                    }
                }
                all
            },
        }
    }

    /// The bounds that the range index holds for a domain: keys of the
    /// domain between which every key of the domain in this shard lies. A
    /// domain without bounds has no URL in this shard.
    pub fn range(&self, domain: &Domain) -> (range: Option<RangeRecord>)
        requires
            self.wf(),
        ensures
            match range {
                Some(r) => self.bounds().contains_key(domain@) && self.bounds()[domain@] == (
                    r.start@,
                    r.end@,
                ) && bounds_of_domain(domain@, r.start@, r.end@) && forall|u: Seq<char>|
                    #[trigger] self@.contains_key((domain@, u)) ==> lex_le(
                        r.start@,
                        composite_key(domain@, u),
                    ) && lex_le(composite_key(domain@, u), r.end@),
                None => !self.bounds().contains_key(domain@) && forall|u: Seq<char>|
                    !#[trigger] self@.contains_key((domain@, u)),
            },
    {
        let range = self.ranges.get(domain);
        proof {
            if range is None && storable(domain@) {
                assert(holds_none_of(self.db@, domain@));
            }
        }
        range
    }

    /// Takes a measured size in place of the size counted so far. Later
    /// writes count on from it.
    pub fn report_size(&mut self, bytes: u64)
        requires
            old(self).wf(),
        ensures
            final(self).wf(),
            final(self)@ == old(self)@,
            final(self).bounds() == old(self).bounds(),
            final(self).size() == bytes,
    {
        self.approx_size_bytes = bytes;
    }

    /// The approximate size of the shard in bytes: the size last reported,
    /// or nothing if none was, and for every write since then the length of
    /// its key and of its stored state.
    pub fn approximate_size_bytes(&self) -> (size: u64)
        ensures
            size == self.size(),
    {
        self.approx_size_bytes
    }
}

/// A listing shows the URLs of a domain in a map of URL states: each entry of
/// the listing is a URL of the domain with its state, no URL is listed twice,
/// and every URL of the domain in the map is listed.
pub open spec fn lists_urls(
    all: Seq<(UrlString, UrlState)>,
    states: Map<UrlId, UrlState>,
    domain: Seq<char>,
) -> bool {
    &&& forall|j: int|
        0 <= j < all.len() ==> states.contains_key((domain, (#[trigger] all[j]).0@)) && states[(
            domain,
            all[j].0@,
        )] == all[j].1
    &&& forall|i: int, j: int|
        0 <= i < j < all.len() ==> (#[trigger] all[i]).0@ != (#[trigger] all[j]).0@
    &&& forall|u: Seq<char>|
        states.contains_key((domain, u)) ==> exists|j: int|
            0 <= j < all.len() && (#[trigger] all[j]).0@ == u
}

/// The number of bytes that a stored URL state takes.
pub fn stored_len(state: &UrlState) -> (len: u64)
    ensures
        len == state_len(*state),
{
    match state.status {
        UrlStatus::Failed { status_code: Some(_) } => 15,
        UrlStatus::Failed { status_code: None } => 13,
        _ => 12,
    }
}

/// A size counter after `added` more bytes.
pub fn grow_size(size: u64, added: u64) -> (grown: u64)
    ensures
        grown == grown_size(size, added as nat),
{
    if size > u64::MAX - added {
        u64::MAX
    } else {
        size + added
    }
}

} // verus!
