//! The URL-state store: a rolling sequence of shards that acts as one store.
//! Writes go to the newest shard, a new shard is opened once the newest one
//! has grown past the size limit, and reads let newer shards win.

use crate::model::{Domain, UrlState, UrlString};
use crate::shard::{
    apply_batch, batch_bytes, batch_view, bounds_after, grown_size, lists_urls, UrlId, UrlStateDbShard,
};
use crate::stores::lists_map;
use vstd::prelude::*;

verus! {

/// The size past which a shard takes no further batch: 10 GiB.
pub const MAX_URL_DB_SIZE_BYTES: u64 = 10737418240;

/// The URL states that the first `n` shards hold together, a newer shard
/// winning over an older one.
pub open spec fn stacked(views: Seq<Map<UrlId, UrlState>>, n: int) -> Map<UrlId, UrlState>
    decreases n,
{
    if n <= 0 {
        Map::empty()
    } else {
        stacked(views, n - 1).union_prefer_right(views[n - 1])
    }
}

/// The states of the URLs of one domain.
pub open spec fn domain_slice(states: Map<UrlId, UrlState>, domain: Seq<char>) -> Map<
    Seq<char>,
    UrlState,
> {
    Map::new(|u: Seq<char>| states.contains_key((domain, u)), |u: Seq<char>| states[(domain, u)])
}

/// The newest shard that holds a URL decides its state.
pub proof fn lemma_stacked_newest_wins(views: Seq<Map<UrlId, UrlState>>, n: int, id: UrlId, i: int)
    requires
        0 <= i < n <= views.len(),
        views[i].contains_key(id),
        forall|j: int| i < j < n ==> !(#[trigger] views[j]).contains_key(id),
    ensures
        stacked(views, n).contains_key(id),
        stacked(views, n)[id] == views[i][id],
    decreases n,
{
    if i < n - 1 {
        lemma_stacked_newest_wins(views, n - 1, id, i);
    }
}

/// A URL that no shard holds has no state.
pub proof fn lemma_stacked_absent(views: Seq<Map<UrlId, UrlState>>, n: int, id: UrlId)
    requires
        n <= views.len(),
        forall|j: int| 0 <= j < n ==> !(#[trigger] views[j]).contains_key(id),
    ensures
        !stacked(views, n).contains_key(id),
    decreases n,
{
    if n > 0 {
        lemma_stacked_absent(views, n - 1, id);
    }
}

/// A batch written to the newest of the shards is a batch written to the store.
pub proof fn lemma_batch_on_top(
    below: Map<UrlId, UrlState>,
    top: Map<UrlId, UrlState>,
    domain: Seq<char>,
    batch: Seq<(Seq<char>, UrlState)>,
    n: int,
)
    ensures
        below.union_prefer_right(apply_batch(top, domain, batch, n)) == apply_batch(
            below.union_prefer_right(top),
            domain,
            batch,
            n,
        ),
    decreases n,
{
    if n > 0 {
        lemma_batch_on_top(below, top, domain, batch, n - 1);
        let t = apply_batch(top, domain, batch, n - 1);
        let id = (domain, batch[n - 1].0);
        assert(below.union_prefer_right(t.insert(id, batch[n - 1].1)) =~= below.union_prefer_right(
            t,
        ).insert(id, batch[n - 1].1));
    }
}

/// What was written last in a batch is what the store holds afterwards.
pub proof fn lemma_batch_last_write(
    states: Map<UrlId, UrlState>,
    domain: Seq<char>,
    batch: Seq<(Seq<char>, UrlState)>,
    n: int,
    i: int,
)
    requires
        0 <= i < n <= batch.len(),
        forall|j: int| i < j < n ==> (#[trigger] batch[j]).0 != batch[i].0,
    ensures
        apply_batch(states, domain, batch, n).contains_key((domain, batch[i].0)),
        apply_batch(states, domain, batch, n)[(domain, batch[i].0)] == batch[i].1,
    decreases n,
{
    if i < n - 1 {
        lemma_batch_last_write(states, domain, batch, n - 1, i);
    }
}

/// A batch leaves the URLs that it does not name as they were.
pub proof fn lemma_batch_keeps_others(
    states: Map<UrlId, UrlState>,
    domain: Seq<char>,
    batch: Seq<(Seq<char>, UrlState)>,
    n: int,
    id: UrlId,
)
    requires
        n <= batch.len(),
        forall|j: int| 0 <= j < n ==> (domain, (#[trigger] batch[j]).0) != id,
    ensures
        apply_batch(states, domain, batch, n).contains_key(id) == states.contains_key(id),
        states.contains_key(id) ==> apply_batch(states, domain, batch, n)[id] == states[id],
    decreases n,
{
    if n > 0 {
        lemma_batch_keeps_others(states, domain, batch, n - 1, id);
    }
}

/// The sizes of the shards after a batch for a domain. If the newest shard
/// had grown past the limit, a new shard follows that holds the bytes of the
/// batch; else the newest shard has grown by them. Older shards keep their
/// sizes.
pub open spec fn sizes_after_batch(
    sizes: Seq<u64>,
    max_shard_bytes: u64,
    domain: Seq<char>,
    batch: Seq<(Seq<char>, UrlState)>,
) -> Seq<u64> {
    let bytes = batch_bytes(domain, batch, batch.len() as int);
    if sizes.last() > max_shard_bytes {
        sizes.push(grown_size(0, bytes))
    } else {
        sizes.drop_last().push(grown_size(sizes.last(), bytes))
    }
}

/// What the shards hold after a batch for a domain. If the newest shard had
/// grown past the limit, a new shard follows that holds the batch and
/// nothing else; else the batch went into the newest shard. Older shards
/// hold what they held.
pub open spec fn views_after_batch(
    views: Seq<Map<UrlId, UrlState>>,
    sizes: Seq<u64>,
    max_shard_bytes: u64,
    domain: Seq<char>,
    batch: Seq<(Seq<char>, UrlState)>,
) -> Seq<Map<UrlId, UrlState>> {
    if sizes.last() > max_shard_bytes {
        views.push(apply_batch(Map::empty(), domain, batch, batch.len() as int))
    } else {
        views.drop_last().push(apply_batch(views.last(), domain, batch, batch.len() as int))
    }
}

/// The range indexes of the shards after a batch for a domain. If the newest
/// shard had grown past the limit, a new shard follows whose index holds the
/// bounds of the batch; else the index of the newest shard is widened by the
/// batch. Older shards keep their indexes.
pub open spec fn indexes_after_batch(
    indexes: Seq<Map<Seq<char>, (Seq<u8>, Seq<u8>)>>,
    sizes: Seq<u64>,
    max_shard_bytes: u64,
    domain: Seq<char>,
    batch: Seq<(Seq<char>, UrlState)>,
) -> Seq<Map<Seq<char>, (Seq<u8>, Seq<u8>)>> {
    if sizes.last() > max_shard_bytes {
        indexes.push(bounds_after(Map::empty(), domain, batch))
    } else {
        indexes.drop_last().push(bounds_after(indexes.last(), domain, batch))
    }
}

/// A hash map from URLs to states (`hashbrown::HashMap`), in which the
/// listings of the shards are merged.
#[verifier::external_body]
pub struct UrlStateMap {
    inner: hashbrown::HashMap<String, UrlState>,
}

/// What a merge map holds.
pub uninterp spec fn map_contents(urls: UrlStateMap) -> Map<Seq<char>, UrlState>;

/// Calls `hashbrown::HashMap::new`, which makes an empty map.
#[verifier::external_body]
fn new_url_map() -> (fresh: UrlStateMap)
    ensures
        map_contents(fresh) == (Map::<Seq<char>, UrlState>::empty()),
{
    UrlStateMap { inner: hashbrown::HashMap::new() }
}

/// Calls `hashbrown::HashMap::insert`, which sets the value of the key,
/// whether the map held the key or not, and leaves the other keys alone.
#[verifier::external_body]
fn url_map_insert(urls: &mut UrlStateMap, url: UrlString, state: UrlState)
    ensures
        map_contents(*final(urls)) == map_contents(*old(urls)).insert(url@, state),
{
    urls.inner.insert(url, state);
}

/// Calls `hashbrown::HashMap::into_iter`, which moves every pair out of the
/// map, each key once, in an order of the map's own choosing.
#[verifier::external_body]
fn url_map_into_vec(urls: UrlStateMap) -> (all: Vec<(UrlString, UrlState)>)
    ensures
        lists_map(all@, map_contents(urls)),
{
    urls.inner.into_iter().collect()
}

/// The URL-state store.
pub struct UrlStateDb {
    shards: Vec<UrlStateDbShard>,
    max_shard_bytes: u64,
}

impl View for UrlStateDb {
    type V = Map<UrlId, UrlState>;

    /// The store as a map from URLs, each with its domain, to states.
    closed spec fn view(&self) -> Map<UrlId, UrlState> {
        stacked(self.shard_views(), self.shards@.len() as int)
    }
}

impl UrlStateDb {
    /// What each shard holds, oldest shard first.
    pub closed spec fn shard_views(&self) -> Seq<Map<UrlId, UrlState>> {
        Seq::new(self.shards@.len(), |i: int| self.shards@[i]@)
    }

    /// The range index of each shard, oldest shard first.
    pub closed spec fn shard_bounds(&self) -> Seq<Map<Seq<char>, (Seq<u8>, Seq<u8>)>> {
        Seq::new(self.shards@.len(), |i: int| self.shards@[i].bounds())
    }

    /// The sizes of the shards, oldest shard first.
    pub closed spec fn shard_sizes(&self) -> Seq<u64> {
        Seq::new(self.shards@.len(), |i: int| self.shards@[i].size())
    }

    /// The size past which the newest shard takes no further batch.
    pub closed spec fn max_shard_bytes(&self) -> u64 {
        self.max_shard_bytes
    }

    /// The store is well formed: it has a shard, and every shard is well formed.
    pub closed spec fn wf(&self) -> bool {
        &&& self.shards@.len() > 0
        &&& forall|i: int| 0 <= i < self.shards@.len() ==> (#[trigger] self.shards@[i]).wf()
    }

    /// The store as the stack of its shards.
    pub proof fn lemma_view_is_stack(&self)
        ensures
            self@ == stacked(self.shard_views(), self.shard_views().len() as int),
            self.shard_sizes().len() == self.shard_views().len(),
            self.shard_bounds().len() == self.shard_views().len(),
            self.wf() ==> self.shard_views().len() > 0,
    {
    }

    /// An empty store of one shard, with the usual size limit.
    pub fn new() -> (db: Self)
        ensures
            db.wf(),
            db@ == Map::<UrlId, UrlState>::empty(),
            db.shard_views() == seq![Map::<UrlId, UrlState>::empty()],
            db.shard_bounds() == seq![Map::<Seq<char>, (Seq<u8>, Seq<u8>)>::empty()],
            db.shard_sizes() == seq![0u64],
            db.max_shard_bytes() == MAX_URL_DB_SIZE_BYTES,
    {
        Self::with_shard_cap(MAX_URL_DB_SIZE_BYTES)
    }

    /// An empty store of one shard, with a size limit of the caller's choosing.
    pub fn with_shard_cap(max_shard_bytes: u64) -> (db: Self)
        ensures
            db.wf(),
            db@ == Map::<UrlId, UrlState>::empty(),
            db.shard_views() == seq![Map::<UrlId, UrlState>::empty()],
            db.shard_bounds() == seq![Map::<Seq<char>, (Seq<u8>, Seq<u8>)>::empty()],
            db.shard_sizes() == seq![0u64],
            db.max_shard_bytes() == max_shard_bytes,
    {
        let mut shards: Vec<UrlStateDbShard> = Vec::new();
        shards.push(UrlStateDbShard::new());
        let db = UrlStateDb { shards, max_shard_bytes };
        proof {
            assert(db.shard_sizes() =~= seq![0u64]);
            assert(db.shard_views() =~= seq![Map::<UrlId, UrlState>::empty()]);
            assert(db.shard_bounds() =~= seq![Map::<Seq<char>, (Seq<u8>, Seq<u8>)>::empty()]);
            assert(stacked(db.shard_views(), 0) =~= Map::<UrlId, UrlState>::empty());
            assert(db@ =~= Map::<UrlId, UrlState>::empty());
        }
        db
    }

    /// A store made of shards that exist already, oldest first; an empty
    /// shard is opened if there is none.
    pub fn from_shards(shards: Vec<UrlStateDbShard>, max_shard_bytes: u64) -> (db: Self)
        requires
            forall|i: int| 0 <= i < shards@.len() ==> (#[trigger] shards@[i]).wf(),
        ensures
            db.wf(),
            db.max_shard_bytes() == max_shard_bytes,
            shards@.len() > 0 ==> db.shard_views() == Seq::new(shards@.len(), |i: int| shards@[i]@)
                && db.shard_sizes() == Seq::new(shards@.len(), |i: int| shards@[i].size())
                && db.shard_bounds() == Seq::new(shards@.len(), |i: int| shards@[i].bounds()),
            shards@.len() == 0 ==> db@ == Map::<UrlId, UrlState>::empty() && db.shard_sizes()
                == seq![0u64],
    {
        if shards.len() == 0 {
            return Self::with_shard_cap(max_shard_bytes);
        }
        let db = UrlStateDb { shards, max_shard_bytes };
        proof {
            assert(db.shard_views() =~= Seq::new(shards@.len(), |i: int| shards@[i]@));
            assert(db.shard_sizes() =~= Seq::new(shards@.len(), |i: int| shards@[i].size()));
            assert(db.shard_bounds() =~= Seq::new(shards@.len(), |i: int| shards@[i].bounds()));
        }
        db
    }

    /// Takes a measured size for the newest shard in place of the size counted
    /// so far.
    pub fn report_size(&mut self, bytes: u64)
        requires
            old(self).wf(),
        ensures
            final(self).wf(),
            final(self)@ == old(self)@,
            final(self).max_shard_bytes() == old(self).max_shard_bytes(),
            final(self).shard_views() == old(self).shard_views(),
            final(self).shard_bounds() == old(self).shard_bounds(),
            final(self).shard_sizes() == old(self).shard_sizes().drop_last().push(bytes),
    {
        let ghost indexes = self.shard_bounds();
        let ghost views = self.shard_views();
        let ghost sizes = self.shard_sizes();
        let mut shard = match self.shards.pop() {
            Some(shard) => shard,
            None => UrlStateDbShard::new(),
        };
        shard.report_size(bytes);
        self.shards.push(shard);
        proof {
            assert(self.shard_views() =~= views);
            assert(self.shard_sizes() =~= sizes.drop_last().push(bytes));
            assert(self.shard_bounds() =~= indexes);
        }
    }

    /// The approximate size of the newest shard, which takes the writes.
    pub fn approximate_size_bytes(&self) -> (size: u64)
        requires
            self.wf(),
        ensures
            size == self.shard_sizes().last(),
    {
        self.shards[self.shards.len() - 1].approximate_size_bytes()
    }

    /// One of the shards, counted from the oldest.
    pub fn shard(&self, i: usize) -> (shard: &UrlStateDbShard)
        requires
            self.wf(),
            i < self.shard_views().len(),
        ensures
            shard.wf(),
            shard@ == self.shard_views()[i as int],
            shard.size() == self.shard_sizes()[i as int],
            shard.bounds() == self.shard_bounds()[i as int],
    {
        &self.shards[i]
    }

    /// The number of shards.
    pub fn num_shards(&self) -> (n: usize)
        ensures
            n == self.shard_views().len(),
            n == self.shard_sizes().len(),
    {
        self.shards.len()
    }

    /// The state of a URL of a domain. Shards are searched from the newest to
    /// the oldest, and the first one that holds the URL answers.
    pub fn get(&self, domain: &Domain, url: &UrlString) -> (state: Option<UrlState>)
        requires
            self.wf(),
        ensures
            state == (if self@.contains_key((domain@, url@)) {
                Some(self@[(domain@, url@)])
            } else {
                None
            }),
    {
        let ghost views = self.shard_views();
        let ghost id = (domain@, url@);
        let mut i: usize = self.shards.len();
        while i > 0
            invariant
                self.wf(),
                views == self.shard_views(),
                id == (domain@, url@),
                i <= self.shards@.len(),
                forall|j: int| i <= j < self.shards@.len() ==> !(#[trigger] views[j]).contains_key(id),
            decreases i,
        {
            i -= 1;
            let found = self.shards[i].get(domain, url);
            if found.is_some() {
                proof {
                    assert(views[i as int] == self.shards@[i as int]@);
                    lemma_stacked_newest_wins(views, self.shards@.len() as int, id, i as int);
                }
                return found;
            }
            assert(views[i as int] == self.shards@[i as int]@);
        }
        proof {
            lemma_stacked_absent(views, self.shards@.len() as int, id);
        }
        None
    }

    /// Writes a batch of URL states for one domain. If the newest shard has
    /// grown past the size limit, a new shard is opened first; the batch then
    /// goes to the newest shard, whole.
    pub fn put_batch(&mut self, domain: &Domain, urls: &Vec<(UrlString, UrlState)>)
        requires
            old(self).wf(),
        ensures
            final(self).wf(),
            final(self).max_shard_bytes() == old(self).max_shard_bytes(),
            final(self)@ == apply_batch(old(self)@, domain@, batch_view(urls@), urls@.len() as int),
            final(self).shard_sizes() == sizes_after_batch(
                old(self).shard_sizes(),
                old(self).max_shard_bytes(),
                domain@,
                batch_view(urls@),
            ),
            final(self).shard_views() == views_after_batch(
                old(self).shard_views(),
                old(self).shard_sizes(),
                old(self).max_shard_bytes(),
                domain@,
                batch_view(urls@),
            ),
            final(self).shard_bounds() == indexes_after_batch(
                old(self).shard_bounds(),
                old(self).shard_sizes(),
                old(self).max_shard_bytes(),
                domain@,
                batch_view(urls@),
            ),
    {
        let ghost old_indexes = self.shard_bounds();
        let ghost old_views = self.shard_views();
        let ghost old_sizes = self.shard_sizes();
        let ghost n = urls@.len() as int;
        let ghost batch = batch_view(urls@);
        let newest: usize = self.shards.len() - 1;
        if self.shards[newest].approximate_size_bytes() > self.max_shard_bytes {
            self.shards.push(UrlStateDbShard::new());
            proof {
                assert(self.shard_views().drop_last() =~= old_views);
                assert(self.shard_sizes().drop_last() =~= old_sizes);
                assert(self.shard_bounds().drop_last() =~= old_indexes);
                assert(stacked(self.shard_views(), old_views.len() as int) == stacked(
                    old_views,
                    old_views.len() as int,
                )) by {
                    lemma_stacked_same(self.shard_views(), old_views, old_views.len() as int);
                }
                assert(self@ =~= old(self)@);
            }
        }
        let ghost mid_views = self.shard_views();
        let ghost mid_sizes = self.shard_sizes();
        let ghost mid_indexes = self.shard_bounds();
        let ghost mid = self@;
        let mut shard = match self.shards.pop() {
            Some(shard) => shard,
            None => UrlStateDbShard::new(),
        };
        let ghost below = stacked(self.shard_views(), self.shards@.len() as int);
        proof {
            assert(self.shard_views() =~= mid_views.drop_last());
            lemma_stacked_same(self.shard_views(), mid_views, self.shards@.len() as int);
            assert(mid == below.union_prefer_right(shard@));
        }
        let ghost top = shard@;
        shard.put_batch(domain, urls);
        self.shards.push(shard);
        proof {
            let views = self.shard_views();
            assert(views.drop_last() =~= mid_views.drop_last());
            assert(self.shard_sizes().drop_last() =~= mid_sizes.drop_last());
            lemma_stacked_same(views, mid_views, views.len() - 1);
            lemma_batch_on_top(below, top, domain@, batch, n);
            assert(self.shard_sizes() =~= sizes_after_batch(
                old_sizes,
                self.max_shard_bytes,
                domain@,
                batch,
            ));
            assert(views =~= views_after_batch(
                old_views,
                old_sizes,
                self.max_shard_bytes,
                domain@,
                batch,
            ));
            assert(self.shard_bounds().drop_last() =~= mid_indexes.drop_last());
            assert(self.shard_bounds() =~= indexes_after_batch(
                old_indexes,
                old_sizes,
                self.max_shard_bytes,
                domain@,
                batch,
            ));
        }
    }

    /// Every URL of a domain that the store holds, each once, with the state
    /// that the newest shard holding it gives, in no particular order.
    pub fn get_all_urls(&self, domain: &Domain) -> (all: Vec<(UrlString, UrlState)>)
        requires
            self.wf(),
        ensures
            lists_urls(all@, self@, domain@),
    {
        let mut res = new_url_map();
        let ghost views = self.shard_views();
        let mut k: usize = 0;
        proof {
            assert(map_contents(res) =~= domain_slice(stacked(views, 0), domain@));
        }
        while k < self.shards.len()
            invariant
                self.wf(),
                views == self.shard_views(),
                k <= self.shards@.len(),
                map_contents(res) == domain_slice(stacked(views, k as int), domain@),
            decreases self.shards@.len() - k,
        {
            let listing = self.shards[k].get_all_urls(domain);
            let ghost base = map_contents(res);
            let ghost top = views[k as int];
            let ghost list = listing@;
            assert(top == self.shards@[k as int]@);
            for entry in it: listing
                invariant
                    it.seq() == list,
                    lists_urls(list, top, domain@),
                    map_contents(res) == merged(base, top, domain@, list, it.index() as int),
            {
                let ghost j = it.index() as int;
                let (url, state) = entry;
                proof {
                    assert(list[j] == (url, state));
                    lemma_merge_step(base, top, domain@, list, j);
                }
                url_map_insert(&mut res, url, state);
            }
            proof {
                lemma_merge_done(base, top, domain@, list, stacked(views, k as int));
            }
            k += 1;
        }
        let all = url_map_into_vec(res);
        proof {
            let held = domain_slice(self@, domain@);
            assert forall|u: Seq<char>| self@.contains_key((domain@, u)) implies exists|j: int|
                0 <= j < all@.len() && (#[trigger] all@[j]).0@ == u by {
                assert(held.contains_key(u));
            }
        }
        all
    }
}

/// Whether a URL is among the first `n` entries of a listing.
pub open spec fn listed(list: Seq<(UrlString, UrlState)>, n: int, url: Seq<char>) -> bool {
    exists|i: int| 0 <= i < n && (#[trigger] list[i]).0@ == url
}

/// The merge map after the first `n` entries of a shard's listing went in:
/// the URLs listed so far have the shard's state, the others what they had.
pub open spec fn merged(
    base: Map<Seq<char>, UrlState>,
    top: Map<UrlId, UrlState>,
    domain: Seq<char>,
    list: Seq<(UrlString, UrlState)>,
    n: int,
) -> Map<Seq<char>, UrlState> {
    Map::new(
        |u: Seq<char>| base.contains_key(u) || listed(list, n, u),
        |u: Seq<char>|
            if listed(list, n, u) {
                top[(domain, u)]
            } else {
                base[u]
            },
    )
}

/// One more entry of the listing goes into the merge map.
proof fn lemma_merge_step(
    base: Map<Seq<char>, UrlState>,
    top: Map<UrlId, UrlState>,
    domain: Seq<char>,
    list: Seq<(UrlString, UrlState)>,
    j: int,
)
    requires
        0 <= j < list.len(),
        lists_urls(list, top, domain),
    ensures
        merged(base, top, domain, list, j).insert(list[j].0@, list[j].1) == merged(
            base,
            top,
            domain,
            list,
            j + 1,
        ),
        merged(base, top, domain, list, 0) == base,
{
    let a = merged(base, top, domain, list, j).insert(list[j].0@, list[j].1);
    let b = merged(base, top, domain, list, j + 1);
    assert forall|u: Seq<char>| listed(list, j + 1, u) <==> (listed(list, j, u) || u
        == list[j].0@) by {
        if listed(list, j + 1, u) {
            let i = choose|i: int| 0 <= i < j + 1 && (#[trigger] list[i]).0@ == u;
            if i < j {
                assert(listed(list, j, u));
            }
        }
        if listed(list, j, u) {
            let i = choose|i: int| 0 <= i < j && (#[trigger] list[i]).0@ == u;
            assert(0 <= i < j + 1 && list[i].0@ == u);
        }
        if u == list[j].0@ {
            assert(0 <= j < j + 1 && list[j].0@ == u);
        }
    }
    assert(a =~= b);
    assert(merged(base, top, domain, list, 0) =~= base);
}

/// When the whole listing of a shard went in, the merge map holds the URLs of
/// the domain in the stack that has this shard on top.
proof fn lemma_merge_done(
    base: Map<Seq<char>, UrlState>,
    top: Map<UrlId, UrlState>,
    domain: Seq<char>,
    list: Seq<(UrlString, UrlState)>,
    below: Map<UrlId, UrlState>,
)
    requires
        lists_urls(list, top, domain),
        base == domain_slice(below, domain),
    ensures
        merged(base, top, domain, list, list.len() as int) == domain_slice(
            below.union_prefer_right(top),
            domain,
        ),
{
    let a = merged(base, top, domain, list, list.len() as int);
    let b = domain_slice(below.union_prefer_right(top), domain);
    assert forall|u: Seq<char>| listed(list, list.len() as int, u) <==> top.contains_key(
        (domain, u),
    ) by {
        if listed(list, list.len() as int, u) {
            let i = choose|i: int| 0 <= i < list.len() && (#[trigger] list[i]).0@ == u;
        }
        if top.contains_key((domain, u)) {
            let i = choose|i: int| 0 <= i < list.len() && (#[trigger] list[i]).0@ == u;
            assert(0 <= i < list.len() && list[i].0@ == u);
        }
    }
    assert(a =~= b);
}

/// Stacks of shards that agree on their first `n` shards agree on what these hold.
proof fn lemma_stacked_same(a: Seq<Map<UrlId, UrlState>>, b: Seq<Map<UrlId, UrlState>>, n: int)
    requires
        n <= a.len(),
        n <= b.len(),
        forall|i: int| 0 <= i < n ==> a[i] == b[i],
    ensures
        stacked(a, n) == stacked(b, n),
    decreases n,
{
    if n > 0 {
        lemma_stacked_same(a, b, n - 1);
    }
}

} // verus!
