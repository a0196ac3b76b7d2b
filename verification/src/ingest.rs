//! The fan-out of an ingest: the discovered URLs of a batch of job responses,
//! grouped by the domain each URL belongs to.

use crate::model::{Domain, JobResponse, UrlToInsert};
use vstd::prelude::*;

verus! {

/// A discovered URL on its way in: its domain, the URL, and whether it was
/// found on a page of another domain.
pub type Discovery = (Seq<char>, Seq<char>, bool);

/// The discoveries that one response carries, in order.
pub open spec fn response_discoveries(response: JobResponse) -> Seq<Discovery> {
    Seq::new(
        response.discovered_urls@.len(),
        |i: int|
            (
                response.discovered_urls@[i].domain@,
                response.discovered_urls@[i].url@,
                response.discovered_urls@[i].domain@ != response.domain@,
            ),
    )
}

/// The discoveries that the first `n` responses carry, in order.
pub open spec fn discoveries(responses: Seq<JobResponse>, n: int) -> Seq<Discovery>
    decreases n,
{
    if n <= 0 {
        Seq::empty()
    } else {
        discoveries(responses, n - 1) + response_discoveries(responses[n - 1])
    }
}

/// Of the first `n` discoveries, those of one domain, in order.
pub open spec fn incoming(found: Seq<Discovery>, domain: Seq<char>, n: int) -> Seq<(Seq<char>, bool)>
    decreases n,
{
    if n <= 0 {
        Seq::empty()
    } else if found[n - 1].0 == domain {
        incoming(found, domain, n - 1).push((found[n - 1].1, found[n - 1].2))
    } else {
        incoming(found, domain, n - 1)
    }
}

/// A list of URLs, each with its note, as plain values.
pub open spec fn inserts_view(urls: Seq<UrlToInsert>) -> Seq<(Seq<char>, bool)> {
    Seq::new(urls.len(), |i: int| (urls[i].url@, urls[i].different_domain))
}

/// What is incoming for a domain depends on the discoveries counted only.
pub proof fn lemma_incoming_prefix(a: Seq<Discovery>, b: Seq<Discovery>, domain: Seq<char>, n: int)
    requires
        n <= a.len(),
        n <= b.len(),
        forall|i: int| 0 <= i < n ==> a[i] == b[i],
    ensures
        incoming(a, domain, n) == incoming(b, domain, n),
    decreases n,
{
    if n > 0 {
        lemma_incoming_prefix(a, b, domain, n - 1);
    }
}

/// `dashmap::DashMap`, a hash map; the fan-out groups URLs in one.
#[verifier::external_type_specification]
#[verifier::external_body]
#[verifier::reject_recursive_types(K)]
#[verifier::reject_recursive_types(V)]
#[verifier::reject_recursive_types(S)]
pub struct ExDashMap<K, V, S>(dashmap::DashMap<K, V, S>);

/// What a map of groups holds: for each domain, its URLs in the order in
/// which they were added.
pub uninterp spec fn group_contents(groups: dashmap::DashMap<String, Vec<UrlToInsert>>) -> Map<
    Seq<char>,
    Seq<UrlToInsert>,
>;

/// Calls `dashmap::DashMap::new`, which makes an empty map.
#[verifier::external_body]
fn new_groups() -> (groups: dashmap::DashMap<String, Vec<UrlToInsert>>)
    ensures
        group_contents(groups) == (Map::<Seq<char>, Seq<UrlToInsert>>::empty()),
{
    dashmap::DashMap::new()
}

/// Calls `dashmap::DashMap::entry` and `Entry::or_default`, which give the
/// list of the domain, an empty one put there if the domain had none, and
/// adds the URL at the end of that list. Other domains are left alone.
#[verifier::external_body]
fn add_to_group(groups: &mut dashmap::DashMap<String, Vec<UrlToInsert>>, domain: Domain, url: UrlToInsert)
    ensures
        group_contents(*final(groups)) == group_contents(*old(groups)).insert(
            domain@,
            group_of(group_contents(*old(groups)), domain@).push(url),
        ),
{
    groups.entry(domain).or_default().push(url);
}

/// Calls `dashmap::DashMap::into_iter`, which moves every domain with its
/// list out of the map, each domain once, in an order of the map's own
/// choosing.
#[verifier::external_body]
fn groups_into_vec(groups: dashmap::DashMap<String, Vec<UrlToInsert>>) -> (all: Vec<
    (Domain, Vec<UrlToInsert>),
>)
    ensures
        lists_groups(all@, group_contents(groups)),
{
    groups.into_iter().collect()
}

/// The list of a domain in a map of groups, empty if the domain has none.
pub open spec fn group_of(contents: Map<Seq<char>, Seq<UrlToInsert>>, domain: Seq<char>) -> Seq<
    UrlToInsert,
> {
    if contents.contains_key(domain) {
        contents[domain]
    } else {
        Seq::empty()
    }
}

/// A listing shows a map of groups: each entry is a domain of the map with
/// its list, no domain is listed twice, and every domain of the map is listed.
pub open spec fn lists_groups(
    all: Seq<(Domain, Vec<UrlToInsert>)>,
    contents: Map<Seq<char>, Seq<UrlToInsert>>,
) -> bool {
    &&& forall|j: int|
        0 <= j < all.len() ==> contents.contains_key((#[trigger] all[j]).0@) && contents[all[j].0@]
            == all[j].1@
    &&& forall|i: int, j: int|
        0 <= i < j < all.len() ==> (#[trigger] all[i]).0@ != (#[trigger] all[j]).0@
    &&& forall|d: Seq<char>|
        contents.contains_key(d) ==> exists|j: int| 0 <= j < all.len() && (#[trigger] all[j]).0@ == d
}

/// The groups hold the first `n` discoveries: a domain has a list exactly
/// when something is incoming for it, and the list is what is incoming.
pub open spec fn groups_hold(
    contents: Map<Seq<char>, Seq<UrlToInsert>>,
    found: Seq<Discovery>,
    n: int,
) -> bool {
    forall|d: Seq<char>|
        inserts_view(group_of(contents, d)) == #[trigger] incoming(found, d, n) && (
        contents.contains_key(d) <==> incoming(found, d, n).len() > 0)
}

/// The groups of a batch of responses: every domain for which URLs were
/// discovered, once, with its URLs in the order of discovery.
pub open spec fn is_fan_out(all: Seq<(Domain, Vec<UrlToInsert>)>, found: Seq<Discovery>) -> bool {
    &&& forall|j: int|
        0 <= j < all.len() ==> inserts_view((#[trigger] all[j]).1@) == incoming(
            found,
            all[j].0@,
            found.len() as int,
        ) && all[j].1@.len() > 0
    &&& forall|i: int, j: int|
        0 <= i < j < all.len() ==> (#[trigger] all[i]).0@ != (#[trigger] all[j]).0@
    &&& forall|d: Seq<char>|
        incoming(found, d, found.len() as int).len() > 0 ==> exists|j: int|
            0 <= j < all.len() && (#[trigger] all[j]).0@ == d
}

/// Groups the discovered URLs of a batch of responses by the domain of each
/// URL, and notes for each URL whether it was found on a page of another
/// domain. The groups come in no particular order.
pub fn fan_out(responses: &Vec<JobResponse>) -> (all: Vec<(Domain, Vec<UrlToInsert>)>)
    ensures
        is_fan_out(all@, discoveries(responses@, responses@.len() as int)),
{
    let mut groups = new_groups();
    let ghost mut found: Seq<Discovery> = Seq::empty();
    let mut r: usize = 0;
    proof {
        assert forall|d: Seq<char>|
            inserts_view(group_of(group_contents(groups), d)) == #[trigger] incoming(found, d, 0) && (
            group_contents(groups).contains_key(d) <==> incoming(found, d, 0).len() > 0) by {
            assert(inserts_view(Seq::<UrlToInsert>::empty()) =~= Seq::<(Seq<char>, bool)>::empty());
        }
    }
    while r < responses.len()
        invariant
            r <= responses@.len(),
            found == discoveries(responses@, r as int),
            groups_hold(group_contents(groups), found, found.len() as int),
        decreases responses@.len() - r,
    {
        let response = &responses[r];
        let ghost base = found;
        let ghost items = response_discoveries(*response);
        let mut j: usize = 0;
        proof {
            assert(base + items.take(0) =~= base);
        }
        while j < response.discovered_urls.len()
            invariant
                j <= response.discovered_urls@.len(),
                items == response_discoveries(*response),
                found == base + items.take(j as int),
                groups_hold(group_contents(groups), found, found.len() as int),
            decreases response.discovered_urls@.len() - j,
        {
            let site = &response.discovered_urls[j];
            let different_domain = site.domain != response.domain;
            let ghost contents = group_contents(groups);
            let ghost before = found;
            let item = UrlToInsert { url: site.url.clone(), different_domain };
            add_to_group(&mut groups, site.domain.clone(), item);
            proof {
                let n = before.len() as int;
                found = before.push(items[j as int]);
                assert(found =~= base + items.take(j as int + 1));
                let after = group_contents(groups);
                assert forall|d: Seq<char>|
                    inserts_view(group_of(after, d)) == #[trigger] incoming(found, d, n + 1) && (
                    after.contains_key(d) <==> incoming(found, d, n + 1).len() > 0) by {
                    lemma_incoming_prefix(found, before, d, n);
                    assert(inserts_view(group_of(contents, d)) == incoming(before, d, n));
                    if d == site.domain@ {
                        assert(inserts_view(group_of(contents, d).push(item)) =~= inserts_view(
                            group_of(contents, d),
                        ).push((item.url@, item.different_domain)));
                    }
                }
            }
            j += 1;
        }
        proof {
            assert(items.take(items.len() as int) =~= items);
        }
        r += 1;
    }
    let all = groups_into_vec(groups);
    proof {
        let contents = group_contents(groups);
        let n = found.len() as int;
        assert forall|j: int| 0 <= j < all@.len() implies inserts_view((#[trigger] all@[j]).1@)
            == incoming(found, all@[j].0@, n) && all@[j].1@.len() > 0 by {
            let d = all@[j].0@;
            assert(inserts_view(group_of(contents, d)) == incoming(found, d, n));
            assert(inserts_view(all@[j].1@).len() == all@[j].1@.len());
        }
        assert forall|d: Seq<char>| incoming(found, d, n).len() > 0 implies exists|j: int|
            0 <= j < all@.len() && (#[trigger] all@[j]).0@ == d by {
            assert(contents.contains_key(d));
        }
    }
    all
}

/// A hash set of domains (`hashbrown::HashSet`).
#[verifier::external_body]
pub struct DomainSet {
    inner: hashbrown::HashSet<String>,
}

/// The domains that a set holds.
pub uninterp spec fn set_contents(domains: DomainSet) -> Set<Seq<char>>;

/// Calls `hashbrown::HashSet::new`, which makes an empty set.
#[verifier::external_body]
fn new_domain_set() -> (fresh: DomainSet)
    ensures
        set_contents(fresh) == Set::<Seq<char>>::empty(),
{
    DomainSet { inner: hashbrown::HashSet::new() }
}

/// Calls `hashbrown::HashSet::insert`, which adds the value to the set; a
/// set that held it already stays as it is.
#[verifier::external_body]
fn domain_set_insert(domains: &mut DomainSet, domain: Domain)
    ensures
        set_contents(*final(domains)) == set_contents(*old(domains)).insert(domain@),
{
    domains.inner.insert(domain);
}

/// Calls `hashbrown::HashSet::contains`, which tells whether the set holds
/// the value.
#[verifier::external_body]
fn domain_set_contains(domains: &DomainSet, domain: &Domain) -> (held: bool)
    ensures
        held == set_contents(*domains).contains(domain@),
{
    domains.inner.contains(domain)
}

/// Calls `hashbrown::HashSet::iter`, which visits every value of the set
/// once, in an order of the set's own choosing; the values are copied out.
#[verifier::external_body]
fn domain_set_to_vec(domains: &DomainSet) -> (all: Vec<Domain>)
    ensures
        lists_set(all@, set_contents(*domains)),
{
    domains.inner.iter().cloned().collect()
}

/// A listing shows a set of domains: each entry is a domain of the set, no
/// domain is listed twice, and every domain of the set is listed.
pub open spec fn lists_set(all: Seq<Domain>, domains: Set<Seq<char>>) -> bool {
    &&& forall|j: int| 0 <= j < all.len() ==> domains.contains((#[trigger] all[j])@)
    &&& forall|i: int, j: int| 0 <= i < j < all.len() ==> (#[trigger] all[i])@ != (#[trigger] all[j])@
    &&& forall|d: Seq<char>|
        domains.contains(d) ==> exists|j: int| 0 <= j < all.len() && (#[trigger] all[j])@ == d
}

impl View for DomainSet {
    type V = Set<Seq<char>>;

    /// The domains of the set.
    open spec fn view(&self) -> Set<Seq<char>> {
        set_contents(*self)
    }
}

impl DomainSet {
    /// An empty set.
    pub fn new() -> (domains: Self)
        ensures
            domains@ == Set::<Seq<char>>::empty(),
    {
        new_domain_set()
    }

    /// Adds a domain to the set.
    pub fn insert(&mut self, domain: Domain)
        ensures
            final(self)@ == old(self)@.insert(domain@),
    {
        domain_set_insert(self, domain);
    }

    /// The domains of the set, each once, in no particular order.
    pub fn to_vec(&self) -> (all: Vec<Domain>)
        ensures
            lists_set(all@, self@),
    {
        domain_set_to_vec(self)
    }

    /// Whether the set holds the domain.
    pub fn contains(&self, domain: &Domain) -> (held: bool)
        ensures
            held == self@.contains(domain@),
    {
        domain_set_contains(self, domain)
    }
}

} // verus!
