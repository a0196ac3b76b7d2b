//! What holds of the frontier between operations: the URL count of a domain
//! never falls behind the URLs stored for it, and the weight of a domain
//! never falls behind the weights of its pending URLs.

use crate::crawl_db::{
    ingest_urls, ingested_domains, ingested_urls, job_step, known_or_new, marked, merge_batch,
    merge_domain, pending_urls, seed_domains, seed_urls, with_status,
};
use crate::ingest::{incoming, Discovery};
use crate::model::{lookup, DomainState, DomainStatus, Job, UrlState};
use crate::shard::{apply_batch, UrlId};
use vstd::prelude::*;

verus! {

/// The URLs stored for a domain.
pub open spec fn url_set(urls: Map<UrlId, UrlState>, domain: Seq<char>) -> Set<Seq<char>> {
    Set::new(|u: Seq<char>| urls.contains_key((domain, u)))
}

/// The count covers the URLs: the count is at least their number, or it
/// stands at the largest number that it can hold.
pub open spec fn covers(count: u64, urls: Set<Seq<char>>) -> bool {
    urls.finite() && (urls.len() <= count || count == u64::MAX)
}

/// Every domain's count covers the URLs stored for the domain; a domain
/// without a state has no URLs.
pub open spec fn counts_cover(domains: Map<Seq<char>, DomainState>, urls: Map<UrlId, UrlState>) -> bool {
    forall|d: Seq<char>|
        covers(known_or_new(lookup(domains, d)).total_urls, #[trigger] url_set(urls, d))
}

/// An empty frontier counts well.
pub proof fn lemma_counts_cover_nothing()
    ensures
        counts_cover(Map::empty(), Map::empty()),
{
    assert forall|d: Seq<char>|
        covers(
            known_or_new(lookup(Map::<Seq<char>, DomainState>::empty(), d)).total_urls,
            #[trigger] url_set(Map::<UrlId, UrlState>::empty(), d),
        ) by {
        assert(url_set(Map::<UrlId, UrlState>::empty(), d) =~= Set::<Seq<char>>::empty());
    }
}

/// Writing the state of one URL adds at most that URL to its domain.
proof fn lemma_url_written(
    urls: Map<UrlId, UrlState>,
    domain: Seq<char>,
    url: Seq<char>,
    state: UrlState,
    other: Seq<char>,
)
    ensures
        url_set(urls.insert((domain, url), state), other) == if other == domain {
            url_set(urls, domain).insert(url)
        } else {
            url_set(urls, other)
        },
{
    let grown = urls.insert((domain, url), state);
    if other == domain {
        assert(url_set(grown, other) =~= url_set(urls, domain).insert(url));
    } else {
        assert(url_set(grown, other) =~= url_set(urls, other));
    }
}

/// A set with one more member is covered by a count that is one higher, and
/// by the same count if the member was there before.
proof fn lemma_covers_one_more(count: u64, bumped: u64, urls: Set<Seq<char>>, url: Seq<char>)
    requires
        covers(count, urls),
        bumped == count && urls.contains(url) || bumped == count + 1 || bumped == u64::MAX,
    ensures
        covers(bumped, urls.insert(url)),
{
    broadcast use vstd::set::group_set_axioms;

}

/// Seeds keep the counts: each seed counts one more for its domain.
pub proof fn lemma_seeds_keep_counts(
    domains: Map<Seq<char>, DomainState>,
    urls: Map<UrlId, UrlState>,
    seeds: Seq<UrlId>,
    n: int,
)
    requires
        counts_cover(domains, urls),
        n <= seeds.len(),
    ensures
        counts_cover(seed_domains(domains, seeds, n), seed_urls(urls, seeds, n)),
    decreases n,
{
    if n > 0 {
        lemma_seeds_keep_counts(domains, urls, seeds, n - 1);
        let d0 = seed_domains(domains, seeds, n - 1);
        let u0 = seed_urls(urls, seeds, n - 1);
        let (domain, url) = seeds[n - 1];
        let d1 = seed_domains(domains, seeds, n);
        let u1 = seed_urls(urls, seeds, n);
        assert forall|d: Seq<char>|
            covers(known_or_new(lookup(d1, d)).total_urls, #[trigger] url_set(u1, d)) by {
            lemma_url_written(u0, domain, url, UrlState::initial(), d);
            assert(covers(known_or_new(lookup(d0, d)).total_urls, url_set(u0, d)));
            if d == domain {
                lemma_covers_one_more(
                    known_or_new(lookup(d0, d)).total_urls,
                    known_or_new(lookup(d1, d)).total_urls,
                    url_set(u0, d),
                    url,
                );
            }
        }
    }
}

/// A new status keeps the counts.
pub proof fn lemma_status_keeps_counts(
    domains: Map<Seq<char>, DomainState>,
    urls: Map<UrlId, UrlState>,
    domain: Seq<char>,
    status: DomainStatus,
)
    requires
        counts_cover(domains, urls),
    ensures
        counts_cover(domains.insert(domain, with_status(lookup(domains, domain), status)), urls),
{
    let d1 = domains.insert(domain, with_status(lookup(domains, domain), status));
    assert forall|d: Seq<char>|
        covers(known_or_new(lookup(d1, d)).total_urls, #[trigger] url_set(urls, d)) by {
        assert(covers(known_or_new(lookup(domains, d)).total_urls, url_set(urls, d)));
    }
}

/// Marking sampled domains keeps the counts.
pub proof fn lemma_marking_keeps_counts(
    domains: Map<Seq<char>, DomainState>,
    urls: Map<UrlId, UrlState>,
    sampled: Seq<Seq<char>>,
    n: int,
)
    requires
        counts_cover(domains, urls),
    ensures
        counts_cover(marked(domains, sampled, n), urls),
{
    let d1 = marked(domains, sampled, n);
    assert forall|d: Seq<char>|
        covers(known_or_new(lookup(d1, d)).total_urls, #[trigger] url_set(urls, d)) by {
        assert(covers(known_or_new(lookup(domains, d)).total_urls, url_set(urls, d)));
    }
}

/// Preparing a job keeps the counts.
pub proof fn lemma_job_keeps_counts(
    domains: Map<Seq<char>, DomainState>,
    urls: Map<UrlId, UrlState>,
    domain: Seq<char>,
    urls_per_job: nat,
    job: Job,
    new_domains: Map<Seq<char>, DomainState>,
    new_urls: Map<UrlId, UrlState>,
)
    requires
        counts_cover(domains, urls),
        job_step(domains, urls, domain, urls_per_job, job, new_domains, new_urls),
    ensures
        counts_cover(new_domains, new_urls),
{
    assert forall|d: Seq<char>|
        covers(known_or_new(lookup(new_domains, d)).total_urls, #[trigger] url_set(new_urls, d)) by {
        assert(covers(known_or_new(lookup(domains, d)).total_urls, url_set(urls, d)));
        assert(url_set(new_urls, d) =~= url_set(urls, d));
        assert(new_domains.dom().contains(d) == domains.dom().insert(domain).contains(d));
        if d != domain && domains.contains_key(d) {
            assert(new_domains[d] == domains[d]);
        }
    }
}

/// While a domain's incoming URLs go in, the count rises with every URL
/// that the store did not hold, and so keeps covering the URLs of the domain.
proof fn lemma_ingest_counts(
    start: DomainState,
    urls: Map<UrlId, UrlState>,
    domain: Seq<char>,
    inc: Seq<(Seq<char>, bool)>,
    n: int,
)
    requires
        covers(start.total_urls, url_set(urls, domain)),
        n <= inc.len(),
    ensures
        covers(
            merge_domain(start, urls, domain, inc, n).total_urls,
            url_set(apply_batch(urls, domain, merge_batch(urls, domain, inc), n), domain),
        ),
        forall|u: Seq<char>|
            url_set(urls, domain).contains(u) ==> url_set(
                apply_batch(urls, domain, merge_batch(urls, domain, inc), n),
                domain,
            ).contains(u),
        forall|other: Seq<char>|
            other != domain ==> url_set(
                apply_batch(urls, domain, merge_batch(urls, domain, inc), n),
                other,
            ) == url_set(urls, other),
        merge_domain(start, urls, domain, inc, n).total_urls >= start.total_urls,
        url_set(apply_batch(urls, domain, merge_batch(urls, domain, inc), n), domain).len() - url_set(
            urls,
            domain,
        ).len() <= merge_domain(start, urls, domain, inc, n).total_urls - start.total_urls
            || merge_domain(start, urls, domain, inc, n).total_urls == u64::MAX,
    decreases n,
{
    broadcast use vstd::set::group_set_axioms;

    let batch = merge_batch(urls, domain, inc);
    if n > 0 {
        lemma_ingest_counts(start, urls, domain, inc, n - 1);
        let before = apply_batch(urls, domain, batch, n - 1);
        let after = apply_batch(urls, domain, batch, n);
        let url = inc[n - 1].0;
        assert(batch[n - 1].0 == url);
        lemma_url_written(before, domain, url, batch[n - 1].1, domain);
        assert forall|other: Seq<char>| other != domain implies url_set(after, other) == url_set(
            urls,
            other,
        ) by {
            lemma_url_written(before, domain, url, batch[n - 1].1, other);
        }
        if lookup(urls, (domain, url)) is Some {
            assert(url_set(urls, domain).contains(url));
            assert(url_set(before, domain).insert(url) =~= url_set(before, domain));
        }
    } else {
        assert(apply_batch(urls, domain, batch, n) == urls);
    }
}

/// Taking in the URLs discovered for one domain keeps the counts.
pub proof fn lemma_ingest_domain_keeps_counts(
    domains: Map<Seq<char>, DomainState>,
    urls: Map<UrlId, UrlState>,
    domain: Seq<char>,
    inc: Seq<(Seq<char>, bool)>,
)
    requires
        counts_cover(domains, urls),
    ensures
        counts_cover(
            domains.insert(
                domain,
                merge_domain(
                    known_or_new(lookup(domains, domain)),
                    urls,
                    domain,
                    inc,
                    inc.len() as int,
                ),
            ),
            ingest_urls(urls, domain, inc),
        ),
{
    let start = known_or_new(lookup(domains, domain));
    let d1 = domains.insert(domain, merge_domain(start, urls, domain, inc, inc.len() as int));
    let u1 = ingest_urls(urls, domain, inc);
    assert(covers(start.total_urls, url_set(urls, domain)));
    lemma_ingest_counts(start, urls, domain, inc, inc.len() as int);
    assert forall|d: Seq<char>|
        covers(known_or_new(lookup(d1, d)).total_urls, #[trigger] url_set(u1, d)) by {
        assert(covers(known_or_new(lookup(domains, d)).total_urls, url_set(urls, d)));
    }
}

/// An ingest keeps the counts.
pub proof fn lemma_ingest_keeps_counts(
    domains: Map<Seq<char>, DomainState>,
    urls: Map<UrlId, UrlState>,
    found: Seq<Discovery>,
)
    requires
        counts_cover(domains, urls),
    ensures
        counts_cover(ingested_domains(domains, urls, found), ingested_urls(urls, found)),
{
    let d1 = ingested_domains(domains, urls, found);
    let u1 = ingested_urls(urls, found);
    assert forall|d: Seq<char>|
        covers(known_or_new(lookup(d1, d)).total_urls, #[trigger] url_set(u1, d)) by {
        let inc = incoming(found, d, found.len() as int);
        let start = known_or_new(lookup(domains, d));
        assert(covers(start.total_urls, url_set(urls, d)));
        lemma_ingest_counts(start, urls, d, inc, inc.len() as int);
        assert(url_set(u1, d) =~= url_set(ingest_urls(urls, d, inc), d));
        if inc.len() == 0 {
            assert(merge_domain(start, urls, d, inc, 0) == start);
        }
    }
}

/// Every domain's weight is at least the weight of each of its pending URLs.
pub open spec fn weights_bound(domains: Map<Seq<char>, DomainState>, urls: Map<UrlId, UrlState>) -> bool {
    forall|d: Seq<char>, u: Seq<char>| #[trigger]
        pending_urls(urls, d).contains(u) ==> urls[(d, u)].weight <= known_or_new(
            lookup(domains, d),
        ).weight
}

/// An empty frontier has no weight to bound.
pub proof fn lemma_weights_bound_nothing()
    ensures
        weights_bound(Map::empty(), Map::empty()),
{
}

/// Seeds keep the weights bounded: a seed starts with weight zero.
pub proof fn lemma_seeds_keep_weights(
    domains: Map<Seq<char>, DomainState>,
    urls: Map<UrlId, UrlState>,
    seeds: Seq<UrlId>,
    n: int,
)
    requires
        weights_bound(domains, urls),
        n <= seeds.len(),
    ensures
        weights_bound(seed_domains(domains, seeds, n), seed_urls(urls, seeds, n)),
    decreases n,
{
    if n > 0 {
        lemma_seeds_keep_weights(domains, urls, seeds, n - 1);
        let d0 = seed_domains(domains, seeds, n - 1);
        let u0 = seed_urls(urls, seeds, n - 1);
        let d1 = seed_domains(domains, seeds, n);
        let u1 = seed_urls(urls, seeds, n);
        assert forall|d: Seq<char>, u: Seq<char>| #[trigger]
            pending_urls(u1, d).contains(u) implies u1[(d, u)].weight <= known_or_new(
            lookup(d1, d),
        ).weight by {
            if (d, u) != seeds[n - 1] {
                assert(pending_urls(u0, d).contains(u));
            }
        }
    }
}

/// A new status keeps the weights bounded.
pub proof fn lemma_status_keeps_weights(
    domains: Map<Seq<char>, DomainState>,
    urls: Map<UrlId, UrlState>,
    domain: Seq<char>,
    status: DomainStatus,
)
    requires
        weights_bound(domains, urls),
    ensures
        weights_bound(domains.insert(domain, with_status(lookup(domains, domain), status)), urls),
{
    let d1 = domains.insert(domain, with_status(lookup(domains, domain), status));
    assert forall|d: Seq<char>, u: Seq<char>| #[trigger]
        pending_urls(urls, d).contains(u) implies urls[(d, u)].weight <= known_or_new(
        lookup(d1, d),
    ).weight by {
        assert(urls[(d, u)].weight <= known_or_new(lookup(domains, d)).weight);
    }
}

/// Marking sampled domains keeps the weights bounded.
pub proof fn lemma_marking_keeps_weights(
    domains: Map<Seq<char>, DomainState>,
    urls: Map<UrlId, UrlState>,
    sampled: Seq<Seq<char>>,
    n: int,
)
    requires
        weights_bound(domains, urls),
    ensures
        weights_bound(marked(domains, sampled, n), urls),
{
    let d1 = marked(domains, sampled, n);
    assert forall|d: Seq<char>, u: Seq<char>| #[trigger]
        pending_urls(urls, d).contains(u) implies urls[(d, u)].weight <= known_or_new(
        lookup(d1, d),
    ).weight by {
        assert(urls[(d, u)].weight <= known_or_new(lookup(domains, d)).weight);
    }
}

/// Preparing a job keeps the weights bounded; for the job's domain it makes
/// the bound exact.
pub proof fn lemma_job_keeps_weights(
    domains: Map<Seq<char>, DomainState>,
    urls: Map<UrlId, UrlState>,
    domain: Seq<char>,
    urls_per_job: nat,
    job: Job,
    new_domains: Map<Seq<char>, DomainState>,
    new_urls: Map<UrlId, UrlState>,
)
    requires
        weights_bound(domains, urls),
        job_step(domains, urls, domain, urls_per_job, job, new_domains, new_urls),
    ensures
        weights_bound(new_domains, new_urls),
{
    assert forall|d: Seq<char>, u: Seq<char>| #[trigger]
        pending_urls(new_urls, d).contains(u) implies new_urls[(d, u)].weight <= known_or_new(
        lookup(new_domains, d),
    ).weight by {
        assert(new_domains.dom().contains(d) == domains.dom().insert(domain).contains(d));
        if d != domain {
            assert(pending_urls(urls, d).contains(u));
            assert(urls[(d, u)].weight <= known_or_new(lookup(domains, d)).weight);
            if domains.contains_key(d) {
                assert(new_domains[d] == domains[d]);
            }
        }
    }
}

/// While a domain's incoming URLs go in, the weight of the domain stays at
/// or above where it started and reaches the weight of every URL written,
/// and each URL of the domain is as the store held it or as it was written.
proof fn lemma_ingest_weights(
    start: DomainState,
    urls: Map<UrlId, UrlState>,
    domain: Seq<char>,
    inc: Seq<(Seq<char>, bool)>,
    n: int,
)
    requires
        n <= inc.len(),
    ensures
        merge_domain(start, urls, domain, inc, n).weight >= start.weight,
        forall|i: int|
            0 <= i < n ==> (#[trigger] merge_batch(urls, domain, inc)[i]).1.weight <= merge_domain(
                start,
                urls,
                domain,
                inc,
                n,
            ).weight,
        forall|id: UrlId| #[trigger]
            apply_batch(urls, domain, merge_batch(urls, domain, inc), n).contains_key(id) ==> {
                ||| urls.contains_key(id) && apply_batch(
                    urls,
                    domain,
                    merge_batch(urls, domain, inc),
                    n,
                )[id] == urls[id]
                ||| exists|i: int|
                    0 <= i < n && id.0 == domain && apply_batch(
                        urls,
                        domain,
                        merge_batch(urls, domain, inc),
                        n,
                    )[id] == (#[trigger] merge_batch(urls, domain, inc)[i]).1
            },
    decreases n,
{
    let batch = merge_batch(urls, domain, inc);
    if n > 0 {
        lemma_ingest_weights(start, urls, domain, inc, n - 1);
        let before = apply_batch(urls, domain, batch, n - 1);
        let after = apply_batch(urls, domain, batch, n);
        assert forall|id: UrlId| #[trigger] after.contains_key(id) implies {
            ||| urls.contains_key(id) && after[id] == urls[id]
            ||| exists|i: int| 0 <= i < n && id.0 == domain && after[id] == (#[trigger] batch[i]).1
        } by {
            if id == (domain, batch[n - 1].0) {
                assert(after[id] == batch[n - 1].1);
            } else {
                assert(before.contains_key(id));
                if !(urls.contains_key(id) && before[id] == urls[id]) {
                    let i = choose|i: int|
                        0 <= i < n - 1 && id.0 == domain && before[id] == (#[trigger] batch[i]).1;
                    assert(0 <= i < n && after[id] == batch[i].1);
                }
            }
        }
    }
}

/// Taking in the URLs discovered for one domain keeps the weights bounded.
pub proof fn lemma_ingest_domain_keeps_weights(
    domains: Map<Seq<char>, DomainState>,
    urls: Map<UrlId, UrlState>,
    domain: Seq<char>,
    inc: Seq<(Seq<char>, bool)>,
)
    requires
        weights_bound(domains, urls),
    ensures
        weights_bound(
            domains.insert(
                domain,
                merge_domain(
                    known_or_new(lookup(domains, domain)),
                    urls,
                    domain,
                    inc,
                    inc.len() as int,
                ),
            ),
            ingest_urls(urls, domain, inc),
        ),
{
    let start = known_or_new(lookup(domains, domain));
    let d1 = domains.insert(domain, merge_domain(start, urls, domain, inc, inc.len() as int));
    let u1 = ingest_urls(urls, domain, inc);
    let batch = merge_batch(urls, domain, inc);
    lemma_ingest_weights(start, urls, domain, inc, inc.len() as int);
    assert forall|d: Seq<char>, u: Seq<char>| #[trigger]
        pending_urls(u1, d).contains(u) implies u1[(d, u)].weight <= known_or_new(
        lookup(d1, d),
    ).weight by {
        let id = (d, u);
        assert(u1.contains_key(id));
        if urls.contains_key(id) && u1[id] == urls[id] {
            assert(pending_urls(urls, d).contains(u));
            assert(urls[id].weight <= known_or_new(lookup(domains, d)).weight);
        } else {
            let i = choose|i: int|
                0 <= i < inc.len() && id.0 == domain && u1[id] == (#[trigger] batch[i]).1;
            assert(batch[i].1.weight <= merge_domain(start, urls, domain, inc, inc.len() as int).weight);
        }
    }
}

/// An ingest keeps the weights bounded.
pub proof fn lemma_ingest_keeps_weights(
    domains: Map<Seq<char>, DomainState>,
    urls: Map<UrlId, UrlState>,
    found: Seq<Discovery>,
)
    requires
        weights_bound(domains, urls),
    ensures
        weights_bound(ingested_domains(domains, urls, found), ingested_urls(urls, found)),
{
    let d1 = ingested_domains(domains, urls, found);
    let u1 = ingested_urls(urls, found);
    assert forall|d: Seq<char>, u: Seq<char>| #[trigger]
        pending_urls(u1, d).contains(u) implies u1[(d, u)].weight <= known_or_new(
        lookup(d1, d),
    ).weight by {
        let inc = incoming(found, d, found.len() as int);
        lemma_ingest_domain_keeps_weights(domains, urls, d, inc);
        let one = ingest_urls(urls, d, inc);
        assert(pending_urls(one, d).contains(u));
        if inc.len() == 0 {
            assert(merge_domain(known_or_new(lookup(domains, d)), urls, d, inc, 0) == known_or_new(
                lookup(domains, d),
            ));
        }
    }
}

/// The frontier is consistent: counts cover the URLs stored, and weights
/// bound the weights of the pending URLs.
pub open spec fn consistent(domains: Map<Seq<char>, DomainState>, urls: Map<UrlId, UrlState>) -> bool {
    counts_cover(domains, urls) && weights_bound(domains, urls)
}

/// An empty frontier is consistent.
pub proof fn lemma_nothing_is_consistent()
    ensures
        consistent(Map::empty(), Map::empty()),
{
    lemma_counts_cover_nothing();
    lemma_weights_bound_nothing();
}

/// Seeds keep the frontier consistent.
pub proof fn lemma_seeds_keep_consistent(
    domains: Map<Seq<char>, DomainState>,
    urls: Map<UrlId, UrlState>,
    seeds: Seq<UrlId>,
    n: int,
)
    requires
        consistent(domains, urls),
        n <= seeds.len(),
    ensures
        consistent(seed_domains(domains, seeds, n), seed_urls(urls, seeds, n)),
{
    lemma_seeds_keep_counts(domains, urls, seeds, n);
    lemma_seeds_keep_weights(domains, urls, seeds, n);
}

/// A new status keeps the frontier consistent.
pub proof fn lemma_status_keeps_consistent(
    domains: Map<Seq<char>, DomainState>,
    urls: Map<UrlId, UrlState>,
    domain: Seq<char>,
    status: DomainStatus,
)
    requires
        consistent(domains, urls),
    ensures
        consistent(domains.insert(domain, with_status(lookup(domains, domain), status)), urls),
{
    lemma_status_keeps_counts(domains, urls, domain, status);
    lemma_status_keeps_weights(domains, urls, domain, status);
}

/// Marking sampled domains keeps the frontier consistent.
pub proof fn lemma_marking_keeps_consistent(
    domains: Map<Seq<char>, DomainState>,
    urls: Map<UrlId, UrlState>,
    sampled: Seq<Seq<char>>,
    n: int,
)
    requires
        consistent(domains, urls),
    ensures
        consistent(marked(domains, sampled, n), urls),
{
    lemma_marking_keeps_counts(domains, urls, sampled, n);
    lemma_marking_keeps_weights(domains, urls, sampled, n);
}

/// Preparing a job keeps the frontier consistent.
pub proof fn lemma_job_keeps_consistent(
    domains: Map<Seq<char>, DomainState>,
    urls: Map<UrlId, UrlState>,
    domain: Seq<char>,
    urls_per_job: nat,
    job: Job,
    new_domains: Map<Seq<char>, DomainState>,
    new_urls: Map<UrlId, UrlState>,
)
    requires
        consistent(domains, urls),
        job_step(domains, urls, domain, urls_per_job, job, new_domains, new_urls),
    ensures
        consistent(new_domains, new_urls),
{
    lemma_job_keeps_counts(domains, urls, domain, urls_per_job, job, new_domains, new_urls);
    lemma_job_keeps_weights(domains, urls, domain, urls_per_job, job, new_domains, new_urls);
}

/// Taking in the URLs discovered for one domain keeps the frontier consistent.
pub proof fn lemma_ingest_domain_keeps_consistent(
    domains: Map<Seq<char>, DomainState>,
    urls: Map<UrlId, UrlState>,
    domain: Seq<char>,
    inc: Seq<(Seq<char>, bool)>,
)
    requires
        consistent(domains, urls),
    ensures
        consistent(
            domains.insert(
                domain,
                merge_domain(
                    known_or_new(lookup(domains, domain)),
                    urls,
                    domain,
                    inc,
                    inc.len() as int,
                ),
            ),
            ingest_urls(urls, domain, inc),
        ),
{
    lemma_ingest_domain_keeps_counts(domains, urls, domain, inc);
    lemma_ingest_domain_keeps_weights(domains, urls, domain, inc);
}

/// An ingest keeps the frontier consistent.
pub proof fn lemma_ingest_keeps_consistent(
    domains: Map<Seq<char>, DomainState>,
    urls: Map<UrlId, UrlState>,
    found: Seq<Discovery>,
)
    requires
        consistent(domains, urls),
    ensures
        consistent(ingested_domains(domains, urls, found), ingested_urls(urls, found)),
{
    lemma_ingest_keeps_counts(domains, urls, found);
    lemma_ingest_keeps_weights(domains, urls, found);
}

} // verus!
