//! The crawl frontier: seed insertion, ingest of fetch results, domain
//! sampling and per-domain job preparation over the three stores.

use crate::invariants::{
    consistent, lemma_ingest_domain_keeps_consistent, lemma_ingest_keeps_consistent,
    lemma_job_keeps_consistent, lemma_marking_keeps_consistent, lemma_nothing_is_consistent,
    lemma_seeds_keep_consistent, lemma_status_keeps_consistent,
};
use crate::ingest::{discoveries, fan_out, incoming, inserts_view, is_fan_out, Discovery, DomainSet};
use crate::model::{
    bumped_count, lookup, Domain, DomainState, DomainStatus, Job, JobResponse, SiteUrl, UrlResponse,
    UrlState, UrlStatus, UrlString, UrlToInsert, MAX_WEIGHT,
};
use crate::sampler::{
    drew_for, picks_from, picks_smallest, stream_items, stream_numbers, weighted_sample, PrioritySource,
    Recorded, Reservoir,
};
use crate::shard::{apply_batch, batch_view, UrlId};
use crate::stores::{DomainStateDb, RedirectDb};
use crate::url_store::{lemma_batch_keeps_others, sizes_after_batch, UrlStateDb, MAX_URL_DB_SIZE_BYTES};
use std::collections::VecDeque;
use vstd::prelude::*;

verus! {

/// The state of a domain after one more seed URL: a new domain starts with a
/// count of one, a known domain counts one more.
pub open spec fn seeded_state(found: Option<DomainState>) -> DomainState {
    match found {
        Some(state) => DomainState {
            weight: state.weight,
            status: state.status,
            total_urls: bumped_count(state.total_urls),
        },
        None => DomainState { weight: 0, status: DomainStatus::Pending, total_urls: 1 },
    }
}

/// The domains and URLs of a list of URLs.
pub open spec fn site_ids(urls: Seq<SiteUrl>) -> Seq<UrlId> {
    Seq::new(urls.len(), |i: int| (urls[i].domain@, urls[i].url@))
}

/// The domain states after the first `n` seeds.
pub open spec fn seed_domains(
    domains: Map<Seq<char>, DomainState>,
    seeds: Seq<UrlId>,
    n: int,
) -> Map<Seq<char>, DomainState>
    decreases n,
{
    if n <= 0 {
        domains
    } else {
        let before = seed_domains(domains, seeds, n - 1);
        before.insert(seeds[n - 1].0, seeded_state(lookup(before, seeds[n - 1].0)))
    }
}

/// The URL states after the first `n` seeds: each seed starts afresh.
pub open spec fn seed_urls(urls: Map<UrlId, UrlState>, seeds: Seq<UrlId>, n: int) -> Map<
    UrlId,
    UrlState,
>
    decreases n,
{
    if n <= 0 {
        urls
    } else {
        seed_urls(urls, seeds, n - 1).insert(seeds[n - 1], UrlState::initial())
    }
}

/// The sizes of the shards of URL states after the first `n` seeds, each
/// seed written as a batch of its own.
pub open spec fn seed_sizes(sizes: Seq<u64>, max_shard_bytes: u64, seeds: Seq<UrlId>, n: int) -> Seq<
    u64,
>
    decreases n,
{
    if n <= 0 {
        sizes
    } else {
        sizes_after_batch(
            seed_sizes(sizes, max_shard_bytes, seeds, n - 1),
            max_shard_bytes,
            seeds[n - 1].0,
            seq![(seeds[n - 1].1, UrlState::initial())],
        )
    }
}

/// The state of a domain with another status.
pub open spec fn with_status(found: Option<DomainState>, status: DomainStatus) -> DomainState {
    match found {
        Some(state) => DomainState { weight: state.weight, status, total_urls: state.total_urls },
        None => DomainState { weight: 0, status, total_urls: 0 },
    }
}

/// The domains that wait to be crawled.
pub open spec fn pending_domains(domains: Map<Seq<char>, DomainState>) -> Set<Seq<char>> {
    Set::new(
        |d: Seq<char>| domains.contains_key(d) && domains[d].status == DomainStatus::Pending,
    )
}

/// The texts of a list of strings.
pub open spec fn texts_of(list: Seq<String>) -> Seq<Seq<char>> {
    Seq::new(list.len(), |i: int| list[i]@)
}

/// Whether a text is among the first `n` of a list.
pub open spec fn among(list: Seq<Seq<char>>, n: int, text: Seq<char>) -> bool {
    exists|i: int| 0 <= i < n && #[trigger] list[i] == text
}

/// The domain states after the first `n` sampled domains were marked as
/// being crawled; the other domains are as they were.
pub open spec fn marked(
    domains: Map<Seq<char>, DomainState>,
    sampled: Seq<Seq<char>>,
    n: int,
) -> Map<Seq<char>, DomainState> {
    Map::new(
        |d: Seq<char>| domains.contains_key(d),
        |d: Seq<char>|
            if among(sampled, n, d) {
                with_status(Some(domains[d]), DomainStatus::CrawlInProgress)
            } else {
                domains[d]
            },
    )
}

/// The names of a list of names with weights.
pub open spec fn names_of(order: Seq<(Seq<char>, u64)>) -> Seq<Seq<char>> {
    Seq::new(order.len(), |i: int| order[i].0)
}

/// The weights of a list of names with weights.
pub open spec fn weights_of(order: Seq<(Seq<char>, u64)>) -> Seq<u64> {
    Seq::new(order.len(), |i: int| order[i].1)
}

/// The pending domains among the first `n` of a listing, in its order, each
/// with its weight.
pub open spec fn pending_entries(listing: Seq<(Seq<char>, DomainState)>, n: int) -> Seq<
    (Seq<char>, u64),
>
    decreases n,
{
    if n <= 0 {
        Seq::empty()
    } else if listing[n - 1].1.status == DomainStatus::Pending {
        pending_entries(listing, n - 1).push((listing[n - 1].0, listing[n - 1].1.weight))
    } else {
        pending_entries(listing, n - 1)
    }
}

/// The items that a sampling draws for were sampled by the priorities drawn:
/// the source drew one priority for each item, in order and for its weight,
/// and the names sampled are those of the items of smallest priority.
pub open spec fn sampled_by_draws(
    order: Seq<(Seq<char>, u64)>,
    limit: nat,
    sampled: Seq<Seq<char>>,
    asked_before: Seq<u64>,
    drawn_before: Seq<u64>,
    asked: Seq<u64>,
    drawn: Seq<u64>,
) -> bool {
    &&& drew_for(asked_before, drawn_before, asked, drawn, weights_of(order))
    &&& exists|picks: Seq<int>|
        picks_from(names_of(order), limit, picks, sampled) && picks_smallest(
            drawn.skip(drawn_before.len() as int),
            picks,
        )
}

/// What a sampling of domains does: the sampled domains were pending, none
/// is sampled twice, as many are sampled as there are pending domains or as
/// the limit allows, and the sampled domains are marked as being crawled.
pub open spec fn sampled_from(
    domains: Map<Seq<char>, DomainState>,
    num_jobs: nat,
    sampled: Seq<Seq<char>>,
    after: Map<Seq<char>, DomainState>,
) -> bool {
    &&& sampled.no_duplicates()
    &&& forall|i: int| 0 <= i < sampled.len() ==> pending_domains(domains).contains(#[trigger] sampled[i])
    &&& pending_domains(domains).finite()
    &&& sampled.len() == if pending_domains(domains).len() <= num_jobs {
        pending_domains(domains).len()
    } else {
        num_jobs
    }
    &&& after == marked(domains, sampled, sampled.len() as int)
}

/// A domain that was sampled is not sampled again by the next sampling.
pub proof fn lemma_not_sampled_twice(
    domains: Map<Seq<char>, DomainState>,
    first_jobs: nat,
    first: Seq<Seq<char>>,
    between: Map<Seq<char>, DomainState>,
    second_jobs: nat,
    second: Seq<Seq<char>>,
    after: Map<Seq<char>, DomainState>,
)
    requires
        sampled_from(domains, first_jobs, first, between),
        sampled_from(between, second_jobs, second, after),
    ensures
        forall|i: int, j: int|
            0 <= i < first.len() && 0 <= j < second.len() ==> #[trigger] first[i]
                != #[trigger] second[j],
{
    assert forall|i: int, j: int| 0 <= i < first.len() && 0 <= j < second.len() implies #[trigger] first[i]
        != #[trigger] second[j] by {
        assert(pending_domains(domains).contains(first[i]));
        assert(among(first, first.len() as int, first[i]));
        assert(between[first[i]].status == DomainStatus::CrawlInProgress);
        assert(pending_domains(between).contains(second[j]));
    }
}

/// After a seed was inserted whose domain is new or pending, a sampling with
/// room for every pending domain returns the seed's domain and marks it as
/// being crawled.
pub proof fn lemma_seed_is_sampled(
    domains: Map<Seq<char>, DomainState>,
    domain: Seq<char>,
    url: Seq<char>,
    num_jobs: nat,
    sampled: Seq<Seq<char>>,
    after: Map<Seq<char>, DomainState>,
)
    requires
        domains.contains_key(domain) ==> domains[domain].status == DomainStatus::Pending,
        sampled_from(seed_domains(domains, seq![(domain, url)], 1), num_jobs, sampled, after),
        pending_domains(seed_domains(domains, seq![(domain, url)], 1)).len() <= num_jobs,
    ensures
        sampled.contains(domain),
        after.contains_key(domain),
        after[domain].status == DomainStatus::CrawlInProgress,
{
    let seeds = seq![(domain, url)];
    let seeded = seed_domains(domains, seeds, 1);
    assert(seed_domains(domains, seeds, 0) == domains);
    assert(seeded == domains.insert(domain, seeded_state(lookup(domains, domain))));
    let pending = pending_domains(seeded);
    assert(pending.contains(domain));
    vstd::seq_lib::seq_to_set_is_finite(sampled);
    sampled.unique_seq_to_set();
    assert(sampled.to_set().subset_of(pending)) by {
        assert forall|d: Seq<char>| sampled.to_set().contains(d) implies pending.contains(d) by {
            let i = choose|i: int| 0 <= i < sampled.len() && sampled[i] == d;
            assert(pending.contains(sampled[i]));
        }
    }
    vstd::set_lib::lemma_subset_equality(sampled.to_set(), pending);
    assert(sampled.to_set().contains(domain));
    let i = choose|i: int| 0 <= i < sampled.len() && sampled[i] == domain;
    assert(among(sampled, sampled.len() as int, domain));
}

/// A list that names every member of a set once holds as many as the set.
proof fn lemma_listed_count(set: Set<Seq<char>>, names: Seq<Seq<char>>)
    requires
        names.no_duplicates(),
        forall|j: int| 0 <= j < names.len() ==> set.contains(#[trigger] names[j]),
        forall|d: Seq<char>| set.contains(d) ==> names.contains(d),
    ensures
        set.finite(),
        set.len() == names.len(),
{
    vstd::seq_lib::seq_to_set_is_finite(names);
    names.unique_seq_to_set();
    assert(names.to_set() =~= set);
}

/// The URLs of a domain that wait to be fetched.
pub open spec fn pending_urls(urls: Map<UrlId, UrlState>, domain: Seq<char>) -> Set<Seq<char>> {
    Set::new(
        |u: Seq<char>| urls.contains_key((domain, u)) && urls[(domain, u)].status == UrlStatus::Pending,
    )
}

/// A URL state with its status set to being fetched.
pub open spec fn crawling(state: UrlState) -> UrlState {
    UrlState { weight: state.weight, status: UrlStatus::Crawling }
}

/// The URL states after the first `n` sampled URLs of a domain were marked
/// as being fetched; the other URLs are as they were.
pub open spec fn dispatched(
    urls: Map<UrlId, UrlState>,
    domain: Seq<char>,
    sampled: Seq<Seq<char>>,
    n: int,
) -> Map<UrlId, UrlState> {
    Map::new(
        |id: UrlId| urls.contains_key(id),
        |id: UrlId|
            if id.0 == domain && among(sampled, n, id.1) {
                crawling(urls[id])
            } else {
                urls[id]
            },
    )
}

/// `weight` is the largest weight among the pending URLs of a domain, or zero
/// if the domain has no pending URL.
pub open spec fn heaviest_pending(urls: Map<UrlId, UrlState>, domain: Seq<char>, weight: u64) -> bool {
    &&& forall|u: Seq<char>| #[trigger]
        pending_urls(urls, domain).contains(u) ==> urls[(domain, u)].weight <= weight
    &&& weight == 0 || exists|u: Seq<char>| #[trigger]
        pending_urls(urls, domain).contains(u) && urls[(domain, u)].weight == weight
}

/// The state of a domain with another weight.
pub open spec fn with_weight(found: Option<DomainState>, weight: u64) -> DomainState {
    match found {
        Some(state) => DomainState { weight, status: state.status, total_urls: state.total_urls },
        None => DomainState { weight, status: DomainStatus::Pending, total_urls: 0 },
    }
}

/// What preparing one job does: the job names pending URLs of its domain,
/// none twice, as many as there are or as the limit allows; these URLs are
/// marked as being fetched; and the domain's weight becomes the largest
/// weight among the URLs that are still pending.
pub open spec fn job_step(
    domains: Map<Seq<char>, DomainState>,
    urls: Map<UrlId, UrlState>,
    domain: Seq<char>,
    urls_per_job: nat,
    job: Job,
    new_domains: Map<Seq<char>, DomainState>,
    new_urls: Map<UrlId, UrlState>,
) -> bool {
    &&& job.domain@ == domain
    &&& !job.fetch_sitemap
    &&& texts_of(job.urls@).no_duplicates()
    &&& forall|i: int|
        0 <= i < job.urls@.len() ==> pending_urls(urls, domain).contains(#[trigger] job.urls@[i]@)
    &&& pending_urls(urls, domain).finite()
    &&& job.urls@.len() == if pending_urls(urls, domain).len() <= urls_per_job {
        pending_urls(urls, domain).len()
    } else {
        urls_per_job
    }
    &&& new_urls == dispatched(urls, domain, texts_of(job.urls@), job.urls@.len() as int)
    &&& new_domains.dom() == domains.dom().insert(domain)
    &&& forall|d: Seq<char>| d != domain && #[trigger] domains.contains_key(d) ==> new_domains[d] == domains[d]
    &&& new_domains[domain] == with_weight(lookup(domains, domain), new_domains[domain].weight)
    &&& heaviest_pending(new_urls, domain, new_domains[domain].weight)
}

/// The batch that marks the URLs of a job as being fetched: each URL, in the
/// job's order, with its state as it was and the status set.
pub open spec fn dispatch_batch(urls: Map<UrlId, UrlState>, domain: Seq<char>, names: Seq<Seq<char>>) -> Seq<
    (Seq<char>, UrlState),
> {
    Seq::new(names.len(), |i: int| (names[i], crawling(urls[(domain, names[i])])))
}

/// The sizes of the shards of URL states after a job was prepared: the
/// job's URLs were written as one batch.
pub open spec fn job_sizes(
    sizes: Seq<u64>,
    max_shard_bytes: u64,
    urls: Map<UrlId, UrlState>,
    domain: Seq<char>,
    job: Job,
) -> Seq<u64> {
    sizes_after_batch(sizes, max_shard_bytes, domain, dispatch_batch(urls, domain, texts_of(job.urls@)))
}

/// A list names the pending URLs of a domain, each once and with its weight.
pub open spec fn lists_pending(
    order: Seq<(Seq<char>, u64)>,
    urls: Map<UrlId, UrlState>,
    domain: Seq<char>,
) -> bool {
    &&& names_of(order).no_duplicates()
    &&& forall|j: int|
        0 <= j < order.len() ==> pending_urls(urls, domain).contains((#[trigger] order[j]).0)
            && order[j].1 == urls[(domain, order[j].0)].weight
    &&& forall|u: Seq<char>| pending_urls(urls, domain).contains(u) ==> names_of(order).contains(u)
}

/// The URLs of a job were sampled by the priorities drawn: one priority was
/// drawn for each pending URL of the domain, in some order and for its
/// weight, and the job's URLs are those of smallest priority.
pub open spec fn job_draws(
    urls: Map<UrlId, UrlState>,
    domain: Seq<char>,
    urls_per_job: nat,
    job: Job,
    asked_before: Seq<u64>,
    drawn_before: Seq<u64>,
    asked: Seq<u64>,
    drawn: Seq<u64>,
) -> bool {
    exists|order: Seq<(Seq<char>, u64)>| #[trigger]
        lists_pending(order, urls, domain) && sampled_by_draws(
            order,
            urls_per_job,
            texts_of(job.urls@),
            asked_before,
            drawn_before,
            asked,
            drawn,
        )
}

/// A frontier and its source of priorities at one point of time, as far as
/// preparing jobs changes them.
pub struct JobPoint {
    pub domains: Map<Seq<char>, DomainState>,
    pub urls: Map<UrlId, UrlState>,
    pub sizes: Seq<u64>,
    pub asked: Seq<u64>,
    pub drawn: Seq<u64>,
}

/// The states that a frontier went through while it prepared jobs for a list
/// of domains, one after the other: each job is prepared in the state that
/// the job before it left.
pub open spec fn job_trace(
    trace: Seq<JobPoint>,
    max_shard_bytes: u64,
    domains: Seq<Seq<char>>,
    urls_per_job: nat,
    jobs: Seq<Job>,
) -> bool {
    &&& jobs.len() == domains.len()
    &&& trace.len() == jobs.len() + 1
    &&& forall|i: int|
        0 <= i < jobs.len() ==> job_step(
            trace[i].domains,
            trace[i].urls,
            domains[i],
            urls_per_job,
            #[trigger] jobs[i],
            trace[i + 1].domains,
            trace[i + 1].urls,
        ) && trace[i + 1].sizes == job_sizes(
            trace[i].sizes,
            max_shard_bytes,
            trace[i].urls,
            domains[i],
            jobs[i],
        ) && job_draws(
            trace[i].urls,
            domains[i],
            urls_per_job,
            jobs[i],
            trace[i].asked,
            trace[i].drawn,
            trace[i + 1].asked,
            trace[i + 1].drawn,
        )
}

/// Every URL of the first `n` jobs is known and marked as being fetched.
pub open spec fn jobs_dispatched(urls: Map<UrlId, UrlState>, jobs: Seq<Job>, n: int) -> bool {
    forall|i: int, j: int|
        0 <= i < n && 0 <= j < jobs[i].urls@.len() ==> urls.contains_key(
            (jobs[i].domain@, #[trigger] jobs[i].urls@[j]@),
        ) && urls[(jobs[i].domain@, jobs[i].urls@[j]@)].status == UrlStatus::Crawling
}

/// The names in a list of URLs with their weights or states.
pub open spec fn listed_names<S>(list: Seq<(UrlString, S)>) -> Seq<Seq<char>> {
    Seq::new(list.len(), |i: int| list[i].0@)
}

/// Writing, for each sampled URL, its state with the status set to being
/// fetched marks exactly the sampled URLs.
proof fn lemma_batch_dispatches(
    urls: Map<UrlId, UrlState>,
    domain: Seq<char>,
    batch: Seq<(Seq<char>, UrlState)>,
    names: Seq<Seq<char>>,
    n: int,
)
    requires
        0 <= n <= batch.len(),
        batch.len() == names.len(),
        forall|i: int|
            0 <= i < batch.len() ==> urls.contains_key((domain, #[trigger] names[i])) && batch[i] == (
                names[i],
                crawling(urls[(domain, names[i])]),
            ),
    ensures
        apply_batch(urls, domain, batch, n) == dispatched(urls, domain, names, n),
    decreases n,
{
    if n <= 0 {
        assert(apply_batch(urls, domain, batch, n) =~= dispatched(urls, domain, names, n));
    } else {
        lemma_batch_dispatches(urls, domain, batch, names, n - 1);
        lemma_among_next(names, n - 1);
        assert(urls.contains_key((domain, names[n - 1])));
        assert(dispatched(urls, domain, names, n - 1).insert(
            (domain, batch[n - 1].0),
            batch[n - 1].1,
        ) =~= dispatched(urls, domain, names, n));
    }
}

/// A text is among the first `n + 1` of a list when it is among the first `n`
/// or is the next one.
proof fn lemma_among_next(list: Seq<Seq<char>>, n: int)
    requires
        0 <= n < list.len(),
    ensures
        forall|d: Seq<char>| among(list, n + 1, d) <==> (among(list, n, d) || d == list[n]),
{
    assert forall|d: Seq<char>| among(list, n + 1, d) <==> (among(list, n, d) || d == list[n]) by {
        if among(list, n + 1, d) {
            let w = choose|w: int| 0 <= w < n + 1 && #[trigger] list[w] == d;
            if w < n {
                assert(among(list, n, d));
            }
        }
        if among(list, n, d) {
            let w = choose|w: int| 0 <= w < n && #[trigger] list[w] == d;
            assert(0 <= w < n + 1 && list[w] == d);
        }
        if d == list[n] {
            assert(0 <= n < n + 1 && list[n] == d);
        }
    }
}

/// Whether a name is that of a pending URL among the first `n` of a listing.
pub open spec fn pending_among(listing: Seq<(UrlString, UrlState)>, n: int, name: Seq<char>) -> bool {
    exists|x: int|
        0 <= x < n && (#[trigger] listing[x]).1.status == UrlStatus::Pending && listing[x].0@ == name
}

/// Whether a pending URL of that name and weight is in a listing.
pub open spec fn weighted_among(listing: Seq<(UrlString, UrlState)>, name: Seq<char>, weight: u64) -> bool {
    exists|x: int|
        0 <= x < listing.len() && (#[trigger] listing[x]).1.status == UrlStatus::Pending
            && listing[x].0@ == name && listing[x].1.weight == weight
}

/// Copies the pending URLs out of a listing, each with its weight.
fn pending_of(listing: &Vec<(UrlString, UrlState)>) -> (pending: Vec<(UrlString, u64)>)
    requires
        listed_names(listing@).no_duplicates(),
    ensures
        listed_names(pending@).no_duplicates(),
        forall|j: int|
            0 <= j < pending@.len() ==> weighted_among(
                listing@,
                (#[trigger] pending@[j]).0@,
                pending@[j].1,
            ),
        forall|j: int|
            0 <= j < pending@.len() ==> pending_among(
                listing@,
                listing@.len() as int,
                #[trigger] listed_names(pending@)[j],
            ),
        forall|i: int|
            0 <= i < listing@.len() && (#[trigger] listing@[i]).1.status == UrlStatus::Pending
                ==> listed_names(pending@).contains(listing@[i].0@),
{
    let mut pending: Vec<(UrlString, u64)> = Vec::new();
    let ghost src = listed_names(listing@);
    let mut i: usize = 0;
    while i < listing.len()
        invariant
            i <= listing@.len(),
            src == listed_names(listing@),
            src.no_duplicates(),
            listed_names(pending@).no_duplicates(),
            forall|j: int|
                0 <= j < pending@.len() ==> weighted_among(
                    listing@,
                    (#[trigger] pending@[j]).0@,
                    pending@[j].1,
                ),
            forall|j: int|
                0 <= j < pending@.len() ==> pending_among(
                    listing@,
                    i as int,
                    #[trigger] listed_names(pending@)[j],
                ),
            forall|x: int|
                0 <= x < i && (#[trigger] listing@[x]).1.status == UrlStatus::Pending ==> listed_names(
                    pending@,
                ).contains(listing@[x].0@),
        decreases listing@.len() - i,
    {
        let ghost before = listed_names(pending@);
        proof {
            assert forall|j: int| 0 <= j < before.len() implies pending_among(
                listing@,
                i as int + 1,
                #[trigger] before[j],
            ) by {
                assert(pending_among(listing@, i as int, before[j]));
                let x = choose|x: int|
                    0 <= x < i && (#[trigger] listing@[x]).1.status == UrlStatus::Pending
                        && listing@[x].0@ == before[j];
                assert(0 <= x < i + 1);
            }
        }
        match listing[i].1.status {
            UrlStatus::Pending => {
                let ghost held = pending@;
                pending.push((listing[i].0.clone(), listing[i].1.weight));
                proof {
                    assert forall|j: int| 0 <= j < pending@.len() implies weighted_among(
                        listing@,
                        (#[trigger] pending@[j]).0@,
                        pending@[j].1,
                    ) by {
                        if j < held.len() {
                            assert(pending@[j] == held[j]);
                        } else {
                            assert(listing@[i as int].1.status == UrlStatus::Pending);
                        }
                    }
                    let after = listed_names(pending@);
                    assert(after =~= before.push(src[i as int]));
                    assert(listing@[i as int].0@ == src[i as int]);
                    assert forall|a: int, b: int|
                        0 <= a < after.len() && 0 <= b < after.len() && a != b implies after[a]
                        != after[b] by {
                        if a == before.len() {
                            assert(pending_among(listing@, i as int, before[b]));
                            let x = choose|x: int|
                                0 <= x < i && (#[trigger] listing@[x]).1.status == UrlStatus::Pending
                                    && listing@[x].0@ == before[b];
                            assert(src[x] == before[b]);
                        } else if b == before.len() {
                            assert(pending_among(listing@, i as int, before[a]));
                            let x = choose|x: int|
                                0 <= x < i && (#[trigger] listing@[x]).1.status == UrlStatus::Pending
                                    && listing@[x].0@ == before[a];
                            assert(src[x] == before[a]);
                        }
                    }
                    assert forall|x: int|
                        0 <= x < i + 1 && (#[trigger] listing@[x]).1.status
                            == UrlStatus::Pending implies after.contains(listing@[x].0@) by {
                        if x < i {
                            assert(before.contains(listing@[x].0@));
                            let w = choose|w: int| 0 <= w < before.len() && before[w] == listing@[x].0@;
                            assert(after[w] == listing@[x].0@);
                        } else {
                            assert(after[before.len() as int] == listing@[x].0@);
                        }
                    }
                }
            },
            _ => {},
        }
        i += 1;
    }
    pending
}

/// The largest weight among the pending URLs of a listing, or zero.
fn heaviest_of(listing: &Vec<(UrlString, UrlState)>) -> (weight: u64)
    ensures
        forall|i: int|
            0 <= i < listing@.len() && (#[trigger] listing@[i]).1.status == UrlStatus::Pending
                ==> listing@[i].1.weight <= weight,
        weight == 0 || exists|i: int|
            0 <= i < listing@.len() && (#[trigger] listing@[i]).1.status == UrlStatus::Pending
                && listing@[i].1.weight == weight,
{
    let mut weight: u64 = 0;
    let mut i: usize = 0;
    while i < listing.len()
        invariant
            i <= listing@.len(),
            forall|x: int|
                0 <= x < i && (#[trigger] listing@[x]).1.status == UrlStatus::Pending
                    ==> listing@[x].1.weight <= weight,
            weight == 0 || exists|x: int|
                0 <= x < i && (#[trigger] listing@[x]).1.status == UrlStatus::Pending
                    && listing@[x].1.weight == weight,
        decreases listing@.len() - i,
    {
        match listing[i].1.status {
            UrlStatus::Pending => {
                if listing[i].1.weight > weight {
                    weight = listing[i].1.weight;
                }
            },
            _ => {},
        }
        i += 1;
    }
    weight
}

/// The crawl frontier.
pub struct CrawlDb {
    domain_state: DomainStateDb,
    urls: UrlStateDb,
    redirects: RedirectDb,
}

impl CrawlDb {
    /// The state of each known domain.
    pub closed spec fn domain_states(&self) -> Map<Seq<char>, DomainState> {
        self.domain_state@
    }

    /// The state of each known URL, by domain and URL.
    pub closed spec fn url_states(&self) -> Map<UrlId, UrlState> {
        self.urls@
    }

    /// The recorded redirects, from source URL to target URL.
    pub closed spec fn redirect_map(&self) -> Map<Seq<char>, Seq<char>> {
        self.redirects@
    }

    /// The size past which the newest shard of URL states takes no further
    /// batch.
    pub closed spec fn max_shard_bytes(&self) -> u64 {
        self.urls.max_shard_bytes()
    }

    /// The sizes of the shards of URL states, oldest shard first.
    pub closed spec fn shard_sizes(&self) -> Seq<u64> {
        self.urls.shard_sizes()
    }

    /// The known domains with their states, in the order of the store.
    pub closed spec fn domain_listing(&self) -> Seq<(Seq<char>, DomainState)> {
        self.domain_state.listing()
    }

    /// The frontier, with what a source of priorities has been asked and has
    /// drawn, as far as preparing jobs changes them.
    pub open spec fn job_point(&self, asked: Seq<u64>, drawn: Seq<u64>) -> JobPoint {
        JobPoint {
            domains: self.domain_states(),
            urls: self.url_states(),
            sizes: self.shard_sizes(),
            asked,
            drawn,
        }
    }

    /// The frontier is well formed when its stores are.
    pub closed spec fn wf(&self) -> bool {
        &&& self.domain_state.wf()
        &&& self.urls.wf()
        &&& self.redirects.wf()
    }

    /// An empty frontier.
    pub fn new() -> (db: Self)
        ensures
            db.wf(),
            db.domain_states() == Map::<Seq<char>, DomainState>::empty(),
            db.url_states() == Map::<UrlId, UrlState>::empty(),
            db.redirect_map() == Map::<Seq<char>, Seq<char>>::empty(),
            db.max_shard_bytes() == MAX_URL_DB_SIZE_BYTES,
            db.shard_sizes() == seq![0u64],
            consistent(db.domain_states(), db.url_states()),
    {
        proof {
            lemma_nothing_is_consistent();
        }
        CrawlDb { domain_state: DomainStateDb::new(), urls: UrlStateDb::new(), redirects: RedirectDb::new() }
    }

    /// An empty frontier whose URL shards roll over at a size of the caller's
    /// choosing.
    pub fn with_shard_cap(max_shard_bytes: u64) -> (db: Self)
        ensures
            db.wf(),
            db.domain_states() == Map::<Seq<char>, DomainState>::empty(),
            db.url_states() == Map::<UrlId, UrlState>::empty(),
            db.redirect_map() == Map::<Seq<char>, Seq<char>>::empty(),
            db.max_shard_bytes() == max_shard_bytes,
            db.shard_sizes() == seq![0u64],
            consistent(db.domain_states(), db.url_states()),
    {
        proof {
            lemma_nothing_is_consistent();
        }
        CrawlDb {
            domain_state: DomainStateDb::new(),
            urls: UrlStateDb::with_shard_cap(max_shard_bytes),
            redirects: RedirectDb::new(),
        }
    }

    /// A frontier over stores that exist already.
    pub fn from_stores(domain_state: DomainStateDb, urls: UrlStateDb, redirects: RedirectDb) -> (db:
        Self)
        requires
            domain_state.wf(),
            urls.wf(),
            redirects.wf(),
        ensures
            db.wf(),
            db.domain_states() == domain_state@,
            db.url_states() == urls@,
            db.redirect_map() == redirects@,
            db.max_shard_bytes() == urls.max_shard_bytes(),
            db.shard_sizes() == urls.shard_sizes(),
    {
        CrawlDb { domain_state, urls, redirects }
    }

    /// Takes a measured size for the newest shard of URL states in place of
    /// the size counted so far.
    pub fn report_size(&mut self, bytes: u64)
        requires
            old(self).wf(),
        ensures
            final(self).wf(),
            final(self).max_shard_bytes() == old(self).max_shard_bytes(),
            final(self).domain_states() == old(self).domain_states(),
            final(self).url_states() == old(self).url_states(),
            final(self).redirect_map() == old(self).redirect_map(),
            final(self).shard_sizes() == old(self).shard_sizes().drop_last().push(bytes),
    {
        self.urls.report_size(bytes);
    }

    /// The store of domain states.
    pub fn domain_state(&self) -> (store: &DomainStateDb)
        ensures
            store@ == self.domain_states(),
            store.listing() == self.domain_listing(),
            self.wf() ==> store.wf(),
    {
        &self.domain_state
    }

    /// The store of URL states.
    pub fn urls(&self) -> (store: &UrlStateDb)
        ensures
            store@ == self.url_states(),
            store.max_shard_bytes() == self.max_shard_bytes(),
            store.shard_sizes() == self.shard_sizes(),
            self.wf() ==> store.wf(),
    {
        &self.urls
    }

    /// The store of redirects.
    pub fn redirects(&self) -> (store: &RedirectDb)
        ensures
            store@ == self.redirect_map(),
            self.wf() ==> store.wf(),
    {
        &self.redirects
    }

    /// Inserts seed URLs. Each seed counts one more URL for its domain, which
    /// is created as pending if it was unknown, and the URL itself starts
    /// afresh as pending with weight zero, whatever was known of it.
    pub fn insert_seed_urls(&mut self, urls: &Vec<SiteUrl>)
        requires
            old(self).wf(),
        ensures
            final(self).wf(),
            final(self).max_shard_bytes() == old(self).max_shard_bytes(),
            consistent(old(self).domain_states(), old(self).url_states()) ==> consistent(
                final(self).domain_states(),
                final(self).url_states(),
            ),
            final(self).domain_states() == seed_domains(
                old(self).domain_states(),
                site_ids(urls@),
                urls@.len() as int,
            ),
            final(self).url_states() == seed_urls(
                old(self).url_states(),
                site_ids(urls@),
                urls@.len() as int,
            ),
            final(self).shard_sizes() == seed_sizes(
                old(self).shard_sizes(),
                old(self).max_shard_bytes(),
                site_ids(urls@),
                urls@.len() as int,
            ),
            final(self).redirect_map() == old(self).redirect_map(),
    {
        let ghost seeds = site_ids(urls@);
        let mut i: usize = 0;
        while i < urls.len()
            invariant
                i <= urls@.len(),
                seeds == site_ids(urls@),
                self.wf(),
                self.max_shard_bytes() == old(self).max_shard_bytes(),
                consistent(old(self).domain_states(), old(self).url_states()) ==> consistent(
                    self.domain_states(),
                    self.url_states(),
                ),
                self.domain_states() == seed_domains(old(self).domain_states(), seeds, i as int),
                self.url_states() == seed_urls(old(self).url_states(), seeds, i as int),
                self.shard_sizes() == seed_sizes(
                    old(self).shard_sizes(),
                    old(self).max_shard_bytes(),
                    seeds,
                    i as int,
                ),
                self.redirect_map() == old(self).redirect_map(),
            decreases urls@.len() - i,
        {
            let domain = &urls[i].domain;
            let url = &urls[i].url;
            assert(seeds[i as int] == (domain@, url@));
            let state = match self.domain_state.get(domain) {
                Some(state) => DomainState {
                    weight: state.weight,
                    status: state.status,
                    total_urls: if state.total_urls < u64::MAX {
                        state.total_urls + 1
                    } else {
                        state.total_urls
                    },
                },
                None => DomainState { weight: 0, status: DomainStatus::Pending, total_urls: 1 },
            };
            self.domain_state.put(domain, &state);
            let batch: Vec<(UrlString, UrlState)> = vec![(url.clone(), UrlState::default())];
            let ghost before = self.urls@;
            self.urls.put_batch(domain, &batch);
            proof {
                let b = batch_view(batch@);
                assert(b[0] == (url@, UrlState::initial()));
                assert(b =~= seq![(url@, UrlState::initial())]);
                assert(apply_batch(before, domain@, b, 0) == before);
                assert(apply_batch(before, domain@, b, 1) == before.insert(
                    (domain@, url@),
                    UrlState::initial(),
                ));
                if consistent(old(self).domain_states(), old(self).url_states()) {
                    lemma_seeds_keep_consistent(
                        old(self).domain_states(),
                        old(self).url_states(),
                        seeds,
                        i as int + 1,
                    );
                }
            }
            i += 1;
        }
    }

    /// Sets the status of a domain, which is created with weight zero and no
    /// URLs if it was unknown.
    pub fn set_domain_status(&mut self, domain: &Domain, status: DomainStatus)
        requires
            old(self).wf(),
        ensures
            final(self).wf(),
            final(self).max_shard_bytes() == old(self).max_shard_bytes(),
            consistent(old(self).domain_states(), old(self).url_states()) ==> consistent(
                final(self).domain_states(),
                final(self).url_states(),
            ),
            final(self).domain_states() == old(self).domain_states().insert(
                domain@,
                with_status(lookup(old(self).domain_states(), domain@), status),
            ),
            final(self).url_states() == old(self).url_states(),
            final(self).shard_sizes() == old(self).shard_sizes(),
            final(self).redirect_map() == old(self).redirect_map(),
    {
        let state = match self.domain_state.get(domain) {
            Some(state) => DomainState { weight: state.weight, status, total_urls: state.total_urls },
            None => DomainState { weight: 0, status, total_urls: 0 },
        };
        self.domain_state.put(domain, &state);
        proof {
            if consistent(old(self).domain_states(), old(self).url_states()) {
                lemma_status_keeps_consistent(
                    old(self).domain_states(),
                    old(self).url_states(),
                    domain@,
                    status,
                );
            }
        }
    }

    /// Samples up to `num_jobs` of the pending domains, by weight, and marks
    /// each sampled domain as being crawled. Every domain returned was pending,
    /// none is returned twice, and as many are returned as there are pending
    /// domains, or `num_jobs` if there are more.
    pub fn sample_domains<R: PrioritySource>(
        &mut self,
        num_jobs: usize,
        source: &mut Recorded<R>,
    ) -> (sampled: Vec<Domain>)
        requires
            old(self).wf(),
        ensures
            final(self).wf(),
            final(self).max_shard_bytes() == old(self).max_shard_bytes(),
            consistent(old(self).domain_states(), old(self).url_states()) ==> consistent(
                final(self).domain_states(),
                final(self).url_states(),
            ),
            sampled_from(
                old(self).domain_states(),
                num_jobs as nat,
                texts_of(sampled@),
                final(self).domain_states(),
            ),
            sampled_by_draws(
                pending_entries(
                    old(self).domain_listing(),
                    old(self).domain_listing().len() as int,
                ),
                num_jobs as nat,
                texts_of(sampled@),
                old(source).asked(),
                old(source).drawn(),
                final(source).asked(),
                final(source).drawn(),
            ),
            final(self).url_states() == old(self).url_states(),
            final(self).shard_sizes() == old(self).shard_sizes(),
            final(self).redirect_map() == old(self).redirect_map(),
    {
        let ghost domains = self.domain_states();
        let ghost listing = self.domain_state.domains();
        let ghost states = self.domain_state.states();
        let ghost pairs = self.domain_state.listing();
        let ghost asked_before = source.asked();
        let ghost drawn_before = source.drawn();
        proof {
            self.domain_state.lemma_listing();
            assert(texts_of(Seq::<Domain>::empty()) =~= names_of(pending_entries(pairs, 0)));
            assert(asked_before + weights_of(pending_entries(pairs, 0)) =~= asked_before);
            assert(source.drawn().skip(drawn_before.len() as int) =~= Seq::<u64>::empty());
            assert(source.drawn().take(drawn_before.len() as int) =~= drawn_before);
        }
        let total = self.domain_state.len();
        let mut reservoir: Reservoir<Domain> = Reservoir::new(num_jobs);
        let mut i: usize = 0;
        while i < total
            invariant
                i <= total,
                self.wf(),
                self.max_shard_bytes() == old(self).max_shard_bytes(),
                self.domain_states() == domains,
                self.domain_state@ == domains,
                self.domain_state.wf(),
                listing == self.domain_state.domains(),
                states == self.domain_state.states(),
                total == listing.len(),
                total == states.len(),
                forall|x: int|
                    0 <= x < listing.len() ==> domains.contains_key(#[trigger] listing[x])
                        && domains[listing[x]] == states[x],
                forall|x: int, y: int|
                    0 <= x < y < listing.len() ==> #[trigger] listing[x] != #[trigger] listing[y],
                reservoir.wf(),
                reservoir.capacity() == num_jobs,
                pairs == self.domain_state.listing(),
                texts_of(reservoir.offered()) == names_of(pending_entries(pairs, i as int)),
                reservoir.priorities() == source.drawn().skip(drawn_before.len() as int),
                source.asked() == asked_before + weights_of(pending_entries(pairs, i as int)),
                source.drawn().len() == drawn_before.len() + pending_entries(pairs, i as int).len(),
                source.drawn().take(drawn_before.len() as int) == drawn_before,
                texts_of(reservoir.offered()).no_duplicates(),
                forall|j: int|
                    0 <= j < reservoir.offered().len() ==> pending_domains(domains).contains(
                        #[trigger] texts_of(reservoir.offered())[j],
                    ) && among(listing, i as int, texts_of(reservoir.offered())[j]),
                forall|x: int|
                    0 <= x < i && pending_domains(domains).contains(#[trigger] listing[x]) ==> texts_of(
                        reservoir.offered(),
                    ).contains(listing[x]),
            decreases total - i,
        {
            let ghost before = texts_of(reservoir.offered());
            let state = self.domain_state.state_at(i);
            proof {
                assert(domains[listing[i as int]] == states[i as int]);
                assert forall|j: int| 0 <= j < before.len() implies among(
                    listing,
                    i as int + 1,
                    #[trigger] before[j],
                ) by {
                    assert(among(listing, i as int, before[j]));
                    let w = choose|w: int| 0 <= w < i && #[trigger] listing[w] == before[j];
                    assert(0 <= w < i + 1 && listing[w] == before[j]);
                }
            }
            match state.status {
                DomainStatus::Pending => {
                    let domain = self.domain_state.domain_at(i);
                    let ghost drawn = source.drawn();
                    let ghost entries = pending_entries(pairs, i as int);
                    let priority = source.draw(state.weight);
                    reservoir.offer(domain, priority);
                    proof {
                        let after = texts_of(reservoir.offered());
                        assert(after =~= before.push(listing[i as int]));
                        let grown = pending_entries(pairs, i as int + 1);
                        assert(pairs[i as int] == (listing[i as int], states[i as int]));
                        assert(grown == entries.push((listing[i as int], state.weight)));
                        assert(names_of(grown) =~= names_of(entries).push(listing[i as int]));
                        assert(weights_of(grown) =~= weights_of(entries).push(state.weight));
                        assert(source.asked() =~= asked_before + weights_of(grown));
                        assert(drawn.push(priority).skip(drawn_before.len() as int) =~= drawn.skip(
                            drawn_before.len() as int,
                        ).push(priority));
                        assert(drawn.push(priority).take(drawn_before.len() as int) =~= drawn.take(
                            drawn_before.len() as int,
                        ));
                        assert forall|a: int, b: int|
                            0 <= a < after.len() && 0 <= b < after.len() && a != b implies after[a]
                            != after[b] by {
                            if a == before.len() {
                                assert(among(listing, i as int, before[b]));
                                let w = choose|w: int| 0 <= w < i && #[trigger] listing[w] == before[b];
                                assert(listing[w] != listing[i as int]);
                            } else if b == before.len() {
                                assert(among(listing, i as int, before[a]));
                                let w = choose|w: int| 0 <= w < i && #[trigger] listing[w] == before[a];
                                assert(listing[w] != listing[i as int]);
                            }
                        }
                        assert forall|j: int| 0 <= j < after.len() implies pending_domains(
                            domains,
                        ).contains(#[trigger] after[j]) && among(listing, i as int + 1, after[j]) by {
                            if j < before.len() {
                                assert(after[j] == before[j]);
                            } else {
                                assert(0 <= i < i + 1 && listing[i as int] == after[j]);
                            }
                        }
                        assert forall|x: int|
                            0 <= x < i + 1 && pending_domains(domains).contains(
                                #[trigger] listing[x],
                            ) implies after.contains(listing[x]) by {
                            if x < i {
                                assert(before.contains(listing[x]));
                                let w = choose|w: int| 0 <= w < before.len() && before[w] == listing[x];
                                assert(after[w] == listing[x]);
                            } else {
                                assert(after[before.len() as int] == listing[x]);
                            }
                        }
                    }
                },
                _ => {
                    proof {
                        assert(pairs[i as int] == (listing[i as int], states[i as int]));
                    }
                },
            }
            i += 1;
        }
        let ghost stream = reservoir.offered();
        let ghost names = texts_of(stream);
        let ghost picks = reservoir.picks();
        proof {
            assert forall|d: Seq<char>| pending_domains(domains).contains(d) implies names.contains(
                d,
            ) by {
                let x = choose|x: int| 0 <= x < listing.len() && #[trigger] listing[x] == d;
                assert(names.contains(listing[x]));
            }
            lemma_listed_count(pending_domains(domains), names);
            reservoir.lemma_holds_smallest();
        }
        let sampled = reservoir.into_items();
        proof {
            assert forall|i: int| 0 <= i < sampled@.len() implies #[trigger] texts_of(sampled@)[i]
                == names[picks[i]] by {
                assert(sampled@[i] == stream[picks[i]]);
            }
            assert(picks_from(names, num_jobs as nat, picks, texts_of(sampled@)));
            assert(old(self).domain_listing() == pairs);
            assert(total == pairs.len());
            assert(sampled_by_draws(
                pending_entries(pairs, pairs.len() as int),
                num_jobs as nat,
                texts_of(sampled@),
                asked_before,
                drawn_before,
                source.asked(),
                source.drawn(),
            ));
            assert forall|a: int, b: int|
                0 <= a < sampled@.len() && 0 <= b < sampled@.len() && a != b implies texts_of(
                sampled@,
            )[a] != texts_of(sampled@)[b] by {
                assert(texts_of(sampled@)[a] == names[picks[a]]);
                assert(texts_of(sampled@)[b] == names[picks[b]]);
                if a < b {
                    assert(picks[a] != picks[b]);
                } else {
                    assert(picks[b] != picks[a]);
                }
            }
            assert forall|i: int| 0 <= i < sampled@.len() implies pending_domains(domains).contains(
                #[trigger] sampled@[i]@,
            ) by {
                assert(texts_of(sampled@)[i] == names[picks[i]]);
            }
            assert(self.domain_states() =~= marked(domains, texts_of(sampled@), 0));
        }
        let mut i: usize = 0;
        while i < sampled.len()
            invariant
                i <= sampled@.len(),
                self.wf(),
                self.max_shard_bytes() == old(self).max_shard_bytes(),
                consistent(old(self).domain_states(), old(self).url_states()) ==> consistent(
                    self.domain_states(),
                    self.url_states(),
                ),
                domains == old(self).domain_states(),
                texts_of(sampled@).no_duplicates(),
                forall|j: int|
                    0 <= j < sampled@.len() ==> pending_domains(domains).contains(
                        #[trigger] sampled@[j]@,
                    ),
                self.domain_states() == marked(domains, texts_of(sampled@), i as int),
                self.url_states() == old(self).url_states(),
                self.shard_sizes() == old(self).shard_sizes(),
                self.redirect_map() == old(self).redirect_map(),
            decreases sampled@.len() - i,
        {
            let domain = &sampled[i];
            let ghost list = texts_of(sampled@);
            proof {
                assert(list[i as int] == domain@);
                assert(pending_domains(domains).contains(sampled@[i as int]@));
                assert(!among(list, i as int, domain@)) by {
                    if among(list, i as int, domain@) {
                        let w = choose|w: int| 0 <= w < i && #[trigger] list[w] == domain@;
                        assert(list[w] != list[i as int]);
                    }
                }
            }
            let state = match self.domain_state.get(domain) {
                Some(state) => DomainState {
                    weight: state.weight,
                    status: DomainStatus::CrawlInProgress,
                    total_urls: state.total_urls,
                },
                None => DomainState { weight: 0, status: DomainStatus::CrawlInProgress, total_urls: 0 },
            };
            self.domain_state.put(domain, &state);
            proof {
                lemma_among_next(list, i as int);
                assert(self.domain_states() =~= marked(domains, list, i as int + 1));
                if consistent(domains, old(self).url_states()) {
                    lemma_marking_keeps_consistent(domains, old(self).url_states(), list, i as int + 1);
                }
            }
            i += 1;
        }
        proof {
            assert forall|j: int| 0 <= j < sampled@.len() implies pending_domains(domains).contains(
                #[trigger] texts_of(sampled@)[j],
            ) by {
                assert(pending_domains(domains).contains(sampled@[j]@));
            }
        }
        sampled
    }
}

impl CrawlDb {
    /// Prepares one job for a domain: samples up to `urls_per_job` of the
    /// domain's pending URLs by weight, marks them as being fetched, sets the
    /// domain's weight to the largest weight among the URLs still pending, and
    /// hands out the sampled URLs in the sampler's order.
    pub fn prepare_job<R: PrioritySource>(
        &mut self,
        domain: &Domain,
        urls_per_job: usize,
        source: &mut Recorded<R>,
    ) -> (job: Job)
        requires
            old(self).wf(),
        ensures
            final(self).wf(),
            final(self).max_shard_bytes() == old(self).max_shard_bytes(),
            consistent(old(self).domain_states(), old(self).url_states()) ==> consistent(
                final(self).domain_states(),
                final(self).url_states(),
            ),
            job_step(
                old(self).domain_states(),
                old(self).url_states(),
                domain@,
                urls_per_job as nat,
                job,
                final(self).domain_states(),
                final(self).url_states(),
            ),
            final(self).shard_sizes() == job_sizes(
                old(self).shard_sizes(),
                old(self).max_shard_bytes(),
                old(self).url_states(),
                domain@,
                job,
            ),
            job_draws(
                old(self).url_states(),
                domain@,
                urls_per_job as nat,
                job,
                old(source).asked(),
                old(source).drawn(),
                final(source).asked(),
                final(source).drawn(),
            ),
            final(self).redirect_map() == old(self).redirect_map(),
    {
        let ghost states = self.url_states();
        let ghost domains = self.domain_states();
        let listing = self.urls.get_all_urls(domain);
        proof {
            assert forall|a: int, b: int|
                0 <= a < listing@.len() && 0 <= b < listing@.len() && a != b implies listed_names(
                listing@,
            )[a] != listed_names(listing@)[b] by {
                if a < b {
                    assert(listing@[a].0@ != listing@[b].0@);
                } else {
                    assert(listing@[b].0@ != listing@[a].0@);
                }
            }
        }
        let available = pending_of(&listing);
        let ghost names = listed_names(available@);
        proof {
            assert forall|j: int| 0 <= j < names.len() implies pending_urls(states, domain@).contains(
                #[trigger] names[j],
            ) by {
                assert(pending_among(listing@, listing@.len() as int, names[j]));
                let x = choose|x: int|
                    0 <= x < listing@.len() && (#[trigger] listing@[x]).1.status == UrlStatus::Pending
                        && listing@[x].0@ == names[j];
                assert(states.contains_key((domain@, listing@[x].0@)));
            }
            assert forall|u: Seq<char>| pending_urls(states, domain@).contains(u) implies names.contains(
                u,
            ) by {
                let x = choose|x: int| 0 <= x < listing@.len() && (#[trigger] listing@[x]).0@ == u;
                assert(states[(domain@, listing@[x].0@)] == listing@[x].1);
                assert(names.contains(listing@[x].0@));
            }
            lemma_listed_count(pending_urls(states, domain@), names);
        }
        let ghost stream = available@;
        let ghost order = Seq::new(stream.len(), |j: int| (stream[j].0@, stream[j].1));
        proof {
            assert(names_of(order) =~= names);
            assert(weights_of(order) =~= stream_numbers(stream));
            assert forall|j: int| 0 <= j < order.len() implies pending_urls(states, domain@).contains(
                (#[trigger] order[j]).0,
            ) && order[j].1 == states[(domain@, order[j].0)].weight by {
                assert(names[j] == order[j].0);
                assert(weighted_among(listing@, stream[j].0@, stream[j].1));
                let x = choose|x: int|
                    0 <= x < listing@.len() && (#[trigger] listing@[x]).1.status == UrlStatus::Pending
                        && listing@[x].0@ == stream[j].0@ && listing@[x].1.weight == stream[j].1;
                assert(states[(domain@, listing@[x].0@)] == listing@[x].1);
            }
            assert(lists_pending(order, states, domain@));
        }
        let sampled = weighted_sample(available, urls_per_job, source);
        let ghost picks = choose|picks: Seq<int>|
            picks_from(stream_items(stream), urls_per_job as nat, picks, sampled@) && picks_smallest(
                source.drawn().skip(old(source).drawn().len() as int),
                picks,
            );
        let ghost chosen = texts_of(sampled@);
        proof {
            assert forall|i: int| 0 <= i < sampled@.len() implies #[trigger] chosen[i]
                == names[picks[i]] by {
                assert(sampled@[i] == stream_items(stream)[picks[i]]);
            }
            assert forall|a: int, b: int|
                0 <= a < chosen.len() && 0 <= b < chosen.len() && a != b implies chosen[a]
                != chosen[b] by {
                assert(chosen[a] == names[picks[a]]);
                assert(chosen[b] == names[picks[b]]);
                if a < b {
                    assert(picks[a] != picks[b]);
                } else {
                    assert(picks[b] != picks[a]);
                }
            }
            assert forall|i: int| 0 <= i < sampled@.len() implies pending_urls(states, domain@).contains(
                #[trigger] sampled@[i]@,
            ) by {
                assert(chosen[i] == names[picks[i]]);
            }
        }
        let mut new_url_states: Vec<(UrlString, UrlState)> = Vec::new();
        let mut urls: VecDeque<UrlString> = VecDeque::with_capacity(urls_per_job);
        let mut i: usize = 0;
        while i < sampled.len()
            invariant
                i <= sampled@.len(),
                self.wf(),
                self.max_shard_bytes() == old(self).max_shard_bytes(),
                self.url_states() == states,
                self.domain_states() == domains,
                self.shard_sizes() == old(self).shard_sizes(),
                self.redirect_map() == old(self).redirect_map(),
                chosen == texts_of(sampled@),
                forall|j: int|
                    0 <= j < sampled@.len() ==> pending_urls(states, domain@).contains(
                        #[trigger] sampled@[j]@,
                    ),
                new_url_states@.len() == i,
                urls@.len() == i,
                forall|j: int| 0 <= j < i ==> (#[trigger] urls@[j])@ == chosen[j],
                forall|j: int|
                    0 <= j < i ==> (#[trigger] batch_view(new_url_states@)[j]) == (
                        chosen[j],
                        crawling(states[(domain@, chosen[j])]),
                    ),
            decreases sampled@.len() - i,
        {
            let url = &sampled[i];
            proof {
                assert(pending_urls(states, domain@).contains(sampled@[i as int]@));
                assert(chosen[i as int] == url@);
            }
            let state = match self.urls.get(domain, url) {
                Some(state) => UrlState { weight: state.weight, status: UrlStatus::Crawling },
                None => UrlState { weight: 0, status: UrlStatus::Crawling },
            };
            let ghost before = batch_view(new_url_states@);
            new_url_states.push((url.clone(), state));
            urls.push_back(url.clone());
            proof {
                assert(batch_view(new_url_states@) =~= before.push((url@, state)));
            }
            i += 1;
        }
        self.urls.put_batch(domain, &new_url_states);
        proof {
            let batch = batch_view(new_url_states@);
            assert forall|j: int| 0 <= j < batch.len() implies states.contains_key(
                (domain@, #[trigger] chosen[j]),
            ) && batch[j] == (chosen[j], crawling(states[(domain@, chosen[j])])) by {
                assert(pending_urls(states, domain@).contains(sampled@[j]@));
                assert(chosen[j] == sampled@[j]@);
            }
            lemma_batch_dispatches(states, domain@, batch, chosen, batch.len() as int);
            assert(texts_of(urls@) =~= chosen);
            assert(batch =~= dispatch_batch(states, domain@, chosen));
            assert(picks_from(names_of(order), urls_per_job as nat, picks, chosen)) by {
                assert forall|i: int| 0 <= i < picks.len() implies 0 <= #[trigger] picks[i]
                    < names_of(order).len() && chosen[i] == names_of(order)[picks[i]] by {
                    assert(sampled@[i] == stream_items(stream)[picks[i]]);
                }
            }
            assert(sampled_by_draws(
                order,
                urls_per_job as nat,
                chosen,
                old(source).asked(),
                old(source).drawn(),
                source.asked(),
                source.drawn(),
            ));
        }
        let ghost new_states = self.url_states();
        let remaining = self.urls.get_all_urls(domain);
        let weight = heaviest_of(&remaining);
        let state = match self.domain_state.get(domain) {
            Some(state) => DomainState { weight, status: state.status, total_urls: state.total_urls },
            None => DomainState { weight, status: DomainStatus::Pending, total_urls: 0 },
        };
        self.domain_state.put(domain, &state);
        proof {
            assert forall|u: Seq<char>| #[trigger]
                pending_urls(new_states, domain@).contains(u) implies new_states[(domain@, u)].weight
                <= weight by {
                let x = choose|x: int| 0 <= x < remaining@.len() && (#[trigger] remaining@[x]).0@ == u;
                assert(new_states[(domain@, remaining@[x].0@)] == remaining@[x].1);
            }
            if weight != 0 {
                let x = choose|x: int|
                    0 <= x < remaining@.len() && (#[trigger] remaining@[x]).1.status
                        == UrlStatus::Pending && remaining@[x].1.weight == weight;
                let u = remaining@[x].0@;
                assert(new_states.contains_key((domain@, remaining@[x].0@)));
                assert(pending_urls(new_states, domain@).contains(u) && new_states[(domain@, u)].weight
                    == weight);
            }
            assert(self.domain_states().dom() =~= domains.dom().insert(domain@));
        }
        let job = Job { domain: domain.clone(), fetch_sitemap: false, urls };
        proof {
            if consistent(domains, states) {
                lemma_job_keeps_consistent(
                    domains,
                    states,
                    domain@,
                    urls_per_job as nat,
                    job,
                    self.domain_states(),
                    self.url_states(),
                );
            }
        }
        job
    }

    /// Prepares one job for each of the domains, in order, as `prepare_job`
    /// does. Afterwards every URL handed out is marked as being fetched.
    pub fn prepare_jobs<R: PrioritySource>(
        &mut self,
        domains: &Vec<Domain>,
        urls_per_job: usize,
        source: &mut Recorded<R>,
    ) -> (jobs: Vec<Job>)
        requires
            old(self).wf(),
        ensures
            final(self).wf(),
            final(self).max_shard_bytes() == old(self).max_shard_bytes(),
            consistent(old(self).domain_states(), old(self).url_states()) ==> consistent(
                final(self).domain_states(),
                final(self).url_states(),
            ),
            exists|trace: Seq<JobPoint>|
                job_trace(
                    trace,
                    old(self).max_shard_bytes(),
                    texts_of(domains@),
                    urls_per_job as nat,
                    jobs@,
                ) && trace.first() == old(self).job_point(old(source).asked(), old(source).drawn())
                    && trace.last() == final(self).job_point(
                    final(source).asked(),
                    final(source).drawn(),
                ),
            jobs_dispatched(final(self).url_states(), jobs@, jobs@.len() as int),
            final(self).redirect_map() == old(self).redirect_map(),
    {
        let mut jobs: Vec<Job> = Vec::with_capacity(domains.len());
        let ghost names = texts_of(domains@);
        let ghost mut trace: Seq<JobPoint> = seq![self.job_point(source.asked(), source.drawn())];
        let mut i: usize = 0;
        while i < domains.len()
            invariant
                i <= domains@.len(),
                names == texts_of(domains@),
                self.wf(),
                self.max_shard_bytes() == old(self).max_shard_bytes(),
                self.redirect_map() == old(self).redirect_map(),
                jobs@.len() == i,
                trace.len() == i + 1,
                trace.first() == old(self).job_point(old(source).asked(), old(source).drawn()),
                trace.last() == self.job_point(source.asked(), source.drawn()),
                forall|x: int|
                    0 <= x < i ==> job_step(
                        trace[x].domains,
                        trace[x].urls,
                        names[x],
                        urls_per_job as nat,
                        #[trigger] jobs@[x],
                        trace[x + 1].domains,
                        trace[x + 1].urls,
                    ) && trace[x + 1].sizes == job_sizes(
                        trace[x].sizes,
                        old(self).max_shard_bytes(),
                        trace[x].urls,
                        names[x],
                        jobs@[x],
                    ) && job_draws(
                        trace[x].urls,
                        names[x],
                        urls_per_job as nat,
                        jobs@[x],
                        trace[x].asked,
                        trace[x].drawn,
                        trace[x + 1].asked,
                        trace[x + 1].drawn,
                    ),
                jobs_dispatched(self.url_states(), jobs@, i as int),
                consistent(old(self).domain_states(), old(self).url_states()) ==> consistent(
                    self.domain_states(),
                    self.url_states(),
                ),
            decreases domains@.len() - i,
        {
            let ghost before = self.url_states();
            let ghost old_jobs = jobs@;
            let ghost old_trace = trace;
            let job = self.prepare_job(&domains[i], urls_per_job, source);
            proof {
                let after = self.url_states();
                let chosen = texts_of(job.urls@);
                trace = old_trace.push(self.job_point(source.asked(), source.drawn()));
                assert(names[i as int] == domains@[i as int]@);
                assert forall|a: int, b: int|
                    0 <= a < i && 0 <= b < old_jobs[a].urls@.len() implies after.contains_key(
                    (old_jobs[a].domain@, #[trigger] old_jobs[a].urls@[b]@),
                ) && after[(old_jobs[a].domain@, old_jobs[a].urls@[b]@)].status
                    == UrlStatus::Crawling by {
                    assert(before.contains_key((old_jobs[a].domain@, old_jobs[a].urls@[b]@)));
                }
                assert forall|b: int| 0 <= b < job.urls@.len() implies after.contains_key(
                    (job.domain@, #[trigger] job.urls@[b]@),
                ) && after[(job.domain@, job.urls@[b]@)].status == UrlStatus::Crawling by {
                    assert(pending_urls(before, job.domain@).contains(job.urls@[b]@));
                    assert(chosen[b] == job.urls@[b]@);
                    assert(among(chosen, job.urls@.len() as int, job.urls@[b]@));
                }
            }
            jobs.push(job);
            proof {
                assert forall|x: int| 0 <= x < i + 1 implies job_step(
                    trace[x].domains,
                    trace[x].urls,
                    names[x],
                    urls_per_job as nat,
                    #[trigger] jobs@[x],
                    trace[x + 1].domains,
                    trace[x + 1].urls,
                ) && trace[x + 1].sizes == job_sizes(
                    trace[x].sizes,
                    old(self).max_shard_bytes(),
                    trace[x].urls,
                    names[x],
                    jobs@[x],
                ) && job_draws(
                    trace[x].urls,
                    names[x],
                    urls_per_job as nat,
                    jobs@[x],
                    trace[x].asked,
                    trace[x].drawn,
                    trace[x + 1].asked,
                    trace[x + 1].drawn,
                ) by {
                    if x < i {
                        assert(jobs@[x] == old_jobs[x]);
                        assert(trace[x] == old_trace[x]);
                        assert(trace[x + 1] == old_trace[x + 1]);
                    }
                }
                assert forall|a: int, b: int|
                    0 <= a < i + 1 && 0 <= b < jobs@[a].urls@.len() implies self.url_states().contains_key(
                    (jobs@[a].domain@, #[trigger] jobs@[a].urls@[b]@),
                ) && self.url_states()[(jobs@[a].domain@, jobs@[a].urls@[b]@)].status
                    == UrlStatus::Crawling by {
                    if a < i {
                        assert(jobs@[a] == old_jobs[a]);
                    }
                }
            }
            i += 1;
        }
        proof {
            assert(job_trace(trace, old(self).max_shard_bytes(), names, urls_per_job as nat, jobs@));
        }
        jobs
    }
}

/// The state of a URL after it was discovered once more: an unknown URL
/// starts afresh, and a link from another domain adds one to the weight.
pub open spec fn merged_url(found: Option<UrlState>, different_domain: bool) -> UrlState {
    let base = match found {
        Some(state) => state,
        None => UrlState::initial(),
    };
    if different_domain {
        UrlState { weight: UrlState::bumped_weight(base.weight), status: base.status }
    } else {
        base
    }
}

/// The batch that an ingest writes for a domain: for each incoming URL, in
/// order, its state as the store held it before the ingest, merged with the
/// discovery.
pub open spec fn merge_batch(
    urls: Map<UrlId, UrlState>,
    domain: Seq<char>,
    inc: Seq<(Seq<char>, bool)>,
) -> Seq<(Seq<char>, UrlState)> {
    Seq::new(inc.len(), |i: int| (inc[i].0, merged_url(lookup(urls, (domain, inc[i].0)), inc[i].1)))
}

/// The state of a domain that is unknown so far.
pub open spec fn known_or_new(found: Option<DomainState>) -> DomainState {
    match found {
        Some(state) => state,
        None => DomainState::initial(),
    }
}

/// The state of a domain after the first `n` incoming URLs: each URL that the
/// store did not hold counts one more, and the weight rises to the weight of
/// each URL written.
pub open spec fn merge_domain(
    start: DomainState,
    urls: Map<UrlId, UrlState>,
    domain: Seq<char>,
    inc: Seq<(Seq<char>, bool)>,
    n: int,
) -> DomainState
    decreases n,
{
    if n <= 0 {
        start
    } else {
        let before = merge_domain(start, urls, domain, inc, n - 1);
        let found = lookup(urls, (domain, inc[n - 1].0));
        let written = merged_url(found, inc[n - 1].1);
        DomainState {
            weight: if written.weight > before.weight {
                written.weight
            } else {
                before.weight
            },
            status: before.status,
            total_urls: if found is None {
                bumped_count(before.total_urls)
            } else {
                before.total_urls
            },
        }
    }
}

/// The URL states after the ingest of a domain's incoming URLs.
pub open spec fn ingest_urls(
    urls: Map<UrlId, UrlState>,
    domain: Seq<char>,
    inc: Seq<(Seq<char>, bool)>,
) -> Map<UrlId, UrlState> {
    apply_batch(urls, domain, merge_batch(urls, domain, inc), inc.len() as int)
}

/// The URL states after the ingest of a batch of discoveries: the URLs of
/// each domain are as the ingest of that domain's incoming URLs leaves them.
pub open spec fn ingested_urls(urls: Map<UrlId, UrlState>, found: Seq<Discovery>) -> Map<
    UrlId,
    UrlState,
> {
    Map::new(
        |id: UrlId| ingest_urls(urls, id.0, incoming(found, id.0, found.len() as int)).contains_key(id),
        |id: UrlId| ingest_urls(urls, id.0, incoming(found, id.0, found.len() as int))[id],
    )
}

/// The domain states after the ingest of a batch of discoveries: a domain
/// with incoming URLs has the state that their ingest leaves, the others are
/// as they were.
pub open spec fn ingested_domains(
    domains: Map<Seq<char>, DomainState>,
    urls: Map<UrlId, UrlState>,
    found: Seq<Discovery>,
) -> Map<Seq<char>, DomainState> {
    Map::new(
        |d: Seq<char>| domains.contains_key(d) || incoming(found, d, found.len() as int).len() > 0,
        |d: Seq<char>|
            if incoming(found, d, found.len() as int).len() > 0 {
                merge_domain(
                    known_or_new(lookup(domains, d)),
                    urls,
                    d,
                    incoming(found, d, found.len() as int),
                    incoming(found, d, found.len() as int).len() as int,
                )
            } else {
                domains[d]
            },
    )
}

/// The redirects after the first `n` outcomes of a response.
pub open spec fn response_redirects(
    redirects: Map<Seq<char>, Seq<char>>,
    response: JobResponse,
    n: int,
) -> Map<Seq<char>, Seq<char>>
    decreases n,
{
    if n <= 0 {
        redirects
    } else {
        let before = response_redirects(redirects, response, n - 1);
        match response.url_responses@[n - 1] {
            UrlResponse::Redirected { url, new_url } => before.insert(url@, new_url@),
            _ => before,
        }
    }
}

/// The redirects after the first `n` responses.
pub open spec fn all_redirects(
    redirects: Map<Seq<char>, Seq<char>>,
    responses: Seq<JobResponse>,
    n: int,
) -> Map<Seq<char>, Seq<char>>
    decreases n,
{
    if n <= 0 {
        redirects
    } else {
        response_redirects(
            all_redirects(redirects, responses, n - 1),
            responses[n - 1],
            responses[n - 1].url_responses@.len() as int,
        )
    }
}

/// What a batch leaves for a URL depends on what the store held for that URL
/// only.
proof fn lemma_batch_local(
    a: Map<UrlId, UrlState>,
    b: Map<UrlId, UrlState>,
    domain: Seq<char>,
    batch: Seq<(Seq<char>, UrlState)>,
    n: int,
    id: UrlId,
)
    requires
        n <= batch.len(),
        lookup(a, id) == lookup(b, id),
    ensures
        lookup(apply_batch(a, domain, batch, n), id) == lookup(apply_batch(b, domain, batch, n), id),
    decreases n,
{
    if n > 0 {
        lemma_batch_local(a, b, domain, batch, n - 1, id);
    }
}

/// The merge of a domain's state depends on what the store held for the URLs
/// of that domain only.
proof fn lemma_merge_domain_local(
    start: DomainState,
    a: Map<UrlId, UrlState>,
    b: Map<UrlId, UrlState>,
    domain: Seq<char>,
    inc: Seq<(Seq<char>, bool)>,
    n: int,
)
    requires
        forall|u: Seq<char>| lookup(a, (domain, u)) == lookup(b, (domain, u)),
    ensures
        merge_domain(start, a, domain, inc, n) == merge_domain(start, b, domain, inc, n),
    decreases n,
{
    if n > 0 {
        lemma_merge_domain_local(start, a, b, domain, inc, n - 1);
    }
}

/// The frontier while an ingest goes through the groups: the first `n`
/// domains listed are as their ingest leaves them, the others are untouched.
pub open spec fn partly_ingested_urls(
    urls: Map<UrlId, UrlState>,
    found: Seq<Discovery>,
    names: Seq<Seq<char>>,
    n: int,
) -> Map<UrlId, UrlState> {
    Map::new(
        |id: UrlId|
            if among(names, n, id.0) {
                ingest_urls(urls, id.0, incoming(found, id.0, found.len() as int)).contains_key(id)
            } else {
                urls.contains_key(id)
            },
        |id: UrlId|
            if among(names, n, id.0) {
                ingest_urls(urls, id.0, incoming(found, id.0, found.len() as int))[id]
            } else {
                urls[id]
            },
    )
}

/// The domain states while an ingest goes through the groups.
pub open spec fn partly_ingested_domains(
    domains: Map<Seq<char>, DomainState>,
    urls: Map<UrlId, UrlState>,
    found: Seq<Discovery>,
    names: Seq<Seq<char>>,
    n: int,
) -> Map<Seq<char>, DomainState> {
    Map::new(
        |d: Seq<char>| domains.contains_key(d) || among(names, n, d),
        |d: Seq<char>|
            if among(names, n, d) {
                merge_domain(
                    known_or_new(lookup(domains, d)),
                    urls,
                    d,
                    incoming(found, d, found.len() as int),
                    incoming(found, d, found.len() as int).len() as int,
                )
            } else {
                domains[d]
            },
    )
}

/// An order in which the domains with incoming URLs are taken in: each such
/// domain once, and no other.
pub open spec fn orders_incoming(order: Seq<Seq<char>>, found: Seq<Discovery>) -> bool {
    &&& order.no_duplicates()
    &&& forall|d: Seq<char>|
        order.contains(d) <==> (#[trigger] incoming(found, d, found.len() as int)).len() > 0
}

/// The sizes of the shards of URL states after the first `n` domains of an
/// order went in, each with the batch that its ingest writes.
pub open spec fn ingest_sizes(
    sizes: Seq<u64>,
    max_shard_bytes: u64,
    urls: Map<UrlId, UrlState>,
    found: Seq<Discovery>,
    order: Seq<Seq<char>>,
    n: int,
) -> Seq<u64>
    decreases n,
{
    if n <= 0 {
        sizes
    } else {
        sizes_after_batch(
            ingest_sizes(sizes, max_shard_bytes, urls, found, order, n - 1),
            max_shard_bytes,
            order[n - 1],
            merge_batch(urls, order[n - 1], incoming(found, order[n - 1], found.len() as int)),
        )
    }
}

/// The names of the groups of a fan-out.
pub open spec fn group_names(groups: Seq<(Domain, Vec<UrlToInsert>)>) -> Seq<Seq<char>> {
    Seq::new(groups.len(), |i: int| groups[i].0@)
}

/// One more group went in: the frontier is as the ingest of the groups so
/// far leaves it.
proof fn lemma_group_ingested(
    domains: Map<Seq<char>, DomainState>,
    urls: Map<UrlId, UrlState>,
    found: Seq<Discovery>,
    names: Seq<Seq<char>>,
    k: int,
    inc: Seq<(Seq<char>, bool)>,
)
    requires
        0 <= k < names.len(),
        names.no_duplicates(),
        inc == incoming(found, names[k], found.len() as int),
    ensures
        ingest_urls(partly_ingested_urls(urls, found, names, k), names[k], inc) == partly_ingested_urls(
            urls,
            found,
            names,
            k + 1,
        ),
        partly_ingested_domains(domains, urls, found, names, k).insert(
            names[k],
            merge_domain(
                known_or_new(lookup(partly_ingested_domains(domains, urls, found, names, k), names[k])),
                partly_ingested_urls(urls, found, names, k),
                names[k],
                inc,
                inc.len() as int,
            ),
        ) == partly_ingested_domains(domains, urls, found, names, k + 1),
        merge_batch(partly_ingested_urls(urls, found, names, k), names[k], inc) == merge_batch(
            urls,
            names[k],
            inc,
        ),
{
    let d = names[k];
    let cur = partly_ingested_urls(urls, found, names, k);
    let cur_domains = partly_ingested_domains(domains, urls, found, names, k);
    lemma_among_next(names, k);
    assert(!among(names, k, d)) by {
        if among(names, k, d) {
            let w = choose|w: int| 0 <= w < k && #[trigger] names[w] == d;
            assert(names[w] != names[k]);
        }
    }
    assert forall|u: Seq<char>| lookup(cur, (d, u)) == lookup(urls, (d, u)) by {}
    assert(merge_batch(cur, d, inc) =~= merge_batch(urls, d, inc));
    let batch = merge_batch(urls, d, inc);
    let n = inc.len() as int;
    let a = apply_batch(cur, d, batch, n);
    let b = partly_ingested_urls(urls, found, names, k + 1);
    assert forall|id: UrlId| lookup(a, id) == lookup(b, id) by {
        if id.0 == d {
            lemma_batch_local(cur, urls, d, batch, n, id);
        } else {
            lemma_batch_keeps_others(cur, d, batch, n, id);
        }
    }
    assert(a =~= b) by {
        assert forall|id: UrlId| a.contains_key(id) == b.contains_key(id) by {
            assert(lookup(a, id) == lookup(b, id));
        }
        assert forall|id: UrlId| a.contains_key(id) implies a[id] == b[id] by {
            assert(lookup(a, id) == lookup(b, id));
        }
    }
    lemma_merge_domain_local(known_or_new(lookup(domains, d)), cur, urls, d, inc, n);
    assert(lookup(cur_domains, d) == lookup(domains, d));
    assert(cur_domains.insert(
        d,
        merge_domain(known_or_new(lookup(cur_domains, d)), cur, d, inc, n),
    ) =~= partly_ingested_domains(domains, urls, found, names, k + 1));
}

/// When every group went in, the ingest is done.
proof fn lemma_all_groups_ingested(
    domains: Map<Seq<char>, DomainState>,
    urls: Map<UrlId, UrlState>,
    found: Seq<Discovery>,
    groups: Seq<(Domain, Vec<UrlToInsert>)>,
)
    requires
        is_fan_out(groups, found),
    ensures
        partly_ingested_urls(urls, found, group_names(groups), groups.len() as int) == ingested_urls(
            urls,
            found,
        ),
        partly_ingested_domains(domains, urls, found, group_names(groups), groups.len() as int)
            == ingested_domains(domains, urls, found),
        forall|d: Seq<char>|
            among(group_names(groups), groups.len() as int, d) <==> incoming(
                found,
                d,
                found.len() as int,
            ).len() > 0,
        forall|d: Seq<char>|
            group_names(groups).contains(d) <==> (#[trigger] incoming(
                found,
                d,
                found.len() as int,
            )).len() > 0,
{
    let names = group_names(groups);
    let n = groups.len() as int;
    assert forall|d: Seq<char>| among(names, n, d) <==> incoming(found, d, found.len() as int).len()
        > 0 by {
        if among(names, n, d) {
            let w = choose|w: int| 0 <= w < n && #[trigger] names[w] == d;
            assert(inserts_view(groups[w].1@) == incoming(found, groups[w].0@, found.len() as int));
            assert(inserts_view(groups[w].1@).len() == groups[w].1@.len());
        }
        if incoming(found, d, found.len() as int).len() > 0 {
            let j = choose|j: int| 0 <= j < groups.len() && (#[trigger] groups[j]).0@ == d;
            assert(names[j] == d);
        }
    }
    assert forall|d: Seq<char>| names.contains(d) <==> among(names, n, d) by {
        if names.contains(d) {
            let w = choose|w: int| 0 <= w < names.len() && names[w] == d;
            assert(0 <= w < n && names[w] == d);
        }
        if among(names, n, d) {
            let w = choose|w: int| 0 <= w < n && #[trigger] names[w] == d;
            assert(names[w] == d);
        }
    }
    assert forall|id: UrlId| !among(names, n, id.0) implies ingest_urls(
        urls,
        id.0,
        incoming(found, id.0, found.len() as int),
    ) == urls by {
        let inc = incoming(found, id.0, found.len() as int);
        assert(inc.len() == 0);
        assert(apply_batch(urls, id.0, merge_batch(urls, id.0, inc), 0) == urls);
    }
    assert(partly_ingested_urls(urls, found, names, n) =~= ingested_urls(urls, found));
    assert(partly_ingested_domains(domains, urls, found, names, n) =~= ingested_domains(
        domains,
        urls,
        found,
    ));
}

impl CrawlDb {
    /// Takes in the URLs discovered for one domain, in order. A URL that the
    /// store does not hold counts one more for the domain and starts afresh;
    /// a link from another domain adds one to the URL's weight; the domain's
    /// weight rises to the weight of each URL written. Each URL is merged
    /// with the state that the store held before the call.
    pub fn ingest_domain(&mut self, domain: &Domain, urls: &Vec<UrlToInsert>)
        requires
            old(self).wf(),
        ensures
            final(self).wf(),
            final(self).max_shard_bytes() == old(self).max_shard_bytes(),
            consistent(old(self).domain_states(), old(self).url_states()) ==> consistent(
                final(self).domain_states(),
                final(self).url_states(),
            ),
            final(self).url_states() == ingest_urls(
                old(self).url_states(),
                domain@,
                inserts_view(urls@),
            ),
            final(self).domain_states() == old(self).domain_states().insert(
                domain@,
                merge_domain(
                    known_or_new(lookup(old(self).domain_states(), domain@)),
                    old(self).url_states(),
                    domain@,
                    inserts_view(urls@),
                    urls@.len() as int,
                ),
            ),
            final(self).shard_sizes() == sizes_after_batch(
                old(self).shard_sizes(),
                old(self).max_shard_bytes(),
                domain@,
                merge_batch(old(self).url_states(), domain@, inserts_view(urls@)),
            ),
            final(self).redirect_map() == old(self).redirect_map(),
    {
        let ghost states = self.url_states();
        let ghost inc = inserts_view(urls@);
        let mut domain_state = match self.domain_state.get(domain) {
            Some(state) => state,
            None => {
                let state = DomainState { weight: 0, status: DomainStatus::Pending, total_urls: 0 };
                self.domain_state.put(domain, &state);
                state
            },
        };
        let ghost start = domain_state;
        let mut url_states: Vec<(UrlString, UrlState)> = Vec::new();
        let mut i: usize = 0;
        while i < urls.len()
            invariant
                i <= urls@.len(),
                inc == inserts_view(urls@),
                self.wf(),
                self.max_shard_bytes() == old(self).max_shard_bytes(),
                self.url_states() == states,
                self.domain_states() == old(self).domain_states().insert(domain@, start),
                self.shard_sizes() == old(self).shard_sizes(),
                self.redirect_map() == old(self).redirect_map(),
                domain_state == merge_domain(start, states, domain@, inc, i as int),
                batch_view(url_states@) == merge_batch(states, domain@, inc).take(i as int),
            decreases urls@.len() - i,
        {
            let url = &urls[i];
            assert(inc[i as int] == (url.url@, url.different_domain));
            let mut url_state = match self.urls.get(domain, &url.url) {
                Some(state) => state,
                None => {
                    if domain_state.total_urls < u64::MAX {
                        domain_state.total_urls = domain_state.total_urls + 1;
                    }
                    UrlState { weight: 0, status: UrlStatus::Pending }
                },
            };
            if url.different_domain && url_state.weight < MAX_WEIGHT {
                url_state.weight = url_state.weight + 1;
            }
            if url_state.weight > domain_state.weight {
                domain_state.weight = url_state.weight;
            }
            let ghost before = batch_view(url_states@);
            url_states.push((url.url.clone(), url_state));
            proof {
                assert(batch_view(url_states@) =~= before.push((url.url@, url_state)));
                assert(merge_batch(states, domain@, inc).take(i as int).push((url.url@, url_state))
                    =~= merge_batch(states, domain@, inc).take(i as int + 1));
            }
            i += 1;
        }
        proof {
            assert(merge_batch(states, domain@, inc).take(urls@.len() as int) =~= merge_batch(
                states,
                domain@,
                inc,
            ));
        }
        self.urls.put_batch(domain, &url_states);
        self.domain_state.put(domain, &domain_state);
        proof {
            assert(self.domain_states() =~= old(self).domain_states().insert(domain@, domain_state));
            if consistent(old(self).domain_states(), states) {
                lemma_ingest_domain_keeps_consistent(old(self).domain_states(), states, domain@, inc);
            }
        }
    }

    /// Takes in the results of fetch jobs. The URLs discovered are grouped by
    /// their domains and each group is taken in as `ingest_domain` does, every
    /// group on the state that the frontier had before the call; the
    /// redirects reported are recorded. Returns the domains that received at
    /// least one discovered URL.
    pub fn insert_urls(&mut self, responses: &Vec<JobResponse>) -> (nonempty_domains: DomainSet)
        requires
            old(self).wf(),
        ensures
            final(self).wf(),
            final(self).max_shard_bytes() == old(self).max_shard_bytes(),
            consistent(old(self).domain_states(), old(self).url_states()) ==> consistent(
                final(self).domain_states(),
                final(self).url_states(),
            ),
            final(self).url_states() == ingested_urls(
                old(self).url_states(),
                discoveries(responses@, responses@.len() as int),
            ),
            final(self).domain_states() == ingested_domains(
                old(self).domain_states(),
                old(self).url_states(),
                discoveries(responses@, responses@.len() as int),
            ),
            final(self).redirect_map() == all_redirects(
                old(self).redirect_map(),
                responses@,
                responses@.len() as int,
            ),
            exists|order: Seq<Seq<char>>| #[trigger]
                orders_incoming(order, discoveries(responses@, responses@.len() as int))
                    && final(self).shard_sizes() == ingest_sizes(
                    old(self).shard_sizes(),
                    old(self).max_shard_bytes(),
                    old(self).url_states(),
                    discoveries(responses@, responses@.len() as int),
                    order,
                    order.len() as int,
                ),
            forall|d: Seq<char>|
                nonempty_domains@.contains(d) <==> incoming(
                    discoveries(responses@, responses@.len() as int),
                    d,
                    discoveries(responses@, responses@.len() as int).len() as int,
                ).len() > 0,
    {
        let ghost found = discoveries(responses@, responses@.len() as int);
        let ghost domains = self.domain_states();
        let ghost states = self.url_states();
        let groups = fan_out(responses);
        let mut r: usize = 0;
        while r < responses.len()
            invariant
                r <= responses@.len(),
                self.wf(),
                self.max_shard_bytes() == old(self).max_shard_bytes(),
                self.url_states() == states,
                self.domain_states() == domains,
                self.shard_sizes() == old(self).shard_sizes(),
                self.redirect_map() == all_redirects(old(self).redirect_map(), responses@, r as int),
            decreases responses@.len() - r,
        {
            let response = &responses[r];
            let ghost base = self.redirect_map();
            let mut j: usize = 0;
            while j < response.url_responses.len()
                invariant
                    j <= response.url_responses@.len(),
                    self.wf(),
                    self.max_shard_bytes() == old(self).max_shard_bytes(),
                    self.url_states() == states,
                    self.domain_states() == domains,
                    self.shard_sizes() == old(self).shard_sizes(),
                    self.redirect_map() == response_redirects(base, *response, j as int),
                decreases response.url_responses@.len() - j,
            {
                match &response.url_responses[j] {
                    UrlResponse::Redirected { url, new_url } => {
                        self.redirects.put(url, new_url);
                    },
                    _ => {},
                }
                j += 1;
            }
            r += 1;
        }
        let mut nonempty_domains = DomainSet::new();
        let ghost listing = groups@;
        let ghost names = group_names(listing);
        proof {
            assert(self.url_states() =~= partly_ingested_urls(states, found, names, 0));
            assert(self.domain_states() =~= partly_ingested_domains(domains, states, found, names, 0));
            assert forall|a: int, b: int|
                0 <= a < names.len() && 0 <= b < names.len() && a != b implies names[a]
                != names[b] by {
                if a < b {
                    assert(listing[a].0@ != listing[b].0@);
                } else {
                    assert(listing[b].0@ != listing[a].0@);
                }
            }
        }
        for group in it: groups
            invariant
                it.seq() == listing,
                names == group_names(listing),
                names.no_duplicates(),
                is_fan_out(listing, found),
                self.wf(),
                self.max_shard_bytes() == old(self).max_shard_bytes(),
                self.url_states() == partly_ingested_urls(states, found, names, it.index() as int),
                self.shard_sizes() == ingest_sizes(
                    old(self).shard_sizes(),
                    old(self).max_shard_bytes(),
                    states,
                    found,
                    names,
                    it.index() as int,
                ),
                self.domain_states() == partly_ingested_domains(
                    domains,
                    states,
                    found,
                    names,
                    it.index() as int,
                ),
                self.redirect_map() == all_redirects(
                    old(self).redirect_map(),
                    responses@,
                    responses@.len() as int,
                ),
                forall|d: Seq<char>| nonempty_domains@.contains(d) <==> among(names, it.index() as int, d),
        {
            let ghost k = it.index() as int;
            let (domain, urls) = group;
            proof {
                assert(listing[k] == (domain, urls));
                assert(names[k] == domain@);
                lemma_among_next(names, k);
                lemma_group_ingested(domains, states, found, names, k, inserts_view(urls@));
                assert(inserts_view(urls@).len() == urls@.len());
                assert(inserts_view(urls@) == incoming(found, names[k], found.len() as int));
            }
            if urls.len() > 0 {
                nonempty_domains.insert(domain.clone());
            }
            self.ingest_domain(&domain, &urls);
        }
        proof {
            lemma_all_groups_ingested(domains, states, found, listing);
            assert(orders_incoming(names, found));
            if consistent(domains, states) {
                lemma_ingest_keeps_consistent(domains, states, found);
            }
        }
        nonempty_domains
    }
}

} // verus!
