//! The data model of the crawl frontier: statuses, per-URL and per-domain
//! state, and the messages exchanged with fetch workers and the scheduler.

use std::collections::VecDeque;
use vstd::prelude::*;

verus! {

/// The largest link count that a stored weight represents exactly. Weights are
/// persisted as double-precision numbers, for which adding one to this value
/// gives the same value again; the count therefore stops growing here.
pub const MAX_WEIGHT: u64 = 9007199254740992;

/// Crawl state of a single URL.
#[derive(Debug, Clone, Copy, PartialEq, Eq, Structural)]
pub enum UrlStatus {
    Pending,
    Crawling,
    Failed { status_code: Option<u16> },
    Done,
}

/// Crawl state of a domain, as seen by the scheduler.
#[derive(Debug, Clone, Copy, PartialEq, Eq, Structural)]
pub enum DomainStatus {
    Pending,
    NoUncrawledUrls,
    CrawlInProgress,
}

/// What the frontier records for one URL: the number of links from other
/// domains that were seen pointing at it, and its crawl status.
#[derive(Debug, Clone, Copy, PartialEq, Eq, Structural)]
pub struct UrlState {
    pub weight: u64,
    pub status: UrlStatus,
}

impl Default for UrlState {
    fn default() -> (state: Self)
        ensures
            state == Self::initial(),
    {
        UrlState { weight: 0, status: UrlStatus::Pending }
    }
}

impl UrlState {
    /// The state of a URL that has just been discovered.
    pub open spec fn initial() -> Self {
        UrlState { weight: 0, status: UrlStatus::Pending }
    }

    /// The weight after one more link from another domain.
    pub open spec fn bumped_weight(weight: u64) -> u64 {
        if weight < MAX_WEIGHT {
            (weight + 1) as u64
        } else {
            weight
        }
    }
}

/// What the frontier records for one domain: a bound on the weights of its
/// pending URLs, its crawl status, and a count of the URLs discovered in it.
#[derive(Debug, Clone, Copy, PartialEq, Eq, Structural)]
pub struct DomainState {
    pub weight: u64,
    pub status: DomainStatus,
    pub total_urls: u64,
}

impl Default for DomainState {
    fn default() -> (state: Self)
        ensures
            state == Self::initial(),
    {
        DomainState { weight: 0, status: DomainStatus::Pending, total_urls: 0 }
    }
}

impl DomainState {
    /// The state of a domain of which nothing is known yet.
    pub open spec fn initial() -> Self {
        DomainState { weight: 0, status: DomainStatus::Pending, total_urls: 0 }
    }
}

/// What a map holds under a key, if anything.
pub open spec fn lookup<K, V>(map: Map<K, V>, key: K) -> Option<V> {
    if map.contains_key(key) {
        Some(map[key])
    } else {
        None
    }
}

/// A count after one more item; it stops at the largest number.
pub open spec fn bumped_count(count: u64) -> u64 {
    if count < u64::MAX {
        (count + 1) as u64
    } else {
        count
    }
}

/// A normalized registrable host, as text.
pub type Domain = String;

/// An absolute URL in canonical form, as text.
pub type UrlString = String;

/// A URL together with the domain it belongs to.
pub struct SiteUrl {
    pub domain: Domain,
    pub url: UrlString,
}

/// The outcome of fetching one URL.
pub enum UrlResponse {
    Success { url: UrlString },
    Failed { url: UrlString, status_code: Option<u16> },
    Redirected { url: UrlString, new_url: UrlString },
}

/// What a fetch worker reports after working on a domain: the URLs it found
/// on the pages it fetched, and the outcome of each fetch.
pub struct JobResponse {
    pub domain: Domain,
    pub discovered_urls: Vec<SiteUrl>,
    pub url_responses: Vec<UrlResponse>,
}

/// A batch of work for one domain, handed to the scheduler.
pub struct Job {
    pub domain: Domain,
    pub fetch_sitemap: bool,
    pub urls: VecDeque<UrlString>,
}

/// A discovered URL on its way into the frontier, with the note whether it
/// was found on a page of another domain.
pub struct UrlToInsert {
    pub url: UrlString,
    pub different_domain: bool,
}

/// The bounds, in key order, of the keys written for one domain in one shard.
pub struct RangeRecord {
    pub start: Vec<u8>,
    pub end: Vec<u8>,
}

} // verus!
