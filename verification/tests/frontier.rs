use stract::crawl_db::CrawlDb;
use stract::model::{
    Domain, DomainState, DomainStatus, JobResponse, SiteUrl, UrlResponse, UrlState, UrlStatus,
    UrlString, MAX_WEIGHT,
};
use stract::sampler::{PrioritySource, Recorded};
use url::Url;

/// Gives every item the same priority.
struct Flat;

impl PrioritySource for Flat {
    fn draw(&mut self, _weight: u64) -> u64 {
        0
    }
}

/// Prefers heavy items: the priority falls as the weight rises.
struct Heavy;

impl PrioritySource for Heavy {
    fn draw(&mut self, weight: u64) -> u64 {
        u64::MAX - weight
    }
}

fn site(url: &str) -> SiteUrl {
    let url = Url::parse(url).unwrap();
    SiteUrl { domain: url.host_str().unwrap().to_string(), url: url.as_str().to_string() }
}

fn domain_of(url: &str) -> Domain {
    site(url).domain
}

fn url_of(url: &str) -> UrlString {
    site(url).url
}

fn response(domain: &str, discovered: &[&str]) -> JobResponse {
    JobResponse {
        domain: domain_of(domain),
        discovered_urls: discovered.iter().map(|u| site(u)).collect(),
        url_responses: Vec::new(),
    }
}

#[test]
fn simple_politeness() {
    let mut db = CrawlDb::new();
    let mut source = Recorded::new(Flat);

    db.insert_seed_urls(&vec![site("https://example.com")]);

    let domain = domain_of("https://example.com");

    let sample = db.sample_domains(128, &mut source);

    assert_eq!(sample.len(), 1);
    assert_eq!(&sample[0], &domain);
    assert_eq!(
        db.domain_state().get(&domain).unwrap().status,
        DomainStatus::CrawlInProgress
    );

    let new_sample = db.sample_domains(128, &mut source);
    assert_eq!(new_sample.len(), 0);
}

#[test]
fn get_all_urls() {
    let mut db = CrawlDb::new();

    db.insert_seed_urls(&vec![site("https://a.com"), site("https://b.com")]);

    let domain = domain_of("https://a.com");

    let urls = db.urls().get_all_urls(&domain);

    assert_eq!(urls.len(), 1);
    assert_eq!(urls[0].0, url_of("https://a.com"));
}

#[test]
fn seed_creates_pending_domain_and_url() {
    let mut db = CrawlDb::new();
    db.insert_seed_urls(&vec![site("https://a.com/x")]);
    assert_eq!(
        db.domain_state().get(&domain_of("https://a.com")),
        Some(DomainState { weight: 0, status: DomainStatus::Pending, total_urls: 1 })
    );
    assert_eq!(
        db.urls().get(&domain_of("https://a.com"), &url_of("https://a.com/x")),
        Some(UrlState { weight: 0, status: UrlStatus::Pending })
    );
    assert_eq!(db.urls().get(&domain_of("https://a.com"), &url_of("https://a.com/y")), None);
    assert_eq!(db.domain_state().get(&domain_of("https://b.com")), None);
}

#[test]
fn seed_counts_again_when_inserted_again() {
    let mut db = CrawlDb::new();
    db.insert_seed_urls(&vec![site("https://a.com"), site("https://a.com")]);
    db.insert_seed_urls(&vec![site("https://a.com/p")]);
    assert_eq!(db.domain_state().get(&domain_of("https://a.com")).unwrap().total_urls, 3);
    assert_eq!(db.urls().get_all_urls(&domain_of("https://a.com")).len(), 2);
}

#[test]
fn cross_domain_link_raises_weight() {
    let mut db = CrawlDb::new();
    db.insert_seed_urls(&vec![site("https://x.com"), site("https://y.com")]);

    let touched = db.insert_urls(&vec![response("https://x.com", &["https://y.com/p"])]);
    assert!(touched.contains(&domain_of("https://y.com")));
    assert!(!touched.contains(&domain_of("https://x.com")));

    let y = domain_of("https://y.com");
    assert_eq!(
        db.urls().get(&y, &url_of("https://y.com/p")),
        Some(UrlState { weight: 1, status: UrlStatus::Pending })
    );
    assert_eq!(
        db.domain_state().get(&y),
        Some(DomainState { weight: 1, status: DomainStatus::Pending, total_urls: 2 })
    );

    db.insert_urls(&vec![response("https://x.com", &["https://y.com/p"])]);
    assert_eq!(db.urls().get(&y, &url_of("https://y.com/p")).unwrap().weight, 2);
    assert_eq!(
        db.domain_state().get(&y),
        Some(DomainState { weight: 2, status: DomainStatus::Pending, total_urls: 2 })
    );
}

#[test]
fn same_domain_link_keeps_weight() {
    let mut db = CrawlDb::new();
    db.insert_seed_urls(&vec![site("https://x.com")]);
    let touched = db.insert_urls(&vec![response("https://x.com", &["https://x.com/a"])]);
    assert!(touched.contains(&domain_of("https://x.com")));
    let x = domain_of("https://x.com");
    assert_eq!(
        db.urls().get(&x, &url_of("https://x.com/a")),
        Some(UrlState { weight: 0, status: UrlStatus::Pending })
    );
    assert_eq!(
        db.domain_state().get(&x),
        Some(DomainState { weight: 0, status: DomainStatus::Pending, total_urls: 2 })
    );
}

#[test]
fn ingest_merges_each_url_with_state_before_the_call() {
    // the same new URL twice in one batch: both count, the later write wins
    let mut db = CrawlDb::new();
    let touched = db.insert_urls(&vec![
        response("https://x.com", &["https://y.com/p", "https://z.com/q"]),
        response("https://w.com", &["https://y.com/p"]),
    ]);
    assert!(touched.contains(&domain_of("https://y.com")));
    assert!(touched.contains(&domain_of("https://z.com")));
    assert!(!touched.contains(&domain_of("https://w.com")));
    let y = domain_of("https://y.com");
    assert_eq!(
        db.urls().get(&y, &url_of("https://y.com/p")),
        Some(UrlState { weight: 1, status: UrlStatus::Pending })
    );
    assert_eq!(
        db.domain_state().get(&y),
        Some(DomainState { weight: 1, status: DomainStatus::Pending, total_urls: 2 })
    );
    assert_eq!(db.domain_state().get(&domain_of("https://x.com")), None);
}

#[test]
fn ingest_of_nothing_changes_nothing() {
    let mut db = CrawlDb::new();
    db.insert_seed_urls(&vec![site("https://x.com")]);
    let touched = db.insert_urls(&Vec::new());
    assert!(!touched.contains(&domain_of("https://x.com")));
    let touched = db.insert_urls(&vec![response("https://x.com", &[])]);
    assert!(!touched.contains(&domain_of("https://x.com")));
    assert_eq!(db.domain_state().get(&domain_of("https://x.com")).unwrap().total_urls, 1);
}

#[test]
fn ingest_records_redirects() {
    let mut db = CrawlDb::new();
    let mut res = response("https://x.com", &[]);
    res.url_responses = vec![
        UrlResponse::Success { url: url_of("https://x.com/a") },
        UrlResponse::Redirected { url: url_of("https://x.com/b"), new_url: url_of("https://x.com/c") },
        UrlResponse::Failed { url: url_of("https://x.com/d"), status_code: Some(404) },
        UrlResponse::Redirected { url: url_of("https://x.com/b"), new_url: url_of("https://x.com/e") },
    ];
    db.insert_urls(&vec![res]);
    assert_eq!(db.redirects().get(&url_of("https://x.com/b")), Some(url_of("https://x.com/e")));
    assert_eq!(db.redirects().get(&url_of("https://x.com/a")), None);
    assert_eq!(db.redirects().get(&url_of("https://x.com/d")), None);
}

#[test]
fn weight_stops_at_largest_exact_count() {
    assert_eq!(MAX_WEIGHT, 9007199254740992);
    let y = domain_of("https://y.com");
    let p = url_of("https://y.com/p");
    let mut urls = stract::url_store::UrlStateDb::new();
    urls.put_batch(&y, &vec![(p.clone(), UrlState { weight: MAX_WEIGHT - 1, status: UrlStatus::Done })]);
    let mut db = CrawlDb::from_stores(
        stract::stores::DomainStateDb::new(),
        urls,
        stract::stores::RedirectDb::new(),
    );
    db.insert_urls(&vec![response("https://x.com", &["https://y.com/p"])]);
    assert_eq!(
        db.urls().get(&y, &p),
        Some(UrlState { weight: MAX_WEIGHT, status: UrlStatus::Done })
    );
    db.insert_urls(&vec![response("https://x.com", &["https://y.com/p"])]);
    assert_eq!(db.urls().get(&y, &p).unwrap().weight, MAX_WEIGHT);
    assert_eq!(
        db.domain_state().get(&y),
        Some(DomainState { weight: MAX_WEIGHT, status: DomainStatus::Pending, total_urls: 0 })
    );
}

#[test]
fn set_domain_status_creates_unknown_domain() {
    let mut db = CrawlDb::new();
    let d = domain_of("https://new.com");
    db.set_domain_status(&d, DomainStatus::NoUncrawledUrls);
    assert_eq!(
        db.domain_state().get(&d),
        Some(DomainState { weight: 0, status: DomainStatus::NoUncrawledUrls, total_urls: 0 })
    );
    db.insert_seed_urls(&vec![site("https://new.com")]);
    db.set_domain_status(&d, DomainStatus::Pending);
    assert_eq!(
        db.domain_state().get(&d),
        Some(DomainState { weight: 0, status: DomainStatus::Pending, total_urls: 1 })
    );
}

#[test]
fn sample_domains_returns_pending_only_and_marks_them() {
    let mut db = CrawlDb::new();
    let mut source = Recorded::new(Heavy);
    db.insert_seed_urls(&vec![
        site("https://a.com"),
        site("https://b.com"),
        site("https://c.com"),
    ]);
    db.set_domain_status(&domain_of("https://b.com"), DomainStatus::NoUncrawledUrls);
    db.insert_urls(&vec![response("https://a.com", &["https://c.com/x"])]);

    let sample = db.sample_domains(1, &mut source);
    assert_eq!(sample, vec![domain_of("https://c.com")]);
    assert_eq!(
        db.domain_state().get(&domain_of("https://c.com")).unwrap().status,
        DomainStatus::CrawlInProgress
    );
    assert_eq!(
        db.domain_state().get(&domain_of("https://a.com")).unwrap().status,
        DomainStatus::Pending
    );

    let sample = db.sample_domains(5, &mut source);
    assert_eq!(sample, vec![domain_of("https://a.com")]);
    assert_eq!(db.sample_domains(5, &mut source).len(), 0);
    assert_eq!(
        db.domain_state().get(&domain_of("https://b.com")).unwrap().status,
        DomainStatus::NoUncrawledUrls
    );

    db.set_domain_status(&domain_of("https://c.com"), DomainStatus::Pending);
    assert_eq!(db.sample_domains(0, &mut source).len(), 0);
    assert_eq!(db.sample_domains(5, &mut source), vec![domain_of("https://c.com")]);
}

#[test]
fn prepare_jobs_marks_sampled_urls_and_recomputes_weight() {
    let mut db = CrawlDb::new();
    let mut source = Recorded::new(Heavy);
    let y = domain_of("https://y.com");
    db.insert_seed_urls(&vec![site("https://y.com")]);
    db.insert_urls(&vec![
        response("https://x.com", &["https://y.com/p", "https://y.com/q"]),
        response("https://z.com", &["https://y.com/p"]),
    ]);
    // one batch merges with the state before the call: p and q both have weight 1
    db.insert_urls(&vec![response("https://x.com", &["https://y.com/p"])]);
    assert_eq!(db.urls().get(&y, &url_of("https://y.com/p")).unwrap().weight, 2);
    assert_eq!(db.domain_state().get(&y).unwrap().weight, 2);

    let jobs = db.prepare_jobs(&vec![y.clone()], 1, &mut source);
    assert_eq!(jobs.len(), 1);
    assert_eq!(jobs[0].domain, y);
    assert!(!jobs[0].fetch_sitemap);
    assert_eq!(jobs[0].urls.len(), 1);
    assert_eq!(jobs[0].urls[0], url_of("https://y.com/p"));
    assert_eq!(
        db.urls().get(&y, &url_of("https://y.com/p")),
        Some(UrlState { weight: 2, status: UrlStatus::Crawling })
    );
    // the heaviest URL that is still pending has weight 1
    assert_eq!(db.domain_state().get(&y).unwrap().weight, 1);

    let jobs = db.prepare_jobs(&vec![y.clone(), y.clone()], 5, &mut source);
    assert_eq!(jobs.len(), 2);
    assert_eq!(jobs[0].urls.len(), 2);
    assert_eq!(jobs[1].urls.len(), 0);
    for url in jobs[0].urls.iter() {
        assert_eq!(db.urls().get(&y, url).unwrap().status, UrlStatus::Crawling);
    }
    assert_eq!(db.domain_state().get(&y).unwrap().weight, 0);
    // the seed, and three discoveries of URLs that the store did not hold yet
    assert_eq!(db.domain_state().get(&y).unwrap().total_urls, 4);
}

#[test]
fn prepare_job_for_unknown_domain_is_empty() {
    let mut db = CrawlDb::new();
    let mut source = Recorded::new(Flat);
    let d = domain_of("https://nowhere.com");
    let job = db.prepare_job(&d, 3, &mut source);
    assert_eq!(job.urls.len(), 0);
    assert_eq!(
        db.domain_state().get(&d),
        Some(DomainState { weight: 0, status: DomainStatus::Pending, total_urls: 0 })
    );
}

#[test]
fn frontier_from_stores_keeps_what_they_hold() {
    let mut domains = stract::stores::DomainStateDb::new();
    let state = DomainState { weight: 3, status: DomainStatus::Pending, total_urls: 1 };
    domains.put(&domain_of("https://a.com"), &state);
    let mut urls = stract::url_store::UrlStateDb::new();
    urls.put_batch(
        &domain_of("https://a.com"),
        &vec![(url_of("https://a.com"), UrlState { weight: 3, status: UrlStatus::Pending })],
    );
    let mut redirects = stract::stores::RedirectDb::new();
    redirects.put(&url_of("https://a.com/r"), &url_of("https://a.com"));
    let mut db = CrawlDb::from_stores(domains, urls, redirects);
    db.report_size(5);
    assert_eq!(db.urls().approximate_size_bytes(), 5);
    assert_eq!(db.domain_state().get(&domain_of("https://a.com")), Some(state));
    assert_eq!(db.redirects().get(&url_of("https://a.com/r")), Some(url_of("https://a.com")));
    let mut source = Recorded::new(Flat);
    let jobs = db.prepare_jobs(&vec![domain_of("https://a.com")], 4, &mut source);
    assert_eq!(jobs[0].urls.len(), 1);
    assert_eq!(jobs[0].urls[0], url_of("https://a.com"));
}

#[test]
fn rollover_keeps_reads() {
    let mut db = CrawlDb::with_shard_cap(64);
    let a = domain_of("https://a.com");
    assert_eq!(db.urls().num_shards(), 1);
    db.insert_seed_urls(&vec![site("https://a.com/1"), site("https://a.com/2")]);
    let shards = db.urls().num_shards();
    assert!(shards >= 1);
    db.insert_urls(&vec![response("https://b.com", &["https://a.com/1", "https://a.com/3"])]);
    db.insert_urls(&vec![response("https://b.com", &["https://a.com/1"])]);
    assert!(db.urls().num_shards() > shards);

    let mut all = db.urls().get_all_urls(&a);
    all.sort_by(|x, y| x.0.cmp(&y.0));
    assert_eq!(
        all,
        vec![
            (url_of("https://a.com/1"), UrlState { weight: 2, status: UrlStatus::Pending }),
            (url_of("https://a.com/2"), UrlState { weight: 0, status: UrlStatus::Pending }),
            (url_of("https://a.com/3"), UrlState { weight: 1, status: UrlStatus::Pending }),
        ]
    );
    assert_eq!(db.urls().get(&a, &url_of("https://a.com/1")).unwrap().weight, 2);
}

fn check_consistent(db: &CrawlDb) {
    for (domain, state) in db.domain_state().iter() {
        let urls = db.urls().get_all_urls(&domain);
        assert!(state.total_urls >= urls.len() as u64);
        for (_, url_state) in urls {
            if url_state.status == UrlStatus::Pending {
                assert!(state.weight >= url_state.weight);
            }
        }
    }
}

#[test]
fn counts_and_weights_stay_consistent() {
    let mut db = CrawlDb::with_shard_cap(100);
    let mut source = Recorded::new(Heavy);
    check_consistent(&db);
    db.insert_seed_urls(&vec![site("https://a.com"), site("https://b.com/x"), site("https://a.com")]);
    check_consistent(&db);
    db.insert_urls(&vec![
        response("https://a.com", &["https://b.com/x", "https://b.com/y", "https://c.com/"]),
        response("https://c.com", &["https://b.com/y", "https://a.com/z", "https://c.com/"]),
    ]);
    check_consistent(&db);
    db.set_domain_status(&domain_of("https://d.com"), DomainStatus::Pending);
    check_consistent(&db);
    let sampled = db.sample_domains(2, &mut source);
    assert_eq!(sampled.len(), 2);
    check_consistent(&db);
    let jobs = db.prepare_jobs(&sampled, 1, &mut source);
    assert_eq!(jobs.len(), 2);
    check_consistent(&db);
    db.insert_seed_urls(&vec![site("https://b.com/y")]);
    db.insert_urls(&vec![response("https://a.com", &["https://b.com/y"])]);
    check_consistent(&db);
    assert_eq!(
        db.urls().get(&domain_of("https://b.com"), &url_of("https://b.com/y")),
        Some(UrlState { weight: 1, status: UrlStatus::Pending })
    );
}

#[test]
fn second_sampling_returns_none_of_the_first() {
    let mut db = CrawlDb::new();
    let mut source = Recorded::new(Flat);
    db.insert_seed_urls(&vec![
        site("https://a.com"),
        site("https://b.com"),
        site("https://c.com"),
        site("https://d.com"),
    ]);
    let first = db.sample_domains(2, &mut source);
    let second = db.sample_domains(3, &mut source);
    assert_eq!(first.len(), 2);
    assert_eq!(second.len(), 2);
    for domain in &first {
        assert!(!second.contains(domain));
    }
}

#[test]
fn frontier_rolls_over_by_its_cap_and_reported_size() {
    let mut db = CrawlDb::with_shard_cap(1000);
    db.insert_seed_urls(&vec![site("https://a.com/1")]);
    db.insert_seed_urls(&vec![site("https://a.com/2")]);
    assert_eq!(db.urls().num_shards(), 1);
    db.report_size(1000);
    db.insert_seed_urls(&vec![site("https://a.com/3")]);
    assert_eq!(db.urls().num_shards(), 1);
    db.report_size(1001);
    assert_eq!(db.urls().approximate_size_bytes(), 1001);
    db.insert_seed_urls(&vec![site("https://a.com/4")]);
    assert_eq!(db.urls().num_shards(), 2);
    assert_eq!(db.urls().shard(0).approximate_size_bytes(), 1001);
    assert_eq!(db.urls().get_all_urls(&domain_of("https://a.com")).len(), 4);

    // the usual cap is far away
    let mut db = CrawlDb::new();
    db.insert_seed_urls(&vec![site("https://a.com/1")]);
    db.report_size(1001);
    db.insert_seed_urls(&vec![site("https://a.com/2")]);
    assert_eq!(db.urls().num_shards(), 1);
}

/// Notes the weights it is asked for.
struct Noting {
    asked: Vec<u64>,
}

impl PrioritySource for Noting {
    fn draw(&mut self, weight: u64) -> u64 {
        self.asked.push(weight);
        u64::MAX - weight
    }
}

#[test]
fn sampling_draws_for_the_weights_of_pending_items() {
    let mut db = CrawlDb::new();
    db.insert_seed_urls(&vec![site("https://a.com"), site("https://b.com"), site("https://c.com")]);
    db.insert_urls(&vec![
        response("https://a.com", &["https://b.com/x", "https://c.com/y"]),
        response("https://b.com", &["https://c.com/y"]),
    ]);
    db.insert_urls(&vec![response("https://a.com", &["https://c.com/y"])]);
    db.set_domain_status(&domain_of("https://a.com"), DomainStatus::NoUncrawledUrls);

    let mut source = Recorded::new(Noting { asked: Vec::new() });
    let sampled = db.sample_domains(1, &mut source);
    assert_eq!(sampled, vec![domain_of("https://c.com")]);
    let mut asked = source.into_inner().asked;
    asked.sort();
    // b.com has weight 1 and c.com weight 2; a.com is not pending
    assert_eq!(asked, vec![1, 2]);

    let mut source = Recorded::new(Noting { asked: Vec::new() });
    let job = db.prepare_job(&domain_of("https://c.com"), 1, &mut source);
    assert_eq!(job.urls.len(), 1);
    assert_eq!(job.urls[0], url_of("https://c.com/y"));
    let mut asked = source.into_inner().asked;
    asked.sort();
    assert_eq!(asked, vec![0, 2]);
}

#[test]
fn ingest_names_every_touched_domain_once() {
    let mut db = CrawlDb::new();
    let touched = db.insert_urls(&vec![
        response("https://a.com", &["https://b.com/x", "https://c.com/y", "https://b.com/z"]),
    ]);
    let mut all = touched.to_vec();
    all.sort();
    assert_eq!(all, vec![domain_of("https://b.com"), domain_of("https://c.com")]);
    assert_eq!(db.insert_urls(&Vec::new()).to_vec().len(), 0);
}
