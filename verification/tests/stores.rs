use stract::bytes::{bytes_eq, bytes_le, bytes_lt};
use stract::key::{key_of_url, prefix_of_domain, text_key, text_of_key, url_of_key, SEPARATOR};
use stract::model::{DomainState, DomainStatus, RangeRecord, UrlState, UrlStatus};
use stract::shard::{grow_size, stored_len, UrlStateDbShard};
use stract::stores::{DomainStateDb, RangesDb, RedirectDb};
use stract::table::OrderedTable;
use stract::url_store::{UrlStateDb, MAX_URL_DB_SIZE_BYTES};

fn text(s: &str) -> String {
    s.to_string()
}

fn pending(weight: u64) -> UrlState {
    UrlState { weight, status: UrlStatus::Pending }
}

#[test]
fn text_key_is_length_then_bytes() {
    assert_eq!(text_key(&text("ab")), vec![2, 0, 0, 0, 0, 0, 0, 0, b'a', b'b']);
    assert_eq!(text_key(&text("")), vec![0, 0, 0, 0, 0, 0, 0, 0]);
    assert_eq!(text_key(&text("é")), vec![2, 0, 0, 0, 0, 0, 0, 0, 0xc3, 0xa9]);
}

#[test]
fn composite_key_joins_domain_and_url() {
    assert_eq!(SEPARATOR, b'/');
    assert_eq!(
        key_of_url(&text("a"), &text("bc")),
        vec![1, 0, 0, 0, 0, 0, 0, 0, b'a', b'/', 2, 0, 0, 0, 0, 0, 0, 0, b'b', b'c']
    );
    assert_eq!(prefix_of_domain(&text("a")), vec![1, 0, 0, 0, 0, 0, 0, 0, b'a', b'/']);
}

#[test]
fn key_reads_back() {
    let key = key_of_url(&text("example.com"), &text("https://example.com/ü"));
    let prefix = prefix_of_domain(&text("example.com"));
    assert_eq!(url_of_key(&key, prefix.len()), Some(text("https://example.com/ü")));
    assert_eq!(text_of_key(&key), Some(text("example.com")));
    assert_eq!(text_of_key(&text_key(&text("x"))), Some(text("x")));
}

#[test]
fn malformed_keys_read_as_nothing() {
    assert_eq!(text_of_key(&vec![1, 0, 0]), None);
    assert_eq!(text_of_key(&vec![2, 0, 0, 0, 0, 0, 0, 0, b'a']), None);
    assert_eq!(text_of_key(&vec![1, 0, 0, 0, 0, 0, 0, 0, 0xff]), None);
    // bytes behind the text are ignored
    assert_eq!(text_of_key(&vec![1, 0, 0, 0, 0, 0, 0, 0, b'a', 0xff]), Some(text("a")));
    assert_eq!(url_of_key(&vec![1, 2, 3], 4), None);
    assert_eq!(url_of_key(&vec![1, 2, 3], 3), None);
}

#[test]
fn bytes_order_is_lexicographic() {
    let cases: Vec<(Vec<u8>, Vec<u8>)> = vec![
        (vec![], vec![]),
        (vec![], vec![0]),
        (vec![1], vec![1, 0]),
        (vec![1, 2], vec![1, 3]),
        (vec![2], vec![1, 9, 9]),
        (vec![255], vec![255]),
    ];
    for (a, b) in cases.iter() {
        assert_eq!(bytes_lt(a, b), a < b);
        assert_eq!(bytes_lt(b, a), b < a);
        assert_eq!(bytes_le(a, b), a <= b);
        assert_eq!(bytes_le(b, a), b <= a);
        assert_eq!(bytes_eq(a, b), a == b);
    }
}

#[test]
fn ordered_table_keeps_key_order() {
    let mut table: OrderedTable<u32> = OrderedTable::new();
    table.put(vec![3], 30);
    table.put(vec![1], 10);
    table.put(vec![2, 0], 20);
    table.put(vec![2], 21);
    table.put(vec![1], 11);
    assert_eq!(table.len(), 4);
    let keys: Vec<Vec<u8>> = (0..table.len()).map(|i| table.key_at(i).clone()).collect();
    assert_eq!(keys, vec![vec![1], vec![2], vec![2, 0], vec![3]]);
    assert_eq!(table.get(&vec![1]), Some(&11));
    assert_eq!(table.get(&vec![2, 0]), Some(&20));
    assert_eq!(table.get(&vec![4]), None);
    assert_eq!(*table.value_at(3), 30);
    assert_eq!(table.lower_bound(&vec![2]), 1);
    assert_eq!(table.lower_bound(&vec![2, 0, 0]), 3);
    assert_eq!(table.range(&vec![2], &vec![2, 0]), (1, 3));
    assert_eq!(table.range(&vec![0], &vec![0, 5]), (0, 0));
    assert_eq!(table.range(&vec![3], &vec![1]), (3, 3));
}

#[test]
fn domain_store_round_trip() {
    let mut db = DomainStateDb::new();
    let state = DomainState { weight: 4, status: DomainStatus::CrawlInProgress, total_urls: 7 };
    assert_eq!(db.get(&text("a.com")), None);
    db.put(&text("b.com"), &DomainState::default());
    db.put(&text("a.com"), &state);
    assert_eq!(db.get(&text("a.com")), Some(state));
    assert_eq!(
        db.get(&text("b.com")),
        Some(DomainState { weight: 0, status: DomainStatus::Pending, total_urls: 0 })
    );
    let mut all = db.iter();
    all.sort_by(|x, y| x.0.cmp(&y.0));
    assert_eq!(all, vec![(text("a.com"), state), (text("b.com"), DomainState::default())]);
}

#[test]
fn redirect_store_round_trip() {
    let mut db = RedirectDb::new();
    assert_eq!(db.get(&text("u")), None);
    db.put(&text("u"), &text("v"));
    db.put(&text("u"), &text("w"));
    assert_eq!(db.get(&text("u")), Some(text("w")));
}

#[test]
fn ranges_store_round_trip() {
    let mut db = RangesDb::new();
    assert!(db.get(&text("a.com")).is_none());
    db.put(&text("a.com"), &RangeRecord { start: vec![1], end: vec![2] });
    let range = db.get(&text("a.com")).unwrap();
    assert_eq!(range.start, vec![1]);
    assert_eq!(range.end, vec![2]);
}

#[test]
fn shard_lists_urls_of_one_domain_in_key_order() {
    let mut shard = UrlStateDbShard::new();
    let a = text("a.com");
    let b = text("b.com");
    shard.put_batch(&a, &vec![(text("https://a.com/2"), pending(2)), (text("https://a.com/1"), pending(1))]);
    shard.put_batch(&b, &vec![(text("https://b.com/1"), pending(9))]);
    shard.put_batch(&a, &vec![(text("https://a.com/2"), pending(5)), (text("https://a.com/"), pending(0))]);
    assert_eq!(
        shard.get_all_urls(&a),
        vec![
            (text("https://a.com/"), pending(0)),
            (text("https://a.com/1"), pending(1)),
            (text("https://a.com/2"), pending(5)),
        ]
    );
    assert_eq!(shard.get_all_urls(&b), vec![(text("https://b.com/1"), pending(9))]);
    assert_eq!(shard.get_all_urls(&text("c.com")), vec![]);
    assert_eq!(shard.get(&a, &text("https://a.com/2")), Some(pending(5)));
    assert_eq!(shard.get(&b, &text("https://a.com/2")), None);
}

#[test]
fn shard_lists_only_its_domain_between_neighbours() {
    // domains of the same length, whose keys lie next to each other
    let mut shard = UrlStateDbShard::new();
    for d in ["ab", "aa", "ac"] {
        shard.put_batch(&text(d), &vec![(text("z"), pending(1)), (text("a"), pending(2))]);
    }
    assert_eq!(shard.get_all_urls(&text("ab")), vec![(text("a"), pending(2)), (text("z"), pending(1))]);
}

#[test]
fn shard_size_counts_keys_and_states() {
    let mut shard = UrlStateDbShard::new();
    assert_eq!(shard.approximate_size_bytes(), 0);
    shard.put_batch(&text("a"), &vec![(text("bc"), pending(0))]);
    // 9 + 1 + 10 bytes of key, 12 of state
    assert_eq!(shard.approximate_size_bytes(), 32);
    let failed = UrlState { weight: 0, status: UrlStatus::Failed { status_code: Some(500) } };
    shard.put_batch(&text("a"), &vec![(text("bc"), failed)]);
    assert_eq!(shard.approximate_size_bytes(), 32 + 20 + 15);
    assert_eq!(stored_len(&pending(3)), 12);
    assert_eq!(stored_len(&UrlState { weight: 0, status: UrlStatus::Failed { status_code: None } }), 13);
    assert_eq!(stored_len(&UrlState { weight: 0, status: UrlStatus::Done }), 12);
    assert_eq!(grow_size(u64::MAX - 1, 5), u64::MAX);
    assert_eq!(grow_size(7, 5), 12);
}

#[test]
fn url_store_rolls_over_past_the_limit() {
    assert_eq!(MAX_URL_DB_SIZE_BYTES, 10 * 1024 * 1024 * 1024);
    let mut db = UrlStateDb::with_shard_cap(31);
    let a = text("a");
    assert_eq!(db.num_shards(), 1);
    db.put_batch(&a, &vec![(text("bc"), pending(1))]);
    // the shard holds 32 bytes now, one more than the limit
    assert_eq!(db.num_shards(), 1);
    db.put_batch(&a, &vec![(text("bd"), pending(2))]);
    assert_eq!(db.num_shards(), 2);
    db.put_batch(&a, &vec![(text("bc"), pending(3))]);
    assert_eq!(db.num_shards(), 3);
    assert_eq!(db.get(&a, &text("bc")), Some(pending(3)));
    assert_eq!(db.get(&a, &text("bd")), Some(pending(2)));
    assert_eq!(db.get(&a, &text("be")), None);
    let mut all = db.get_all_urls(&a);
    all.sort_by(|x, y| x.0.cmp(&y.0));
    assert_eq!(all, vec![(text("bc"), pending(3)), (text("bd"), pending(2))]);
}

#[test]
fn url_store_rolls_over_by_reported_size() {
    let mut db = UrlStateDb::with_shard_cap(1000);
    let a = text("a");
    db.put_batch(&a, &vec![(text("bc"), pending(1))]);
    assert_eq!(db.approximate_size_bytes(), 32);
    db.report_size(1001);
    assert_eq!(db.approximate_size_bytes(), 1001);
    assert_eq!(db.num_shards(), 1);
    db.put_batch(&a, &vec![(text("bd"), pending(2))]);
    assert_eq!(db.num_shards(), 2);
    assert_eq!(db.approximate_size_bytes(), 32);
    assert_eq!(db.shard(0).approximate_size_bytes(), 1001);
    assert_eq!(db.get(&a, &text("bc")), Some(pending(1)));
}

#[test]
fn url_store_from_shards_keeps_order() {
    let a = text("a");
    let mut old = UrlStateDbShard::new();
    old.put_batch(&a, &vec![(text("u"), pending(1)), (text("v"), pending(1))]);
    let mut new = UrlStateDbShard::new();
    new.put_batch(&a, &vec![(text("u"), pending(2))]);
    let db = UrlStateDb::from_shards(vec![old, new], 100);
    assert_eq!(db.num_shards(), 2);
    assert_eq!(db.get(&a, &text("u")), Some(pending(2)));
    assert_eq!(db.get(&a, &text("v")), Some(pending(1)));
    let empty = UrlStateDb::from_shards(Vec::new(), 100);
    assert_eq!(empty.num_shards(), 1);
    assert_eq!(empty.get(&a, &text("u")), None);
}

#[test]
fn shard_range_encloses_keys_and_never_shrinks() {
    let mut shard = UrlStateDbShard::new();
    let a = text("a");
    assert!(shard.range(&a).is_none());
    shard.put_batch(&a, &vec![(text("m"), pending(0))]);
    let first = shard.range(&a).unwrap();
    assert_eq!(first.start, key_of_url(&a, &text("m")));
    assert_eq!(first.end, key_of_url(&a, &text("m")));
    shard.put_batch(&a, &vec![(text("z"), pending(0)), (text("b"), pending(0)), (text("n"), pending(0))]);
    let second = shard.range(&a).unwrap();
    assert_eq!(second.start, key_of_url(&a, &text("b")));
    assert_eq!(second.end, key_of_url(&a, &text("z")));
    shard.put_batch(&a, &Vec::new());
    assert_eq!(shard.range(&a).unwrap().end, key_of_url(&a, &text("z")));
    assert!(shard.range(&text("b")).is_none());
}

#[test]
fn url_store_stays_in_one_shard_at_the_limit() {
    let mut db = UrlStateDb::with_shard_cap(32);
    let a = text("a");
    db.put_batch(&a, &vec![(text("bc"), pending(1))]);
    db.put_batch(&a, &vec![(text("bd"), pending(2))]);
    assert_eq!(db.num_shards(), 1);
    db.put_batch(&a, &vec![(text("be"), pending(2))]);
    assert_eq!(db.num_shards(), 2);
}

#[test]
fn url_store_later_write_in_batch_wins() {
    let mut db = UrlStateDb::new();
    let a = text("a");
    db.put_batch(&a, &vec![(text("u"), pending(1)), (text("u"), pending(2))]);
    assert_eq!(db.get(&a, &text("u")), Some(pending(2)));
    assert_eq!(db.get_all_urls(&a), vec![(text("u"), pending(2))]);
}

#[test]
fn batch_after_rollover_lands_in_the_newest_shard_only() {
    let mut db = UrlStateDb::with_shard_cap(31);
    let a = text("a");
    db.put_batch(&a, &vec![(text("bc"), pending(1)), (text("bd"), pending(1))]);
    db.put_batch(&a, &vec![(text("be"), pending(2))]);
    assert_eq!(db.num_shards(), 2);
    // the older shard keeps what it held, the new one holds the batch and nothing else
    assert_eq!(
        db.shard(0).get_all_urls(&a),
        vec![(text("bc"), pending(1)), (text("bd"), pending(1))]
    );
    assert_eq!(db.shard(1).get_all_urls(&a), vec![(text("be"), pending(2))]);
    let range = db.shard(1).range(&a).unwrap();
    assert_eq!(range.start, key_of_url(&a, &text("be")));
    assert_eq!(range.end, key_of_url(&a, &text("be")));
    let older = db.shard(0).range(&a).unwrap();
    assert_eq!(older.start, key_of_url(&a, &text("bc")));
    assert_eq!(older.end, key_of_url(&a, &text("bd")));
}

#[test]
fn empty_batch_leaves_the_range_index_as_it_was() {
    let mut shard = UrlStateDbShard::new();
    let a = text("a");
    shard.put_batch(&a, &Vec::new());
    assert!(shard.range(&a).is_none());
    assert_eq!(shard.approximate_size_bytes(), 0);
    shard.put_batch(&a, &vec![(text("m"), pending(0))]);
    shard.put_batch(&text("b"), &Vec::new());
    assert!(shard.range(&text("b")).is_none());
    let range = shard.range(&a).unwrap();
    assert_eq!(range.start, key_of_url(&a, &text("m")));
    assert_eq!(range.end, key_of_url(&a, &text("m")));
}
