use logfetch::cache::{cache_key, cache_lookup, cache_store_entry, get_or_fetch, CacheStore};
use logfetch::codec::{decode_records_blob, encode_records_blob};
use logfetch::records::{Page, Record};

fn rec(timestamp: i64, text: &str, ingested_at: i64) -> Record {
    Record { timestamp, text: text.to_string(), ingested_at }
}

#[test]
fn blob_round_trips() {
    let records = vec![
        rec(1700000000123, "plain ascii line", 1700000000456),
        rec(-42, "tabs\tand\nnewlines", 0),
        rec(i64::MIN, "", i64::MAX),
        rec(7, "ünïcode — π ≈ 3.14159 🦀", 7),
    ];
    let blob = encode_records_blob(&records);
    let back = decode_records_blob(&blob).expect("an encoded blob must decode");
    assert_eq!(back, records);
}

#[test]
fn empty_record_set_round_trips() {
    let records: Vec<Record> = vec![];
    let blob = encode_records_blob(&records);
    assert_eq!(blob.len(), 8);
    let back = decode_records_blob(&blob).unwrap();
    assert!(back.is_empty());
}

#[test]
fn garbage_blobs_are_rejected() {
    assert!(decode_records_blob(&vec![]).is_none());
    assert!(decode_records_blob(&vec![1, 2, 3]).is_none());
    // A count of one record with no record bytes behind it.
    assert!(decode_records_blob(&vec![1, 0, 0, 0, 0, 0, 0, 0]).is_none());
    // A valid blob with a trailing byte is not an encoding.
    let mut blob = encode_records_blob(&vec![rec(1, "x", 2)]);
    blob.push(0);
    assert!(decode_records_blob(&blob).is_none());
    // A surrogate code point in the text section is not a character.
    let mut blob = encode_records_blob(&vec![rec(1, "x", 2)]);
    let surrogate = 0xD800u32.to_le_bytes();
    let n = blob.len();
    blob[n - 4..].copy_from_slice(&surrogate);
    assert!(decode_records_blob(&blob).is_none());
}

#[test]
fn cache_keys_sanitize_non_alphanumerics() {
    assert_eq!(cache_key("my-group", "stream9"), "my_group/stream9");
    assert_eq!(cache_key("/aws/lambda/fn", "2024/01/01"), "_aws_lambda_fn/2024_01_01");
    assert_eq!(cache_key("", ""), "/");
}

#[test]
fn cache_round_trip_serves_second_call_from_store() {
    let mut store = CacheStore::new();
    // First call: a miss; the caller fetches and writes back.
    assert!(cache_lookup(&store, "group", "stream").is_none());
    let fetched = vec![rec(3, "c", 0), rec(1, "a", 0)];
    cache_store_entry(&mut store, "group", "stream", &fetched);
    // Second call: a hit returning the cached records unchanged, no fetch
    // function consulted at all.
    let hit = cache_lookup(&store, "group", "stream").expect("second call must hit");
    assert_eq!(hit, fetched);
}

#[test]
fn colliding_keys_alias_their_entries() {
    // "a/b" and "a.b" sanitize to the same key: the second identity reads
    // the first one's stale content. Documented current behaviour.
    assert_eq!(cache_key("g", "a/b"), cache_key("g", "a.b"));
    let mut store = CacheStore::new();
    let first = vec![rec(1, "cached under a/b", 0)];
    cache_store_entry(&mut store, "g", "a/b", &first);
    let aliased = cache_lookup(&store, "g", "a.b").expect("the colliding key must hit");
    assert_eq!(aliased, first);
}

#[test]
fn get_or_fetch_is_idempotent_even_when_refetching_would_fail() {
    let mut store = CacheStore::new();
    let pages = vec![Page {
        records: vec![rec(2, "b", 0), rec(1, "a", 0)],
        forward_token: "t".to_string(),
        backward_token: "bk".to_string(),
    }, Page {
        records: vec![],
        forward_token: "t2".to_string(),
        backward_token: "bk2".to_string(),
    }];
    let first = get_or_fetch(&mut store, "g", "s", pages).expect("first call fetches");
    assert_eq!(first.len(), 2);
    // Second call with the same identity and a page run on which any fetch
    // would fail: it must succeed anyway, served from the cache unchanged.
    let failing_pages: Vec<Page> = vec![];
    let second = get_or_fetch(&mut store, "g", "s", failing_pages)
        .expect("second call must be a hit");
    assert_eq!(second, first);
}

#[test]
fn undecodable_entry_counts_as_miss() {
    let mut store = CacheStore::new();
    let key = cache_key("g", "s");
    store.write(key, vec![0xde, 0xad, 0xbe, 0xef]);
    assert!(cache_lookup(&store, "g", "s").is_none());
}

#[test]
fn last_write_wins_in_the_store() {
    let mut store = CacheStore::new();
    let old = vec![rec(1, "old", 0)];
    let new = vec![rec(2, "new", 0)];
    cache_store_entry(&mut store, "g", "s", &old);
    cache_store_entry(&mut store, "g", "s", &new);
    assert_eq!(cache_lookup(&store, "g", "s").unwrap(), new);
}
