//! Scenarios that walk a response through the whole library-side flow:
//! parse, build the entry, plan the L2 write, encode, decode, count the
//! hit, promote and serve.

use roxy::cache::{CacheConfig, HttpCache, StorePlan, l2_store_plan};
use roxy::codec::{decode_entry, encode_entry};
use roxy::entry::CacheEntry;
use roxy::parsing::{extract_host, parse_http_response};

fn small_cache() -> HttpCache {
    HttpCache::new(CacheConfig {
        l1_max_size: 2,
        l1_default_ttl: 20,
        promotion_threshold: 1,
        redis_url: String::from("redis://127.0.0.1/"),
    })
}

#[test]
fn miss_then_hit() {
    let raw = "HTTP/1.1 200 OK\r\nCache-Control: max-age=60\r\n\r\nBODY";
    let host = extract_host("GET /a HTTP/1.1\r\nHost: origin:80\r\n\r\n").unwrap();
    assert_eq!(host, "origin:80");
    let mut cache = small_cache();
    let now = 1000;

    // First request: L1 misses, the origin's reply is cached.
    assert!(cache.get_l1(&host, now).is_none());
    let parsed = parse_http_response(raw).unwrap();
    let entry = CacheEntry::new_at(raw.as_bytes().to_vec(), parsed.headers, now);
    assert!(entry.is_valid_at(now));
    assert_eq!(l2_store_plan(&entry, now), StorePlan::WithTtl(60));
    let record = encode_entry(&entry);

    // Second request within 60 s: the stored record serves the hit and,
    // with a threshold of 1, promotes into L1.
    let fetched = decode_entry(record.as_slice()).unwrap();
    let (got, promote) = cache.accept_l2_entry(&host, &fetched, now + 10);
    let got = got.unwrap();
    assert_eq!(got.response_data, raw.as_bytes().to_vec());
    assert!(promote);
    cache.put_l1(&host, got, now + 10);

    // Third request: L1 serves the identical bytes.
    let hit = cache.get_l1(&host, now + 20).unwrap();
    assert_eq!(hit.response_data, raw.as_bytes().to_vec());
}

#[test]
fn no_store_reply_is_never_cached() {
    let raw = "HTTP/1.1 200 OK\r\nCache-Control: no-store\r\n\r\nBODY";
    let mut cache = small_cache();
    let now = 1000;
    let parsed = parse_http_response(raw).unwrap();
    let entry = CacheEntry::new_at(raw.as_bytes().to_vec(), parsed.headers, now);
    // The entry is born stale: it is not written to L2 and L1 refuses it.
    assert!(!entry.is_valid_at(now));
    assert_eq!(l2_store_plan(&entry, now), StorePlan::Skip);
    assert_eq!(cache.put_l1("origin:80", entry, now), None);
    // A second identical request must go to the origin again.
    assert!(cache.get_l1("origin:80", now).is_none());
}

#[test]
fn three_hosts_evict_the_oldest() {
    let mut cache = small_cache();
    let now = 1000;
    for host in ["h1:80", "h2:80", "h3:80"] {
        let raw = "HTTP/1.1 200 OK\r\nCache-Control: max-age=60\r\n\r\nX";
        let parsed = parse_http_response(raw).unwrap();
        let entry = CacheEntry::new_at(raw.as_bytes().to_vec(), parsed.headers, now);
        assert!(cache.note_hit(host));
        cache.put_l1(host, entry, now);
    }
    assert!(cache.get_l1("h1:80", now + 1).is_none());
    assert!(cache.get_l1("h2:80", now + 1).is_some());
    assert!(cache.get_l1("h3:80", now + 1).is_some());
}
