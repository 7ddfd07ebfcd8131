use roxy::cache::{CacheConfig, HttpCache, StorePlan, l2_store_plan};
use roxy::entry::CacheEntry;
use roxy::headers::HeaderMap;

fn headers(pairs: &[(&str, &str)]) -> HeaderMap {
    let mut h = HeaderMap::new();
    for (k, v) in pairs {
        h.insert(k, String::from(*v));
    }
    h
}

fn entry(body: &str, pairs: &[(&str, &str)], now: u64) -> CacheEntry {
    CacheEntry::new_at(body.as_bytes().to_vec(), headers(pairs), now)
}

fn config(l1_max_size: usize, promotion_threshold: usize) -> CacheConfig {
    CacheConfig {
        l1_max_size,
        l1_default_ttl: 20,
        promotion_threshold,
        redis_url: String::from("redis://127.0.0.1/"),
    }
}

#[test]
fn default_config_values() {
    let c = CacheConfig::default();
    assert_eq!(c.l1_max_size, 1000);
    assert_eq!(c.l1_default_ttl, 20);
    assert_eq!(c.promotion_threshold, 5);
    assert_eq!(c.redis_url, "redis://127.0.0.1/");
}

#[test]
fn max_age_sets_expiry() {
    let e = entry("B", &[("Cache-Control", "max-age=60")], 1000);
    assert_eq!(e.expires_at, Some(1060));
    assert_eq!(e.timestamp, 1000);
    assert!(e.is_valid_at(1059));
    assert!(!e.is_valid_at(1060));
}

#[test]
fn last_max_age_wins() {
    let e = entry("B", &[("Cache-Control", "max-age=10, max-age=30")], 1000);
    assert_eq!(e.expires_at, Some(1030));
}

#[test]
fn no_store_is_born_stale() {
    let e = entry("B", &[("Cache-Control", "no-store")], 1000);
    assert_eq!(e.expires_at, Some(1000));
    assert!(!e.is_valid_at(1000));
}

#[test]
fn no_cache_is_born_stale() {
    let e = entry("B", &[("Cache-Control", "max-age=60, no-cache")], 1000);
    assert_eq!(e.expires_at, Some(1000));
    assert!(!e.is_valid_at(1000));
}

#[test]
fn max_age_zero_is_born_stale() {
    let e = entry("B", &[("Cache-Control", "max-age=0")], 1000);
    assert_eq!(e.expires_at, Some(1000));
    assert!(!e.is_valid_at(1000));
}

#[test]
fn expires_header_gives_short_expiry() {
    let e = entry("B", &[("Expires", "Thu, 01 Jan 2030 00:00:00 GMT")], 1000);
    assert_eq!(e.expires_at, Some(1005));
}

#[test]
fn expires_zero_or_empty_gives_none() {
    assert_eq!(entry("B", &[("Expires", "0")], 1000).expires_at, None);
    assert_eq!(entry("B", &[("Expires", "")], 1000).expires_at, None);
}

#[test]
fn no_freshness_headers_means_no_expiry() {
    let e = entry("B", &[("Content-Type", "text/plain")], 1000);
    assert_eq!(e.expires_at, None);
    assert!(e.is_valid_at(u64::MAX));
}

#[test]
fn malformed_max_age_is_ignored() {
    let e = entry("B", &[("Cache-Control", "max-age=abc")], 1000);
    assert_eq!(e.expires_at, None);
    let e2 = entry("B", &[("Cache-Control", "max-age=")], 1000);
    assert_eq!(e2.expires_at, None);
}

#[test]
fn validators_are_extracted() {
    let e = entry(
        "B",
        &[("ETag", "\"abc\""), ("Last-Modified", "yesterday")],
        1000,
    );
    assert_eq!(e.etag, Some(String::from("\"abc\"")));
    assert_eq!(e.last_modified, Some(String::from("yesterday")));
}

#[test]
fn conditional_headers_match_etag() {
    let e = entry("B", &[("ETag", "\"abc\"")], 1000);
    assert!(e.matches_conditional_headers(&headers(&[("If-None-Match", "\"abc\"")])));
    assert!(!e.matches_conditional_headers(&headers(&[("If-None-Match", "\"zzz\"")])));
    assert!(!e.matches_conditional_headers(&headers(&[])));
}

#[test]
fn conditional_headers_match_last_modified() {
    let e = entry("B", &[("Last-Modified", "yesterday")], 1000);
    assert!(e.matches_conditional_headers(&headers(&[("If-Modified-Since", "yesterday")])));
    assert!(!e.matches_conditional_headers(&headers(&[("If-Modified-Since", "today")])));
}

#[test]
fn response_bytes_are_kept_verbatim() {
    let e = entry("RAW BYTES", &[("Cache-Control", "max-age=60")], 1000);
    assert_eq!(e.response_data, b"RAW BYTES".to_vec());
}

#[test]
fn put_then_get_returns_the_entry() {
    let mut cache = HttpCache::new(config(10, 5));
    let e = entry("BODY", &[("Cache-Control", "max-age=60")], 1000);
    let ttl = cache.put_l1("h:80", e, 1000);
    assert_eq!(ttl, Some(60));
    let got = cache.get_l1("h:80", 1030).unwrap();
    assert_eq!(got.response_data, b"BODY".to_vec());
}

#[test]
fn get_l1_misses_on_empty_cache() {
    let mut cache = HttpCache::new(config(10, 5));
    assert!(cache.get_l1("h:80", 1000).is_none());
}

#[test]
fn expired_entry_is_dropped_on_lookup() {
    let mut cache = HttpCache::new(config(10, 5));
    let e = entry("BODY", &[("Cache-Control", "max-age=10")], 1000);
    cache.put_l1("h:80", e, 1000);
    assert!(cache.get_l1("h:80", 1010).is_none());
    // A later valid lookup still misses: the slot was removed.
    assert!(cache.get_l1("h:80", 1005).is_none());
}

#[test]
fn second_put_overwrites_first() {
    let mut cache = HttpCache::new(config(10, 5));
    cache.put_l1("h:80", entry("ONE", &[("Cache-Control", "max-age=60")], 1000), 1000);
    cache.put_l1("h:80", entry("TWO", &[("Cache-Control", "max-age=60")], 1000), 1000);
    let got = cache.get_l1("h:80", 1001).unwrap();
    assert_eq!(got.response_data, b"TWO".to_vec());
}

#[test]
fn born_stale_entry_is_refused() {
    let mut cache = HttpCache::new(config(10, 5));
    let e = entry("BODY", &[("Cache-Control", "no-store")], 1000);
    assert_eq!(cache.put_l1("h:80", e, 1000), None);
    assert!(cache.get_l1("h:80", 1000).is_none());
}

#[test]
fn lru_eviction_drops_least_recently_inserted() {
    let mut cache = HttpCache::new(config(2, 1));
    cache.put_l1("h1:80", entry("A", &[], 1000), 1000);
    cache.put_l1("h2:80", entry("B", &[], 1000), 1000);
    cache.put_l1("h3:80", entry("C", &[], 1000), 1000);
    assert!(cache.get_l1("h1:80", 1001).is_none());
    assert!(cache.get_l1("h2:80", 1001).is_some());
    assert!(cache.get_l1("h3:80", 1001).is_some());
}

#[test]
fn note_hit_promotes_at_threshold() {
    let mut cache = HttpCache::new(config(10, 3));
    assert!(!cache.note_hit("h:80"));
    assert!(!cache.note_hit("h:80"));
    assert!(cache.note_hit("h:80"));
    // The counter was erased on promotion; counting starts over.
    assert!(!cache.note_hit("h:80"));
}

#[test]
fn note_hit_promotes_immediately_at_threshold_one() {
    let mut cache = HttpCache::new(config(10, 1));
    assert!(cache.note_hit("h:80"));
    assert!(cache.note_hit("h:80"));
}

#[test]
fn accept_l2_entry_counts_and_returns() {
    let mut cache = HttpCache::new(config(10, 2));
    let e = entry("BODY", &[("Cache-Control", "max-age=60")], 1000);
    let (got, promote) = cache.accept_l2_entry("h:80", &e, 1001);
    assert!(got.is_some());
    assert!(!promote);
    let (got2, promote2) = cache.accept_l2_entry("h:80", &e, 1002);
    assert!(got2.is_some());
    assert!(promote2);
}

#[test]
fn accept_l2_entry_ignores_expired() {
    let mut cache = HttpCache::new(config(10, 1));
    let e = entry("BODY", &[("Cache-Control", "max-age=10")], 1000);
    let (got, promote) = cache.accept_l2_entry("h:80", &e, 1010);
    assert!(got.is_none());
    assert!(!promote);
}

#[test]
fn clear_empties_l1() {
    let mut cache = HttpCache::new(config(10, 5));
    cache.put_l1("h1:80", entry("A", &[], 1000), 1000);
    cache.put_l1("h2:80", entry("B", &[], 1000), 1000);
    cache.clear_l1();
    assert!(cache.get_l1("h1:80", 1000).is_none());
    assert!(cache.get_l1("h2:80", 1000).is_none());
}

#[test]
fn remove_l1_drops_the_host() {
    let mut cache = HttpCache::new(config(10, 5));
    cache.put_l1("h:80", entry("A", &[], 1000), 1000);
    cache.remove_l1("h:80");
    assert!(cache.get_l1("h:80", 1000).is_none());
}

#[test]
fn store_plan_uses_remaining_lifetime() {
    let e = entry("B", &[("Cache-Control", "max-age=60")], 1000);
    assert_eq!(l2_store_plan(&e, 1010), StorePlan::WithTtl(50));
    assert_eq!(l2_store_plan(&e, 1060), StorePlan::Skip);
}

#[test]
fn store_plan_without_expiry_has_no_ttl() {
    let e = entry("B", &[], 1000);
    assert_eq!(l2_store_plan(&e, 1010), StorePlan::NoTtl);
}

#[test]
fn put_l1_with_zero_capacity_stores_nothing() {
    let mut cache = HttpCache::new(config(0, 5));
    assert_eq!(cache.put_l1("h:80", entry("A", &[], 1000), 1000), None);
    assert!(cache.get_l1("h:80", 1000).is_none());
}
