use roxy::codec::{decode_entry, encode_entry};
use roxy::entry::CacheEntry;
use roxy::headers::HeaderMap;

fn sample_entry() -> CacheEntry {
    let mut h = HeaderMap::new();
    h.insert("Cache-Control", String::from("max-age=60"));
    h.insert("ETag", String::from("\"tag-\u{00e9}\u{4e2d}\""));
    CacheEntry::new_at(vec![0u8, 1, 2, 255, 254], h, 1234)
}

#[test]
fn round_trip_full_entry() {
    let e = sample_entry();
    let bytes = encode_entry(&e);
    let d = decode_entry(bytes.as_slice()).unwrap();
    assert_eq!(d.response_data, e.response_data);
    assert_eq!(d.timestamp, e.timestamp);
    assert_eq!(d.expires_at, e.expires_at);
    assert_eq!(d.etag, e.etag);
    assert_eq!(d.last_modified, e.last_modified);
    assert_eq!(
        d.headers.get("cache-control"),
        Some(String::from("max-age=60"))
    );
    assert_eq!(
        d.headers.get("etag"),
        Some(String::from("\"tag-\u{00e9}\u{4e2d}\""))
    );
}

#[test]
fn round_trip_minimal_entry() {
    let e = CacheEntry::new_at(Vec::new(), HeaderMap::new(), 0);
    let bytes = encode_entry(&e);
    let d = decode_entry(bytes.as_slice()).unwrap();
    assert_eq!(d.response_data, Vec::<u8>::new());
    assert_eq!(d.timestamp, 0);
    assert_eq!(d.expires_at, None);
    assert_eq!(d.etag, None);
    assert_eq!(d.last_modified, None);
    assert_eq!(d.headers.len(), 0);
}

#[test]
fn encoding_is_deterministic() {
    let a = encode_entry(&sample_entry());
    let b = encode_entry(&sample_entry());
    assert_eq!(a, b);
}

#[test]
fn truncated_record_is_rejected() {
    let bytes = encode_entry(&sample_entry());
    for cut in [0, 1, 7, bytes.len() / 2, bytes.len() - 1] {
        assert!(decode_entry(&bytes[..cut]).is_none());
    }
}

#[test]
fn trailing_garbage_is_rejected() {
    let mut bytes = encode_entry(&sample_entry());
    bytes.push(0);
    assert!(decode_entry(bytes.as_slice()).is_none());
}

#[test]
fn bad_flag_byte_is_rejected() {
    let e = CacheEntry::new_at(Vec::new(), HeaderMap::new(), 0);
    let mut bytes = encode_entry(&e);
    // The expiry flag sits right after the 8-byte timestamp.
    bytes[8] = 9;
    assert!(decode_entry(bytes.as_slice()).is_none());
}

#[test]
fn invalid_scalar_value_is_rejected() {
    let mut h = HeaderMap::new();
    h.insert("a", String::from("x"));
    let e = CacheEntry::new_at(Vec::new(), h, 0);
    let bytes = encode_entry(&e);
    // The final 4 bytes encode the character 'x' of the value; 0xD800 is
    // not a scalar value.
    let n = bytes.len();
    let mut bad = bytes.clone();
    bad[n - 4] = 0x00;
    bad[n - 3] = 0xD8;
    bad[n - 2] = 0x00;
    bad[n - 1] = 0x00;
    assert!(decode_entry(bad.as_slice()).is_none());
}
