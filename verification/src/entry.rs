//! Cache entries and the freshness policy.
//!
//! An entry records a raw origin response together with the metadata that
//! decides how long it may be served: its insertion time, an optional
//! expiry instant derived from `Cache-Control` / `Expires`, and the
//! validators `ETag` / `Last-Modified`.

use vstd::prelude::*;

use crate::headers::{spec_lookup, HeaderMap};
use crate::text::{
    all_digits, chars_to_string, dec_val, eq_chars, find_from, lemma_find_from, parse_u64,
    slice_to_vec_chars, spec_trim, to_chars, trim_chars,
};

verus! {

// ---------------------------------------------------------------------------
// Header names.
// ---------------------------------------------------------------------------

pub open spec fn key_cache_control() -> Seq<char> {
    seq!['c', 'a', 'c', 'h', 'e', '-', 'c', 'o', 'n', 't', 'r', 'o', 'l']
}

pub open spec fn key_expires() -> Seq<char> {
    seq!['e', 'x', 'p', 'i', 'r', 'e', 's']
}

pub open spec fn key_etag() -> Seq<char> {
    seq!['e', 't', 'a', 'g']
}

pub open spec fn key_last_modified() -> Seq<char> {
    seq!['l', 'a', 's', 't', '-', 'm', 'o', 'd', 'i', 'f', 'i', 'e', 'd']
}

pub open spec fn key_if_none_match() -> Seq<char> {
    seq!['i', 'f', '-', 'n', 'o', 'n', 'e', '-', 'm', 'a', 't', 'c', 'h']
}

pub open spec fn key_if_modified_since() -> Seq<char> {
    seq!['i', 'f', '-', 'm', 'o', 'd', 'i', 'f', 'i', 'e', 'd', '-', 's', 'i', 'n', 'c', 'e']
}

// ---------------------------------------------------------------------------
// Cache-Control directives.
// ---------------------------------------------------------------------------

/// The comma-separated directives of a `Cache-Control` value, each trimmed,
/// starting at index `i`.
pub open spec fn dirs_from(s: Seq<char>, i: int) -> Seq<Seq<char>>
    decreases s.len() - i,
{
    if i < 0 || i > s.len() {
        Seq::empty()
    } else {
        let c = find_from(s, i, ',');
        if c >= s.len() {
            seq![spec_trim(s.subrange(i, s.len() as int))]
        } else {
            proof {
                lemma_find_from(s, i, ',');
            }
            seq![spec_trim(s.subrange(i, c))] + dirs_from(s, c + 1)
        }
    }
}

pub open spec fn no_store_dir() -> Seq<char> {
    seq!['n', 'o', '-', 's', 't', 'o', 'r', 'e']
}

pub open spec fn no_cache_dir() -> Seq<char> {
    seq!['n', 'o', '-', 'c', 'a', 'c', 'h', 'e']
}

/// Whether some directive forbids storing: `no-store` or `no-cache`.
pub open spec fn has_no_store(ds: Seq<Seq<char>>) -> bool {
    exists|i: int|
        0 <= i < ds.len() && ((#[trigger] ds[i]) == no_store_dir() || ds[i] == no_cache_dir())
}

pub open spec fn max_age_prefix() -> Seq<char> {
    seq!['m', 'a', 'x', '-', 'a', 'g', 'e', '=']
}

/// Whether a directive is a well-formed `max-age=N` with `N` a decimal
/// number that fits a `u64`.
pub open spec fn is_max_age_dir(d: Seq<char>) -> bool {
    d.len() > 8 && d.take(8) == max_age_prefix() && all_digits(d.skip(8)) && dec_val(d.skip(8))
        <= u64::MAX
}

/// The value of the last well-formed `max-age=N` directive, if any.
pub open spec fn last_max_age(ds: Seq<Seq<char>>) -> Option<int>
    decreases ds.len(),
{
    if ds.len() == 0 {
        None
    } else if is_max_age_dir(ds.last()) {
        Some(dec_val(ds.last().skip(8)))
    } else {
        last_max_age(ds.drop_last())
    }
}

// ---------------------------------------------------------------------------
// The freshness policy.
// ---------------------------------------------------------------------------

/// `a + b`, saturating at the largest `u64`.
pub open spec fn sat_add_u64(a: u64, b: int) -> u64 {
    if a + b > u64::MAX {
        u64::MAX
    } else {
        (a + b) as u64
    }
}

/// The expiry instant assigned by the `Expires` fallback rule: any
/// non-empty value other than the literal `0` yields a fixed short expiry.
pub open spec fn expires_fallback(headers: Seq<(Seq<char>, Seq<char>)>, now: u64) -> Option<u64> {
    match spec_lookup(headers, key_expires()) {
        Some(e) => if e.len() > 0 && e != seq!['0'] {
            Some(sat_add_u64(now, 5))
        } else {
            None
        },
        None => None,
    }
}

/// The expiry instant of a response inserted at `now`, applied in order:
/// a `no-store` / `no-cache` directive makes the entry expire immediately;
/// else `max-age=N` yields `now + N`; else a usable `Expires` header yields
/// the fallback; else there is no expiry.
pub open spec fn spec_expiry(headers: Seq<(Seq<char>, Seq<char>)>, now: u64) -> Option<u64> {
    match spec_lookup(headers, key_cache_control()) {
        Some(cc) => {
            let ds = dirs_from(cc, 0);
            if has_no_store(ds) {
                Some(now)
            } else {
                match last_max_age(ds) {
                    Some(n) => Some(sat_add_u64(now, n)),
                    None => expires_fallback(headers, now),
                }
            }
        },
        None => expires_fallback(headers, now),
    }
}

// ---------------------------------------------------------------------------
// The entry type.
// ---------------------------------------------------------------------------

/// The mathematical content of a cache entry.
#[verifier::ext_equal]
pub struct EntryView {
    pub response_data: Seq<u8>,
    pub headers: Seq<(Seq<char>, Seq<char>)>,
    pub timestamp: u64,
    pub last_modified: Option<Seq<char>>,
    pub etag: Option<Seq<char>>,
    pub expires_at: Option<u64>,
}

/// A cached HTTP response with the metadata that decides its freshness.
pub struct CacheEntry {
    /// The raw response bytes, exactly as received from the origin.
    pub response_data: Vec<u8>,
    /// The response headers, keyed by lowercased name.
    pub headers: HeaderMap,
    /// Insertion time, in seconds since the epoch.
    pub timestamp: u64,
    /// The `Last-Modified` validator, when present.
    pub last_modified: Option<String>,
    /// The `ETag` validator, when present.
    pub etag: Option<String>,
    /// The expiry instant; absent means no explicit expiry.
    pub expires_at: Option<u64>,
}

impl View for CacheEntry {
    type V = EntryView;

    open spec fn view(&self) -> EntryView {
        EntryView {
            response_data: self.response_data@,
            headers: self.headers@,
            timestamp: self.timestamp,
            last_modified: self.last_modified.deep_view(),
            etag: self.etag.deep_view(),
            expires_at: self.expires_at,
        }
    }
}

/// The entry built from a response inserted at `now`.
pub open spec fn spec_new_entry(
    data: Seq<u8>,
    headers: Seq<(Seq<char>, Seq<char>)>,
    now: u64,
) -> EntryView {
    EntryView {
        response_data: data,
        headers,
        timestamp: now,
        last_modified: spec_lookup(headers, key_last_modified()),
        etag: spec_lookup(headers, key_etag()),
        expires_at: spec_expiry(headers, now),
    }
}

/// Whether the entry may still be served at `now`: no expiry, or an expiry
/// still in the future.
pub open spec fn entry_valid_at(e: EntryView, now: u64) -> bool {
    match e.expires_at {
        None => true,
        Some(x) => now < x,
    }
}

/// Whether the entry was already stale at its own insertion time; such an
/// entry must never be stored in either tier.
pub open spec fn born_stale(e: EntryView) -> bool {
    match e.expires_at {
        None => false,
        Some(x) => x <= e.timestamp,
    }
}

/// Whether the request's conditional headers match this entry's validators:
/// `If-None-Match` is compared against `ETag` when both are present,
/// otherwise `If-Modified-Since` against `Last-Modified`.
pub open spec fn spec_matches_conditional(e: EntryView, req: Seq<(Seq<char>, Seq<char>)>) -> bool {
    if spec_lookup(req, key_if_none_match()) is Some && e.etag is Some {
        spec_lookup(req, key_if_none_match()) == e.etag
    } else if spec_lookup(req, key_if_modified_since()) is Some && e.last_modified is Some {
        spec_lookup(req, key_if_modified_since()) == e.last_modified
    } else {
        false
    }
}

/// Law: a response whose `Cache-Control` names `max-age=0` (and no
/// stronger directive) is born stale: it expires at its own insertion
/// instant, is invalid immediately, and so is never stored in either tier.
pub proof fn lemma_max_age_zero_rejected(
    data: Seq<u8>,
    headers: Seq<(Seq<char>, Seq<char>)>,
    cc: Seq<char>,
    now: u64,
)
    requires
        spec_lookup(headers, key_cache_control()) == Some(cc),
        !has_no_store(dirs_from(cc, 0)),
        last_max_age(dirs_from(cc, 0)) == Some(0int),
    ensures
        spec_new_entry(data, headers, now).expires_at == Some(now),
        !entry_valid_at(spec_new_entry(data, headers, now), now),
        born_stale(spec_new_entry(data, headers, now)),
{
}

/// Law: a response whose `Cache-Control` names `no-store` or `no-cache`
/// is born stale: it expires at its own insertion instant, is invalid
/// immediately, and so is never stored in either tier.
pub proof fn lemma_no_store_rejected(
    data: Seq<u8>,
    headers: Seq<(Seq<char>, Seq<char>)>,
    cc: Seq<char>,
    now: u64,
)
    requires
        spec_lookup(headers, key_cache_control()) == Some(cc),
        has_no_store(dirs_from(cc, 0)),
    ensures
        spec_new_entry(data, headers, now).expires_at == Some(now),
        !entry_valid_at(spec_new_entry(data, headers, now), now),
        born_stale(spec_new_entry(data, headers, now)),
{
}

/// Relies on `std::time::SystemTime::now` and
/// `Duration::as_secs` after `duration_since(UNIX_EPOCH)`: the wall clock,
/// in whole seconds since the epoch.  Nothing is assumed of the value.
#[verifier::external_body]
pub(crate) fn now_secs() -> u64 {
    std::time::SystemTime::now()
        .duration_since(std::time::UNIX_EPOCH)
        .unwrap_or_default()
        .as_secs()
}

/// Splits a `Cache-Control` value into trimmed directives.
fn split_dirs(s: &[char]) -> (r: Vec<Vec<char>>)
    ensures
        r.deep_view() == dirs_from(s@, 0),
{
    let mut out: Vec<Vec<char>> = Vec::new();
    let mut i: usize = 0;
    loop
        invariant
            0 <= i <= s@.len(),
            dirs_from(s@, 0) == out.deep_view() + dirs_from(s@, i as int),
        decreases s@.len() - i,
    {
        let c = crate::text::find_char(s, i, ',');
        let piece = slice_to_vec_chars(s, i, c);
        let d = trim_chars(piece.as_slice());
        proof {
            assert(piece@ =~= s@.subrange(i as int, c as int));
        }
        let ghost old_out = out.deep_view();
        out.push(d);
        if c >= s.len() {
            proof {
                assert(out.deep_view() =~~= old_out + seq![
                    spec_trim(s@.subrange(i as int, s@.len() as int)),
                ]);
            }
            return out;
        }
        proof {
            assert(out.deep_view() =~~= old_out + seq![spec_trim(s@.subrange(i as int, c as int))]);
            assert(out.deep_view() + dirs_from(s@, c as int + 1) =~~= old_out + (seq![
                spec_trim(s@.subrange(i as int, c as int)),
            ] + dirs_from(s@, c as int + 1)));
        }
        i = c + 1;
    }
}

/// Whether a directive equals `no-store` or `no-cache`.
fn is_no_store_dir(d: &[char]) -> (r: bool)
    ensures
        r == (d@ == no_store_dir() || d@ == no_cache_dir()),
{
    let ns = to_chars("no-store");
    let nc = to_chars("no-cache");
    proof {
        reveal_strlit("no-store");
        reveal_strlit("no-cache");
        assert(ns@ =~= no_store_dir());
        assert(nc@ =~= no_cache_dir());
    }
    eq_chars(d, ns.as_slice()) || eq_chars(d, nc.as_slice())
}

/// Parses a directive as `max-age=N`; yields `N` when well formed.
fn parse_max_age(d: &[char]) -> (r: Option<u64>)
    ensures
        match r {
            Some(v) => is_max_age_dir(d@) && v == dec_val(d@.skip(8)),
            None => !is_max_age_dir(d@),
        },
{
    if d.len() <= 8 {
        return None;
    }
    let ma = to_chars("max-age=");
    proof {
        reveal_strlit("max-age=");
        assert(ma@ =~= max_age_prefix());
    }
    let prefix = slice_to_vec_chars(d, 0, 8);
    proof {
        assert(prefix@ =~= d@.take(8));
    }
    if !eq_chars(prefix.as_slice(), ma.as_slice()) {
        return None;
    }
    let digits = slice_to_vec_chars(d, 8, d.len());
    proof {
        assert(digits@ =~= d@.skip(8));
    }
    parse_u64(digits.as_slice())
}

/// The expiry instant of a response inserted at `now`, computed from its
/// headers as `spec_expiry` describes.
fn compute_expiry(headers: &HeaderMap, now: u64) -> (r: Option<u64>)
    ensures
        r == spec_expiry(headers@, now),
{
    let cc = match headers.get("cache-control") {
        Some(cc) => cc,
        None => {
            proof {
                reveal_strlit("cache-control");
                assert(crate::text::lower_seq("cache-control"@) =~= key_cache_control());
            }
            return expires_rule(headers, now);
        },
    };
    proof {
        reveal_strlit("cache-control");
        assert(crate::text::lower_seq("cache-control"@) =~= key_cache_control());
    }
    let cc_chars = to_chars(cc.as_str());
    let ds = split_dirs(cc_chars.as_slice());
    let ghost dsv = dirs_from(cc@, 0);
    let n = ds.len();
    let mut max_age: Option<u64> = None;
    let mut i: usize = 0;
    while i < n
        invariant
            0 <= i <= n,
            n == ds@.len(),
            ds.deep_view() == dsv,
            spec_lookup(headers@, key_cache_control()) == Some(cc@),
            dsv == dirs_from(cc@, 0),
            !has_no_store(dsv.subrange(0, i as int)),
            match max_age {
                Some(v) => last_max_age(dsv.subrange(0, i as int)) == Some(v as int),
                None => last_max_age(dsv.subrange(0, i as int)) is None,
            },
        decreases n - i,
    {
        let d = &ds[i];
        proof {
            assert(dsv[i as int] == ds@[i as int].deep_view());
            assert(ds@[i as int].deep_view() =~= ds@[i as int]@);
            assert(dsv.subrange(0, i as int + 1).drop_last() =~= dsv.subrange(0, i as int));
            assert(dsv.subrange(0, i as int + 1).last() == dsv[i as int]);
        }
        if is_no_store_dir(d.as_slice()) {
            proof {
                assert(has_no_store(dsv)) by {
                    assert(0 <= i < dsv.len());
                    assert(dsv[i as int] == no_store_dir() || dsv[i as int] == no_cache_dir());
                }
                assert(spec_lookup(headers@, key_cache_control()) == Some(cc@));
                assert(dsv == dirs_from(cc@, 0));
                assert(spec_expiry(headers@, now) == Some(now));
            }
            return Some(now);
        }
        match parse_max_age(d.as_slice()) {
            Some(v) => {
                max_age = Some(v);
            },
            None => {},
        }
        proof {
            assert(!has_no_store(dsv.subrange(0, i as int + 1))) by {
                assert(forall|j: int|
                    0 <= j < i + 1 ==> #[trigger] dsv.subrange(0, i as int + 1)[j] == dsv.subrange(
                        0,
                        i as int,
                    ).push(dsv[i as int])[j]);
            }
        }
        i = i + 1;
    }
    proof {
        assert(dsv.subrange(0, n as int) =~= dsv);
    }
    match max_age {
        Some(v) => {
            let x = match now.checked_add(v) {
                Some(x) => x,
                None => u64::MAX,
            };
            proof {
                assert(x == sat_add_u64(now, v as int));
            }
            Some(x)
        },
        None => expires_rule(headers, now),
    }
}

/// The `Expires` fallback rule of the freshness policy.
fn expires_rule(headers: &HeaderMap, now: u64) -> (r: Option<u64>)
    ensures
        r == expires_fallback(headers@, now),
{
    proof {
        reveal_strlit("expires");
        assert(crate::text::lower_seq("expires"@) =~= key_expires());
    }
    match headers.get("expires") {
        Some(e) => {
            let e_chars = to_chars(e.as_str());
            let zero = to_chars("0");
            proof {
                reveal_strlit("0");
                assert(zero@ =~= seq!['0']);
            }
            if e_chars.len() > 0 && !eq_chars(e_chars.as_slice(), zero.as_slice()) {
                let x = match now.checked_add(5) {
                    Some(x) => x,
                    None => u64::MAX,
                };
                proof {
                    assert(x == sat_add_u64(now, 5));
                }
                Some(x)
            } else {
                None
            }
        },
        None => None,
    }
}

impl CacheEntry {
    /// Builds the entry for a response received at the instant `now`,
    /// extracting validators and applying the freshness policy.
    pub fn new_at(response_data: Vec<u8>, headers: HeaderMap, now: u64) -> (r: CacheEntry)
        ensures
            r@ == spec_new_entry(response_data@, headers@, now),
    {
        proof {
            reveal_strlit("etag");
            reveal_strlit("last-modified");
            assert(crate::text::lower_seq("etag"@) =~= key_etag());
            assert(crate::text::lower_seq("last-modified"@) =~= key_last_modified());
        }
        let etag = headers.get("etag");
        let last_modified = headers.get("last-modified");
        let expires_at = compute_expiry(&headers, now);
        let r = CacheEntry { response_data, headers, timestamp: now, last_modified, etag, expires_at };
        proof {
            assert(r@ =~= spec_new_entry(r.response_data@, r.headers@, now));
        }
        r
    }

    /// Builds the entry for a response received now, reading the wall clock.
    pub fn new(response_data: Vec<u8>, headers: HeaderMap) -> (r: CacheEntry)
        ensures
            exists|now: u64| r@ == spec_new_entry(response_data@, headers@, now),
    {
        let now = now_secs();
        let r = Self::new_at(response_data, headers, now);
        proof {
            assert(r@ == spec_new_entry(response_data@, headers@, now));
        }
        r
    }

    /// Whether the entry may still be served at the instant `now`.
    pub fn is_valid_at(&self, now: u64) -> (r: bool)
        ensures
            r == entry_valid_at(self@, now),
    {
        match self.expires_at {
            None => true,
            Some(x) => now < x,
        }
    }

    /// Whether the entry may still be served, judged by the wall clock.
    pub fn is_valid(&self) -> (r: bool)
        ensures
            exists|now: u64| r == entry_valid_at(self@, now),
    {
        let now = now_secs();
        let r = self.is_valid_at(now);
        proof {
            assert(r == entry_valid_at(self@, now));
        }
        r
    }

    /// Whether the request's conditional headers match this entry's
    /// validators, as `spec_matches_conditional` describes.
    pub fn matches_conditional_headers(&self, request_headers: &HeaderMap) -> (r: bool)
        ensures
            r == spec_matches_conditional(self@, request_headers@),
    {
        proof {
            reveal_strlit("if-none-match");
            reveal_strlit("if-modified-since");
            assert(crate::text::lower_seq("if-none-match"@) =~= key_if_none_match());
            assert(crate::text::lower_seq("if-modified-since"@) =~= key_if_modified_since());
        }
        let inm = request_headers.get("if-none-match");
        match (inm, &self.etag) {
            (Some(v), Some(e)) => {
                let a = to_chars(v.as_str());
                let b = to_chars(e.as_str());
                return eq_chars(a.as_slice(), b.as_slice());
            },
            _ => {},
        }
        let ims = request_headers.get("if-modified-since");
        match (ims, &self.last_modified) {
            (Some(v), Some(m)) => {
                let a = to_chars(v.as_str());
                let b = to_chars(m.as_str());
                eq_chars(a.as_slice(), b.as_slice())
            },
            _ => false,
        }
    }
}

/// Copies a byte vector.
pub fn copy_bytes(v: &Vec<u8>) -> (r: Vec<u8>)
    ensures
        r@ == v@,
{
    let n = v.len();
    let mut r: Vec<u8> = Vec::new();
    let mut i: usize = 0;
    while i < n
        invariant
            i <= n,
            n == v@.len(),
            r@ =~= v@.take(i as int),
        decreases n - i,
    {
        r.push(v[i]);
        i = i + 1;
    }
    proof {
        assert(r@ =~= v@);
    }
    r
}

impl Clone for CacheEntry {
    /// A clone holds exactly the same content.
    fn clone(&self) -> (r: Self)
        ensures
            r@ == self@,
    {
        let last_modified = match &self.last_modified {
            Some(s) => Some(chars_to_string(&to_chars(s.as_str()))),
            None => None,
        };
        let etag = match &self.etag {
            Some(s) => Some(chars_to_string(&to_chars(s.as_str()))),
            None => None,
        };
        let r = CacheEntry {
            response_data: copy_bytes(&self.response_data),
            headers: self.headers.clone(),
            timestamp: self.timestamp,
            last_modified,
            etag,
            expires_at: self.expires_at,
        };
        proof {
            assert(r@ =~= self@);
        }
        r
    }
}

} // verus!
