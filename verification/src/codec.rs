//! The byte format of a cache entry in the durable L2 tier.
//!
//! Entries are stored as opaque byte records; this module defines the
//! format, the encoder and the decoder, and proves that decoding an
//! encoded entry yields the entry back.
//!
//! Layout, in order: the insertion time (8 bytes, little endian); the
//! optional expiry (1 flag byte, then 8 bytes when present); the optional
//! `ETag` and `Last-Modified` validators (1 flag byte, then a string);
//! the raw response (8-byte length, then the bytes); the header count
//! (8 bytes), then each header as two strings.  A string is an 8-byte
//! character count followed by each character as 4 little-endian bytes of
//! its Unicode scalar value.

use vstd::bytes::{
    lemma_auto_spec_u32_to_from_le_bytes, lemma_auto_spec_u64_to_from_le_bytes,
    spec_u32_from_le_bytes, spec_u32_to_le_bytes, spec_u64_from_le_bytes, spec_u64_to_le_bytes,
    u32_from_le_bytes, u32_to_le_bytes, u64_from_le_bytes, u64_to_le_bytes,
};
use vstd::prelude::*;
use vstd::slice::slice_subrange;

use crate::entry::{CacheEntry, EntryView};
use crate::headers::{pairs_wf, spec_lookup, key_idx_from, lemma_key_idx_from, HeaderMap};
use crate::text::{chars_to_string, lower_seq, to_chars, to_lower_chars, eq_chars};

verus! {

// ---------------------------------------------------------------------------
// The encoding.
// ---------------------------------------------------------------------------

/// The Unicode scalar value of a character.
pub open spec fn cval(c: char) -> u32 {
    c as u32
}

/// Whether `x` is a Unicode scalar value.
pub open spec fn valid_scalar(x: u32) -> bool {
    (x as int) < 0xD800 || (0xE000 <= x as int && (x as int) < 0x110000)
}

/// The character with scalar value `x` (meaningful for valid scalars).
pub open spec fn char_of(x: u32) -> char {
    choose|c: char| cval(c) == x
}

pub open spec fn enc_u64(x: u64) -> Seq<u8> {
    spec_u64_to_le_bytes(x)
}

pub open spec fn enc_u32(x: u32) -> Seq<u8> {
    spec_u32_to_le_bytes(x)
}

/// Each character as the 4 little-endian bytes of its scalar value.
pub open spec fn enc_chars(s: Seq<char>) -> Seq<u8>
    decreases s.len(),
{
    if s.len() == 0 {
        Seq::empty()
    } else {
        enc_u32(cval(s[0])) + enc_chars(s.drop_first())
    }
}

/// A character count, then the characters.
pub open spec fn enc_str(s: Seq<char>) -> Seq<u8> {
    enc_u64(s.len() as u64) + enc_chars(s)
}

/// A flag byte, then the string when present.
pub open spec fn enc_opt_str(o: Option<Seq<char>>) -> Seq<u8> {
    match o {
        None => seq![0u8],
        Some(s) => seq![1u8] + enc_str(s),
    }
}

/// A flag byte, then the number when present.
pub open spec fn enc_opt_u64(o: Option<u64>) -> Seq<u8> {
    match o {
        None => seq![0u8],
        Some(x) => seq![1u8] + enc_u64(x),
    }
}

/// Each header as its name string then its value string.
pub open spec fn enc_pairs(hs: Seq<(Seq<char>, Seq<char>)>) -> Seq<u8>
    decreases hs.len(),
{
    if hs.len() == 0 {
        Seq::empty()
    } else {
        enc_str(hs[0].0) + enc_str(hs[0].1) + enc_pairs(hs.drop_first())
    }
}

/// The byte record of an entry.
pub open spec fn spec_encode(e: EntryView) -> Seq<u8> {
    enc_u64(e.timestamp) + (enc_opt_u64(e.expires_at) + (enc_opt_str(e.etag) + (enc_opt_str(
        e.last_modified,
    ) + (enc_u64(e.response_data.len() as u64) + (e.response_data + (enc_u64(
        e.headers.len() as u64,
    ) + enc_pairs(e.headers)))))))
}

// ---------------------------------------------------------------------------
// The decoding.
// ---------------------------------------------------------------------------

pub open spec fn d_u8(b: Seq<u8>) -> Option<(u8, Seq<u8>)> {
    if b.len() >= 1 {
        Some((b[0], b.skip(1)))
    } else {
        None
    }
}

pub open spec fn d_u64(b: Seq<u8>) -> Option<(u64, Seq<u8>)> {
    if b.len() >= 8 {
        Some((spec_u64_from_le_bytes(b.take(8)), b.skip(8)))
    } else {
        None
    }
}

pub open spec fn d_chars(n: int, b: Seq<u8>) -> Option<(Seq<char>, Seq<u8>)>
    decreases n,
{
    if n <= 0 {
        Some((Seq::empty(), b))
    } else if b.len() < 4 {
        None
    } else {
        let x = spec_u32_from_le_bytes(b.take(4));
        if valid_scalar(x) {
            match d_chars(n - 1, b.skip(4)) {
                Some(p) => Some((seq![char_of(x)] + p.0, p.1)),
                None => None,
            }
        } else {
            None
        }
    }
}

pub open spec fn d_str(b: Seq<u8>) -> Option<(Seq<char>, Seq<u8>)> {
    match d_u64(b) {
        Some(p) => d_chars(p.0 as int, p.1),
        None => None,
    }
}

pub open spec fn d_opt_str(b: Seq<u8>) -> Option<(Option<Seq<char>>, Seq<u8>)> {
    match d_u8(b) {
        Some(p) => if p.0 == 0 {
            Some((None, p.1))
        } else if p.0 == 1 {
            match d_str(p.1) {
                Some(q) => Some((Some(q.0), q.1)),
                None => None,
            }
        } else {
            None
        },
        None => None,
    }
}

pub open spec fn d_opt_u64(b: Seq<u8>) -> Option<(Option<u64>, Seq<u8>)> {
    match d_u8(b) {
        Some(p) => if p.0 == 0 {
            Some((None, p.1))
        } else if p.0 == 1 {
            match d_u64(p.1) {
                Some(q) => Some((Some(q.0), q.1)),
                None => None,
            }
        } else {
            None
        },
        None => None,
    }
}

pub open spec fn d_bytes(n: int, b: Seq<u8>) -> Option<(Seq<u8>, Seq<u8>)> {
    if 0 <= n <= b.len() {
        Some((b.take(n), b.skip(n)))
    } else {
        None
    }
}

/// Decodes `n` headers, refusing a name that is not lowercase or repeats.
pub open spec fn d_pairs(n: int, b: Seq<u8>, acc: Seq<(Seq<char>, Seq<char>)>) -> Option<(
    Seq<(Seq<char>, Seq<char>)>,
    Seq<u8>,
)>
    decreases n,
{
    if n <= 0 {
        Some((acc, b))
    } else {
        match d_str(b) {
            Some(p) => match d_str(p.1) {
                Some(q) => if lower_seq(p.0) == p.0 && spec_lookup(acc, p.0) is None {
                    d_pairs(n - 1, q.1, acc.push((p.0, q.0)))
                } else {
                    None
                },
                None => None,
            },
            None => None,
        }
    }
}

/// The entry decoded from a byte record, if it is well formed throughout
/// and nothing follows it.
pub open spec fn spec_decode(b: Seq<u8>) -> Option<EntryView> {
    match d_u64(b) {
        Some(ts) => match d_opt_u64(ts.1) {
            Some(exp) => match d_opt_str(exp.1) {
                Some(etag) => match d_opt_str(etag.1) {
                    Some(lm) => match d_u64(lm.1) {
                        Some(dl) => match d_bytes(dl.0 as int, dl.1) {
                            Some(data) => match d_u64(data.1) {
                                Some(hc) => match d_pairs(hc.0 as int, hc.1, Seq::empty()) {
                                    Some(hs) => if hs.1.len() == 0 {
                                        Some(
                                            EntryView {
                                                response_data: data.0,
                                                headers: hs.0,
                                                timestamp: ts.0,
                                                last_modified: lm.0,
                                                etag: etag.0,
                                                expires_at: exp.0,
                                            },
                                        )
                                    } else {
                                        None
                                    },
                                    None => None,
                                },
                                None => None,
                            },
                            None => None,
                        },
                        None => None,
                    },
                    None => None,
                },
                None => None,
            },
            None => None,
        },
        None => None,
    }
}

// ---------------------------------------------------------------------------
// Round trip: decoding an encoding yields the entry back.
// ---------------------------------------------------------------------------

/// Lengths that fit the 8-byte counters of the format.
pub open spec fn entry_bounded(e: EntryView) -> bool {
    &&& e.response_data.len() <= u64::MAX
    &&& e.headers.len() <= u64::MAX
    &&& forall|i: int|
        0 <= i < e.headers.len() ==> (#[trigger] e.headers[i]).0.len() <= u64::MAX
            && e.headers[i].1.len() <= u64::MAX
    &&& e.etag is Some ==> e.etag->0.len() <= u64::MAX
    &&& e.last_modified is Some ==> e.last_modified->0.len() <= u64::MAX
}

/// Every character's scalar value is valid, and names its character.
proof fn lemma_char_scalar(c: char)
    ensures
        valid_scalar(cval(c)),
        char_of(cval(c)) == c,
{
    assert((c as u32) < 0xD800 || (0xE000 <= c as u32 && (c as u32) < 0x110000));
    assert(cval(c) == c as u32);
    assert(exists|d: char| cval(d) == cval(c));
    let d = choose|d: char| cval(d) == cval(c);
    assert(d as u32 == c as u32);
}

proof fn lemma_d_u64_enc(x: u64, rest: Seq<u8>)
    ensures
        d_u64(enc_u64(x) + rest) == Some((x, rest)),
{
    lemma_auto_spec_u64_to_from_le_bytes();
    assert((enc_u64(x) + rest).take(8) =~= enc_u64(x));
    assert((enc_u64(x) + rest).skip(8) =~= rest);
}

proof fn lemma_d_chars_enc(s: Seq<char>, rest: Seq<u8>)
    ensures
        d_chars(s.len() as int, enc_chars(s) + rest) == Some((s, rest)),
    decreases s.len(),
{
    lemma_auto_spec_u32_to_from_le_bytes();
    if s.len() == 0 {
        assert(enc_chars(s) + rest =~= rest);
    } else {
        let b = enc_chars(s) + rest;
        assert(enc_chars(s) == enc_u32(cval(s[0])) + enc_chars(s.drop_first()));
        assert(b =~= enc_u32(cval(s[0])) + (enc_chars(s.drop_first()) + rest));
        assert(b.take(4) =~= enc_u32(cval(s[0])));
        assert(b.skip(4) =~= enc_chars(s.drop_first()) + rest);
        let x = spec_u32_from_le_bytes(b.take(4));
        assert(x == cval(s[0]));
        lemma_char_scalar(s[0]);
        lemma_d_chars_enc(s.drop_first(), rest);
        assert(seq![char_of(x)] + s.drop_first() =~= s);
    }
}

proof fn lemma_d_str_enc(s: Seq<char>, rest: Seq<u8>)
    requires
        s.len() <= u64::MAX,
    ensures
        d_str(enc_str(s) + rest) == Some((s, rest)),
{
    assert(enc_str(s) + rest =~= enc_u64(s.len() as u64) + (enc_chars(s) + rest));
    lemma_d_u64_enc(s.len() as u64, enc_chars(s) + rest);
    lemma_d_chars_enc(s, rest);
}

proof fn lemma_d_opt_str_enc(o: Option<Seq<char>>, rest: Seq<u8>)
    requires
        o is Some ==> o->0.len() <= u64::MAX,
    ensures
        d_opt_str(enc_opt_str(o) + rest) == Some((o, rest)),
{
    match o {
        None => {
            let b = enc_opt_str(o) + rest;
            assert(b[0] == 0u8);
            assert(b.skip(1) =~= rest);
        },
        Some(s) => {
            let b = enc_opt_str(o) + rest;
            assert(b[0] == 1u8);
            assert(b.skip(1) =~= enc_str(s) + rest);
            lemma_d_str_enc(s, rest);
        },
    }
}

proof fn lemma_d_opt_u64_enc(o: Option<u64>, rest: Seq<u8>)
    ensures
        d_opt_u64(enc_opt_u64(o) + rest) == Some((o, rest)),
{
    match o {
        None => {
            let b = enc_opt_u64(o) + rest;
            assert(b[0] == 0u8);
            assert(b.skip(1) =~= rest);
        },
        Some(x) => {
            let b = enc_opt_u64(o) + rest;
            assert(b[0] == 1u8);
            assert(b.skip(1) =~= enc_u64(x) + rest);
            lemma_d_u64_enc(x, rest);
        },
    }
}

/// Looking a key up among well-formed pairs that do not contain it yields
/// nothing.
proof fn lemma_lookup_absent(es: Seq<(Seq<char>, Seq<char>)>, k: Seq<char>)
    requires
        forall|i: int| 0 <= i < es.len() ==> (#[trigger] es[i]).0 != k,
    ensures
        spec_lookup(es, k) is None,
{
    lemma_key_idx_from(es, 0, k);
    if key_idx_from(es, 0, k) < es.len() {
        assert(es[key_idx_from(es, 0, k)].0 == k);
    }
}

proof fn lemma_d_pairs_enc(hs: Seq<(Seq<char>, Seq<char>)>, rest: Seq<u8>, acc: Seq<(
    Seq<char>,
    Seq<char>,
)>)
    requires
        pairs_wf(acc + hs),
        hs.len() <= u64::MAX,
        forall|i: int|
            0 <= i < hs.len() ==> (#[trigger] hs[i]).0.len() <= u64::MAX && hs[i].1.len()
                <= u64::MAX,
    ensures
        d_pairs(hs.len() as int, enc_pairs(hs) + rest, acc) == Some((acc + hs, rest)),
    decreases hs.len(),
{
    if hs.len() == 0 {
        assert(enc_pairs(hs) + rest =~= rest);
        assert(acc + hs =~= acc);
    } else {
        let k = hs[0].0;
        let v = hs[0].1;
        let b = enc_pairs(hs) + rest;
        assert(b =~= enc_str(k) + (enc_str(v) + (enc_pairs(hs.drop_first()) + rest)));
        lemma_d_str_enc(k, enc_str(v) + (enc_pairs(hs.drop_first()) + rest)) ;
        lemma_d_str_enc(v, enc_pairs(hs.drop_first()) + rest);
        let all = acc + hs;
        assert(all[acc.len() as int] == hs[0]);
        assert(lower_seq(k) == k) by {
            assert((all[acc.len() as int]).0 == k);
        }
        assert(spec_lookup(acc, k) is None) by {
            assert forall|i: int| 0 <= i < acc.len() implies (#[trigger] acc[i]).0 != k by {
                assert(all[i] == acc[i]);
                assert((all[i]).0 != (all[acc.len() as int]).0);
            }
            lemma_lookup_absent(acc, k);
        }
        assert(acc.push(hs[0]) + hs.drop_first() =~= acc + hs);
        assert(pairs_wf(acc.push(hs[0]) + hs.drop_first()));
        lemma_d_pairs_enc(hs.drop_first(), rest, acc.push(hs[0]));
        assert(acc.push(hs[0]) + hs.drop_first() =~= acc + hs);
    }
}

/// Law: decoding the encoding of any bounded, well-formed entry yields the
/// entry back.  The byte format is thus lossless, and together with the
/// determinism of `spec_encode` a later write of the same host key
/// replaces the record wholesale.
pub proof fn lemma_decode_encode(e: EntryView)
    requires
        entry_bounded(e),
        pairs_wf(e.headers),
    ensures
        spec_decode(spec_encode(e)) == Some(e),
{
    let r7 = enc_pairs(e.headers);
    let r6 = enc_u64(e.headers.len() as u64) + r7;
    let r5 = e.response_data + r6;
    let r4 = enc_u64(e.response_data.len() as u64) + r5;
    let r3 = enc_opt_str(e.last_modified) + r4;
    let r2 = enc_opt_str(e.etag) + r3;
    let r1 = enc_opt_u64(e.expires_at) + r2;
    lemma_d_u64_enc(e.timestamp, r1);
    lemma_d_opt_u64_enc(e.expires_at, r2);
    lemma_d_opt_str_enc(e.etag, r3);
    lemma_d_opt_str_enc(e.last_modified, r4);
    lemma_d_u64_enc(e.response_data.len() as u64, r5);
    assert(r5.take(e.response_data.len() as int) =~= e.response_data);
    assert(r5.skip(e.response_data.len() as int) =~= r6);
    lemma_d_u64_enc(e.headers.len() as u64, r7);
    assert(r7 =~= enc_pairs(e.headers) + Seq::<u8>::empty());
    assert(pairs_wf(Seq::<(Seq<char>, Seq<char>)>::empty() + e.headers)) by {
        assert(Seq::<(Seq<char>, Seq<char>)>::empty() + e.headers =~= e.headers);
    }
    lemma_d_pairs_enc(e.headers, Seq::empty(), Seq::empty());
    assert(Seq::<(Seq<char>, Seq<char>)>::empty() + e.headers =~= e.headers);
    assert(spec_decode(spec_encode(e)) == Some(e)) by {
        assert(spec_decode(spec_encode(e))->0 =~= e);
    }
}

// ---------------------------------------------------------------------------
// The encoder.
// ---------------------------------------------------------------------------

/// Appends raw bytes.
fn append_bytes(out: &mut Vec<u8>, b: &[u8])
    ensures
        final(out)@ == old(out)@ + b@,
{
    let n = b.len();
    let mut i: usize = 0;
    while i < n
        invariant
            0 <= i <= n,
            n == b@.len(),
            out@ =~= old(out)@ + b@.take(i as int),
        decreases n - i,
    {
        out.push(b[i]);
        proof {
            assert(b@.take(i + 1) =~= b@.take(i as int).push(b@[i as int]));
        }
        i = i + 1;
    }
    proof {
        assert(b@.take(n as int) =~= b@);
    }
}

/// Appends a `u64`, little endian.
fn push_u64(out: &mut Vec<u8>, x: u64)
    ensures
        final(out)@ == old(out)@ + enc_u64(x),
{
    let b = u64_to_le_bytes(x);
    append_bytes(out, b.as_slice());
}

/// Appends a `u32`, little endian.
fn push_u32(out: &mut Vec<u8>, x: u32)
    ensures
        final(out)@ == old(out)@ + enc_u32(x),
{
    let b = u32_to_le_bytes(x);
    append_bytes(out, b.as_slice());
}

/// Appending one more character extends the character encoding at the end.
proof fn lemma_enc_chars_snoc(t: Seq<char>, c: char)
    ensures
        enc_chars(t.push(c)) == enc_chars(t) + enc_u32(cval(c)),
    decreases t.len(),
{
    reveal_with_fuel(enc_chars, 3);
    if t.len() == 0 {
        assert(t.push(c)[0] == c);
        assert(t.push(c).drop_first() =~= Seq::<char>::empty());
        assert(enc_chars(t.push(c)) =~= enc_chars(t) + enc_u32(cval(c)));
    } else {
        assert(t.push(c)[0] == t[0]);
        assert(t.push(c).drop_first() =~= t.drop_first().push(c));
        lemma_enc_chars_snoc(t.drop_first(), c);
        assert(enc_chars(t.push(c)) == enc_u32(cval(t[0])) + enc_chars(t.drop_first().push(c)));
        assert(enc_chars(t.push(c)) == enc_u32(cval(t[0])) + (enc_chars(t.drop_first()) + enc_u32(
            cval(c),
        )));
        assert(enc_chars(t) == enc_u32(cval(t[0])) + enc_chars(t.drop_first()));
        assert(enc_u32(cval(t[0])) + (enc_chars(t.drop_first()) + enc_u32(cval(c))) =~= (enc_u32(
            cval(t[0]),
        ) + enc_chars(t.drop_first())) + enc_u32(cval(c)));
    }
}

/// Appending one more pair extends the pair encoding at the end.
proof fn lemma_enc_pairs_snoc(t: Seq<(Seq<char>, Seq<char>)>, p: (Seq<char>, Seq<char>))
    ensures
        enc_pairs(t.push(p)) == enc_pairs(t) + (enc_str(p.0) + enc_str(p.1)),
    decreases t.len(),
{
    reveal_with_fuel(enc_pairs, 3);
    if t.len() == 0 {
        assert(t.push(p)[0] == p);
        assert(t.push(p).drop_first() =~= Seq::<(Seq<char>, Seq<char>)>::empty());
        assert(enc_pairs(t.push(p)) =~= enc_pairs(t) + (enc_str(p.0) + enc_str(p.1)));
    } else {
        assert(t.push(p)[0] == t[0]);
        assert(t.push(p).drop_first() =~= t.drop_first().push(p));
        lemma_enc_pairs_snoc(t.drop_first(), p);
        assert(enc_pairs(t.push(p)) == enc_str(t[0].0) + enc_str(t[0].1) + enc_pairs(
            t.drop_first().push(p),
        ));
        assert(enc_pairs(t.push(p)) == enc_str(t[0].0) + enc_str(t[0].1) + (enc_pairs(
            t.drop_first(),
        ) + (enc_str(p.0) + enc_str(p.1))));
        assert(enc_pairs(t) == enc_str(t[0].0) + enc_str(t[0].1) + enc_pairs(t.drop_first()));
        assert(enc_str(t[0].0) + enc_str(t[0].1) + (enc_pairs(t.drop_first()) + (enc_str(p.0)
            + enc_str(p.1))) =~= (enc_str(t[0].0) + enc_str(t[0].1) + enc_pairs(t.drop_first()))
            + (enc_str(p.0) + enc_str(p.1)));
    }
}

/// Appends the characters of a string.
fn push_chars(out: &mut Vec<u8>, s: &[char])
    ensures
        final(out)@ == old(out)@ + enc_chars(s@),
{
    let n = s.len();
    let mut i: usize = 0;
    while i < n
        invariant
            0 <= i <= n,
            n == s@.len(),
            out@ =~= old(out)@ + enc_chars(s@.take(i as int)),
        decreases n - i,
    {
        push_u32(out, s[i] as u32);
        proof {
            assert(s@.take(i + 1) =~= s@.take(i as int).push(s@[i as int]));
            lemma_enc_chars_snoc(s@.take(i as int), s@[i as int]);
        }
        i = i + 1;
    }
    proof {
        assert(s@.take(n as int) =~= s@);
    }
}

/// Appends a length-prefixed string.
fn push_str(out: &mut Vec<u8>, s: &[char])
    ensures
        final(out)@ == old(out)@ + enc_str(s@),
{
    push_u64(out, s.len() as u64);
    push_chars(out, s);
    proof {
        assert(out@ =~= old(out)@ + enc_str(s@));
    }
}

/// Appends a flagged optional string.
fn push_opt_str(out: &mut Vec<u8>, o: &Option<String>)
    ensures
        final(out)@ == old(out)@ + enc_opt_str(o.deep_view()),
{
    match o {
        None => {
            out.push(0u8);
            proof {
                assert(out@ =~= old(out)@ + enc_opt_str(o.deep_view()));
            }
        },
        Some(s) => {
            out.push(1u8);
            let chars = to_chars(s.as_str());
            push_str(out, chars.as_slice());
            proof {
                assert(out@ =~= old(out)@ + enc_opt_str(o.deep_view()));
            }
        },
    }
}

/// Appends a flagged optional number.
fn push_opt_u64(out: &mut Vec<u8>, o: &Option<u64>)
    ensures
        final(out)@ == old(out)@ + enc_opt_u64(*o),
{
    match o {
        None => {
            out.push(0u8);
            proof {
                assert(out@ =~= old(out)@ + enc_opt_u64(*o));
            }
        },
        Some(x) => {
            out.push(1u8);
            push_u64(out, *x);
            proof {
                assert(out@ =~= old(out)@ + enc_opt_u64(*o));
            }
        },
    }
}

/// Encodes an entry as its byte record, as `spec_encode` describes.
#[verifier::rlimit(50)]
pub fn encode_entry(e: &CacheEntry) -> (r: Vec<u8>)
    ensures
        r@ == spec_encode(e@),
{
    let mut out: Vec<u8> = Vec::new();
    push_u64(&mut out, e.timestamp);
    push_opt_u64(&mut out, &e.expires_at);
    push_opt_str(&mut out, &e.etag);
    push_opt_str(&mut out, &e.last_modified);
    push_u64(&mut out, e.response_data.len() as u64);
    append_bytes(&mut out, e.response_data.as_slice());
    push_u64(&mut out, e.headers.len() as u64);
    let ghost before = out@;
    let n = e.headers.len();
    let mut i: usize = 0;
    while i < n
        invariant
            0 <= i <= n,
            n == e.headers@.len(),
            out@ =~= before + enc_pairs(e.headers@.take(i as int)),
        decreases n - i,
    {
        let k = e.headers.key_at(i);
        let v = e.headers.value_at(i);
        let kc = to_chars(k.as_str());
        let vc = to_chars(v.as_str());
        push_str(&mut out, kc.as_slice());
        push_str(&mut out, vc.as_slice());
        proof {
            assert(e.headers@.take(i + 1) =~= e.headers@.take(i as int).push(
                e.headers@[i as int],
            ));
            lemma_enc_pairs_snoc(e.headers@.take(i as int), e.headers@[i as int]);
        }
        i = i + 1;
    }
    proof {
        assert(e.headers@.take(n as int) =~= e.headers@);
        assert(out@ =~= spec_encode(e@));
    }
    out
}

// ---------------------------------------------------------------------------
// The decoder.
// ---------------------------------------------------------------------------

/// Relies on `char::from_u32`: for a valid Unicode scalar value it yields
/// the character with exactly that value.
#[verifier::external_body]
fn char_from_u32(x: u32) -> (r: char)
    requires
        valid_scalar(x),
    ensures
        r as u32 == x,
{
    char::from_u32(x).unwrap_or(' ')
}

/// Reads one byte.
fn read_u8(b: &[u8], pos: usize) -> (r: Option<(u8, usize)>)
    requires
        pos <= b@.len(),
    ensures
        match r {
            Some(p) => d_u8(b@.skip(pos as int)) == Some((p.0, b@.skip(p.1 as int))) && pos < p.1
                <= b@.len(),
            None => d_u8(b@.skip(pos as int)) is None,
        },
{
    if pos < b.len() {
        proof {
            assert(b@.skip(pos as int)[0] == b@[pos as int]);
            assert(b@.skip(pos as int).skip(1) =~= b@.skip(pos as int + 1));
        }
        Some((b[pos], pos + 1))
    } else {
        None
    }
}

/// Reads a little-endian `u64`.
fn read_u64(b: &[u8], pos: usize) -> (r: Option<(u64, usize)>)
    requires
        pos <= b@.len(),
    ensures
        match r {
            Some(p) => d_u64(b@.skip(pos as int)) == Some((p.0, b@.skip(p.1 as int))) && pos < p.1
                <= b@.len(),
            None => d_u64(b@.skip(pos as int)) is None,
        },
{
    if b.len() - pos >= 8 {
        let sl = slice_subrange(b, pos, pos + 8);
        let x = u64_from_le_bytes(sl);
        proof {
            assert(b@.skip(pos as int).take(8) =~= b@.subrange(pos as int, pos as int + 8));
            assert(b@.skip(pos as int).skip(8) =~= b@.skip(pos as int + 8));
        }
        Some((x, pos + 8))
    } else {
        None
    }
}

/// Reads `n` characters, each a 4-byte scalar value.
fn read_chars(b: &[u8], pos: usize, n: u64) -> (r: Option<(Vec<char>, usize)>)
    requires
        pos <= b@.len(),
    ensures
        match r {
            Some(p) => d_chars(n as int, b@.skip(pos as int)) == Some((p.0@, b@.skip(p.1 as int)))
                && pos <= p.1 <= b@.len(),
            None => d_chars(n as int, b@.skip(pos as int)) is None,
        },
    decreases n,
{
    if n == 0 {
        return Some((Vec::new(), pos));
    }
    if b.len() - pos < 4 {
        return None;
    }
    let sl = slice_subrange(b, pos, pos + 4);
    let x = u32_from_le_bytes(sl);
    proof {
        assert(b@.skip(pos as int).take(4) =~= b@.subrange(pos as int, pos as int + 4));
        assert(b@.skip(pos as int).skip(4) =~= b@.skip(pos as int + 4));
    }
    if !(x < 0xD800 || (0xE000 <= x && x < 0x110000)) {
        return None;
    }
    let c = char_from_u32(x);
    proof {
        assert(char_of(x) == c) by {
            assert(cval(c) == x);
            assert(exists|d: char| cval(d) == x);
            let d = choose|d: char| cval(d) == x;
            assert(d as u32 == c as u32);
        }
    }
    match read_chars(b, pos + 4, n - 1) {
        Some((mut v, p2)) => {
            v.insert(0, c);
            proof {
                assert(v@ =~= seq![char_of(x)] + v@.skip(1));
            }
            Some((v, p2))
        },
        None => None,
    }
}

/// Reads a length-prefixed string.
fn read_str(b: &[u8], pos: usize) -> (r: Option<(Vec<char>, usize)>)
    requires
        pos <= b@.len(),
    ensures
        match r {
            Some(p) => d_str(b@.skip(pos as int)) == Some((p.0@, b@.skip(p.1 as int))) && pos
                <= p.1 <= b@.len(),
            None => d_str(b@.skip(pos as int)) is None,
        },
{
    match read_u64(b, pos) {
        Some((n, p1)) => read_chars(b, p1, n),
        None => None,
    }
}

/// Reads a flagged optional string.
fn read_opt_str(b: &[u8], pos: usize) -> (r: Option<(Option<Vec<char>>, usize)>)
    requires
        pos <= b@.len(),
    ensures
        match r {
            Some(p) => d_opt_str(b@.skip(pos as int)) == Some(
                (
                    match p.0 {
                        Some(v) => Some(v@),
                        None => None,
                    },
                    b@.skip(p.1 as int),
                ),
            ) && pos <= p.1 <= b@.len(),
            None => d_opt_str(b@.skip(pos as int)) is None,
        },
{
    match read_u8(b, pos) {
        Some((f, p1)) => {
            if f == 0 {
                Some((None, p1))
            } else if f == 1 {
                match read_str(b, p1) {
                    Some((v, p2)) => Some((Some(v), p2)),
                    None => None,
                }
            } else {
                None
            }
        },
        None => None,
    }
}

/// Reads a flagged optional number.
fn read_opt_u64(b: &[u8], pos: usize) -> (r: Option<(Option<u64>, usize)>)
    requires
        pos <= b@.len(),
    ensures
        match r {
            Some(p) => d_opt_u64(b@.skip(pos as int)) == Some((p.0, b@.skip(p.1 as int))) && pos
                <= p.1 <= b@.len(),
            None => d_opt_u64(b@.skip(pos as int)) is None,
        },
{
    match read_u8(b, pos) {
        Some((f, p1)) => {
            if f == 0 {
                Some((None, p1))
            } else if f == 1 {
                match read_u64(b, p1) {
                    Some((x, p2)) => Some((Some(x), p2)),
                    None => None,
                }
            } else {
                None
            }
        },
        None => None,
    }
}

/// Reads `n` raw bytes.
fn read_bytes(b: &[u8], pos: usize, n: u64) -> (r: Option<(Vec<u8>, usize)>)
    requires
        pos <= b@.len(),
    ensures
        match r {
            Some(p) => d_bytes(n as int, b@.skip(pos as int)) == Some(
                (p.0@, b@.skip(p.1 as int)),
            ) && pos <= p.1 <= b@.len(),
            None => d_bytes(n as int, b@.skip(pos as int)) is None,
        },
{
    let avail = b.len() - pos;
    if n > avail as u64 {
        return None;
    }
    let nn = n as usize;
    let v = vstd::slice::slice_to_vec(slice_subrange(b, pos, pos + nn));
    proof {
        assert(b@.skip(pos as int).take(n as int) =~= b@.subrange(pos as int, pos as int + n as int));
        assert(b@.skip(pos as int).skip(n as int) =~= b@.skip(pos as int + n as int));
    }
    Some((v, pos + nn))
}

/// Decodes an entry from its byte record, as `spec_decode` describes: a
/// malformed record yields nothing.
#[verifier::loop_isolation(false)]
#[verifier::rlimit(50)]
pub fn decode_entry(b: &[u8]) -> (r: Option<CacheEntry>)
    ensures
        match r {
            Some(d) => spec_decode(b@) == Some(d@) && d.headers.wf(),
            None => spec_decode(b@) is None,
        },
{
    proof {
        assert(b@.skip(0) =~= b@);
    }
    let (timestamp, p1) = match read_u64(b, 0) {
        Some(p) => p,
        None => {
            return None;
        },
    };
    let (expires_at, p2) = match read_opt_u64(b, p1) {
        Some(p) => p,
        None => {
            return None;
        },
    };
    let (etag_chars, p3) = match read_opt_str(b, p2) {
        Some(p) => p,
        None => {
            return None;
        },
    };
    let (lm_chars, p4) = match read_opt_str(b, p3) {
        Some(p) => p,
        None => {
            return None;
        },
    };
    let (dlen, p5) = match read_u64(b, p4) {
        Some(p) => p,
        None => {
            return None;
        },
    };
    let (response_data, p6) = match read_bytes(b, p5, dlen) {
        Some(p) => p,
        None => {
            return None;
        },
    };
    let (hcount, p7) = match read_u64(b, p6) {
        Some(p) => p,
        None => {
            return None;
        },
    };
    let mut hm = HeaderMap::new();
    let mut cur = p7;
    let mut i: u64 = 0;
    loop
        invariant
            0 <= cur <= b@.len(),
            i <= hcount,
            hm.wf(),
            d_pairs(hcount as int, b@.skip(p7 as int), Seq::empty()) == d_pairs(
                hcount as int - i as int,
                b@.skip(cur as int),
                hm@,
            ),
        decreases hcount - i,
    {
        if i >= hcount {
            break ;
        }
        let (k, c1) = match read_str(b, cur) {
            Some(p) => p,
            None => {
                return None;
            },
        };
        let (v, c2) = match read_str(b, c1) {
            Some(p) => p,
            None => {
                return None;
            },
        };
        let lower = to_lower_chars(k.as_slice());
        if !eq_chars(lower.as_slice(), k.as_slice()) {
            return None;
        }
        let k_string = chars_to_string(&k);
        if hm.contains_key(k_string.as_str()) {
            return None;
        }
        let v_string = chars_to_string(&v);
        proof {
            lemma_key_idx_from(hm@, 0, k@);
        }
        hm.append_pair(k_string, v_string);
        i = i + 1;
        cur = c2;
    }
    if cur != b.len() {
        proof {
            assert(b@.skip(cur as int).len() != 0);
        }
        return None;
    }
    let etag = match etag_chars {
        Some(v) => Some(chars_to_string(&v)),
        None => None,
    };
    let last_modified = match lm_chars {
        Some(v) => Some(chars_to_string(&v)),
        None => None,
    };
    let d = CacheEntry { response_data, headers: hm, timestamp, last_modified, etag, expires_at };
    proof {
        assert(b@.skip(cur as int).len() == 0);
        assert(spec_decode(b@) is Some);
        assert(spec_decode(b@)->0 =~= d@);
    }
    Some(d)
}

} // verus!
