//! The message parser: extracting the `host[:port]` key from a raw request
//! and parsing raw HTTP messages into a structured form.
//!
//! All behaviour is specified over `Seq<char>` by the `spec_*` functions;
//! the executable parsers are proved to compute exactly those functions.

use vstd::prelude::*;

use crate::headers::{spec_insert, HeaderMap};
use crate::text::{
    all_digits, chars_to_string, dec_val, find_char, find_from, find_pair, find_pair_from,
    is_ws, lemma_find_from, lemma_find_pair_from, lemma_ws_from, lower_char, lower_seq, parse_u64,
    slice_to_vec_chars, spec_tokens, spec_trim, split_tokens, to_chars, to_lower_char, tokens_from,
    trim_chars, ws_from,
};

verus! {

// ---------------------------------------------------------------------------
// Lines.
// ---------------------------------------------------------------------------

/// A line with one trailing carriage return removed.
pub open spec fn strip_cr(l: Seq<char>) -> Seq<char> {
    if l.len() > 0 && l.last() == '\r' {
        l.drop_last()
    } else {
        l
    }
}

/// Splits the text starting at `i` into its header lines and its body.
///
/// Lines end at `'\n'`; a trailing `'\r'` is removed from each line.  The
/// first empty line separates the lines before it from the body, which is
/// the raw remainder of the text.
pub open spec fn msg_split_from(s: Seq<char>, i: int) -> (Seq<Seq<char>>, Seq<char>)
    decreases s.len() - i,
{
    if i < 0 || i >= s.len() {
        (Seq::empty(), Seq::empty())
    } else {
        let nl = find_from(s, i, '\n');
        if nl >= s.len() {
            (seq![strip_cr(s.subrange(i, s.len() as int))], Seq::empty())
        } else {
            let line = strip_cr(s.subrange(i, nl));
            if line.len() == 0 {
                (Seq::empty(), s.subrange(nl + 1, s.len() as int))
            } else {
                proof {
                    lemma_find_from(s, i, '\n');
                }
                let r = msg_split_from(s, nl + 1);
                (seq![line] + r.0, r.1)
            }
        }
    }
}

/// Copies `s[from..to]` with one trailing carriage return removed.
fn strip_cr_range(s: &[char], from: usize, to: usize) -> (r: Vec<char>)
    requires
        from <= to <= s@.len(),
    ensures
        r@ == strip_cr(s@.subrange(from as int, to as int)),
{
    if to > from && s[to - 1] == '\r' {
        proof {
            assert(s@.subrange(from as int, to as int).last() == s@[to - 1]);
            assert(s@.subrange(from as int, to as int).drop_last() =~= s@.subrange(
                from as int,
                to as int - 1,
            ));
        }
        slice_to_vec_chars(s, from, to - 1)
    } else {
        proof {
            if to > from {
                assert(s@.subrange(from as int, to as int).last() == s@[to - 1]);
            }
        }
        slice_to_vec_chars(s, from, to)
    }
}

/// Splits a raw message into its header lines and its body.
fn msg_split(s: &[char]) -> (r: (Vec<Vec<char>>, Vec<char>))
    ensures
        r.0.deep_view() == msg_split_from(s@, 0).0,
        r.1@ == msg_split_from(s@, 0).1,
{
    let mut out: Vec<Vec<char>> = Vec::new();
    let mut i: usize = 0;
    loop
        invariant
            0 <= i <= s@.len(),
            msg_split_from(s@, 0).0 == out.deep_view() + msg_split_from(s@, i as int).0,
            msg_split_from(s@, 0).1 == msg_split_from(s@, i as int).1,
        decreases s@.len() - i,
    {
        if i >= s.len() {
            proof {
                assert(out.deep_view() + msg_split_from(s@, i as int).0 =~~= out.deep_view());
            }
            return (out, Vec::new());
        }
        let nl = find_char(s, i, '\n');
        let line = strip_cr_range(s, i, nl);
        if nl >= s.len() {
            let ghost old_out = out.deep_view();
            out.push(line);
            proof {
                assert(out.deep_view() =~~= old_out + seq![
                    strip_cr(s@.subrange(i as int, s@.len() as int)),
                ]);
            }
            return (out, Vec::new());
        }
        if line.len() == 0 {
            let body = slice_to_vec_chars(s, nl + 1, s.len());
            proof {
                assert(out.deep_view() + msg_split_from(s@, i as int).0 =~~= out.deep_view());
            }
            return (out, body);
        }
        let ghost old_out = out.deep_view();
        out.push(line);
        proof {
            assert(out.deep_view() =~~= old_out + seq![strip_cr(s@.subrange(i as int, nl as int))]);
            assert(out.deep_view() + msg_split_from(s@, nl as int + 1).0 =~~= old_out + (seq![
                strip_cr(s@.subrange(i as int, nl as int)),
            ] + msg_split_from(s@, nl as int + 1).0));
        }
        i = nl + 1;
    }
}

// ---------------------------------------------------------------------------
// Host extraction.
// ---------------------------------------------------------------------------

/// The request-method prefix that selects the tunnel form of a request.
pub open spec fn connect_prefix() -> Seq<char> {
    seq!['C', 'O', 'N', 'N', 'E', 'C', 'T']
}

/// Whether the request begins with `CONNECT`.
pub open spec fn spec_is_connect(s: Seq<char>) -> bool {
    s.len() >= 7 && s.take(7) == connect_prefix()
}

/// The lowercased prefix that identifies a `Host:` header line.
pub open spec fn host_key_prefix() -> Seq<char> {
    seq!['h', 'o', 's', 't', ':']
}

/// Whether `l` is a `Host:` header line, in any ASCII casing.
pub open spec fn is_host_line(l: Seq<char>) -> bool {
    l.len() >= 5 && lower_seq(l.take(5)) == host_key_prefix()
}

/// Whether `h` contains a colon.
pub open spec fn has_colon(h: Seq<char>) -> bool {
    find_from(h, 0, ':') < h.len()
}

/// The key produced from the value of a `Host:` line: trimmed, with `:80`
/// appended when no port is present.
pub open spec fn host_of_line(l: Seq<char>) -> Seq<char> {
    let h = spec_trim(l.skip(5));
    if has_colon(h) {
        h
    } else {
        h + seq![':', '8', '0']
    }
}

/// Scans the lines of `s` from index `i` for the first `Host:` line and
/// yields its host key.
pub open spec fn http_host_from(s: Seq<char>, i: int) -> Option<Seq<char>>
    decreases s.len() - i,
{
    if i < 0 || i >= s.len() {
        None
    } else {
        let nl = find_from(s, i, '\n');
        let line = strip_cr(s.subrange(i, nl));
        if is_host_line(line) {
            Some(host_of_line(line))
        } else if nl >= s.len() {
            None
        } else {
            proof {
                lemma_find_from(s, i, '\n');
            }
            http_host_from(s, nl + 1)
        }
    }
}

/// The host key of a request, if one can be found.
///
/// A `CONNECT` request yields the second token of its first line, with
/// `:443` appended when no port is present.  Any other request yields the
/// value of its first `Host:` line, trimmed, with `:80` appended when no
/// port is present.
pub open spec fn spec_extract_host(s: Seq<char>) -> Option<Seq<char>> {
    if spec_is_connect(s) {
        let e = find_pair_from(s, 0, '\r', '\n');
        let toks = tokens_from(s.subrange(0, if e > s.len() { s.len() as int } else { e }), 0);
        if toks.len() >= 2 {
            let h = toks[1];
            if has_colon(h) {
                Some(h)
            } else {
                Some(h + seq![':', '4', '4', '3'])
            }
        } else {
            None
        }
    } else {
        http_host_from(s, 0)
    }
}

/// Whether the slice begins with `CONNECT`.
pub fn is_connect_chars(s: &[char]) -> (r: bool)
    ensures
        r == spec_is_connect(s@),
{
    if s.len() < 7 {
        return false;
    }
    let r = s[0] == 'C' && s[1] == 'O' && s[2] == 'N' && s[3] == 'N' && s[4] == 'E' && s[5] == 'C'
        && s[6] == 'T';
    proof {
        if r {
            assert(s@.take(7) =~= connect_prefix());
        } else {
            assert(s@.take(7)[0] == s@[0]);
            assert(s@.take(7)[1] == s@[1]);
            assert(s@.take(7)[2] == s@[2]);
            assert(s@.take(7)[3] == s@[3]);
            assert(s@.take(7)[4] == s@[4]);
            assert(s@.take(7)[5] == s@[5]);
            assert(s@.take(7)[6] == s@[6]);
        }
    }
    r
}

/// Whether the line names the `Host:` header, in any ASCII casing.
fn is_host_line_chars(l: &[char]) -> (r: bool)
    ensures
        r == is_host_line(l@),
{
    if l.len() < 5 {
        return false;
    }
    let r = to_lower_char(l[0]) == 'h' && to_lower_char(l[1]) == 'o' && to_lower_char(l[2]) == 's'
        && to_lower_char(l[3]) == 't' && to_lower_char(l[4]) == ':';
    proof {
        assert(lower_seq(l@.take(5)).len() == 5);
        assert(forall|j: int|
            0 <= j < 5 ==> #[trigger] lower_seq(l@.take(5))[j] == lower_char(l@[j]));
        if r {
            assert(lower_seq(l@.take(5)) =~= host_key_prefix());
        }
    }
    r
}

/// Whether the slice contains a colon.
fn has_colon_chars(h: &[char]) -> (r: bool)
    ensures
        r == has_colon(h@),
{
    find_char(h, 0, ':') < h.len()
}

/// Extracts the cache key `host[:port]` from a raw request, as described by
/// `spec_extract_host`.
pub fn extract_host(request: &str) -> (r: Option<String>)
    ensures
        match r {
            Some(h) => spec_extract_host(request@) == Some(h@),
            None => spec_extract_host(request@) is None,
        },
{
    let chars = to_chars(request);
    let s = chars.as_slice();
    if is_connect_chars(s) {
        let e = find_pair(s, 0, '\r', '\n');
        let first = slice_to_vec_chars(s, 0, e);
        let toks = split_tokens(first.as_slice());
        proof {
            assert(first@ =~= s@.subrange(0, e as int));
            assert(toks.deep_view() == spec_tokens(first@));
        }
        if toks.len() >= 2 {
            let h = &toks[1];
            proof {
                assert(h@ == toks.deep_view()[1]);
            }
            if has_colon_chars(h.as_slice()) {
                Some(chars_to_string(h))
            } else {
                let mut v = slice_to_vec_chars(h.as_slice(), 0, h.len());
                v.push(':');
                v.push('4');
                v.push('4');
                v.push('3');
                proof {
                    assert(v@ =~= h@ + seq![':', '4', '4', '3']);
                }
                Some(chars_to_string(&v))
            }
        } else {
            None
        }
    } else {
        let mut i: usize = 0;
        loop
            invariant
                0 <= i <= s@.len(),
                http_host_from(s@, 0) == http_host_from(s@, i as int),
                !spec_is_connect(s@),
                s@ == request@,
                s@ == chars@,
            decreases s@.len() - i,
        {
            if i >= s.len() {
                return None;
            }
            let nl = find_char(s, i, '\n');
            let line = strip_cr_range(s, i, nl);
            if is_host_line_chars(line.as_slice()) {
                let tail = slice_to_vec_chars(line.as_slice(), 5, line.len());
                proof {
                    assert(tail@ =~= line@.skip(5));
                }
                let t = trim_chars(tail.as_slice());
                if has_colon_chars(t.as_slice()) {
                    return Some(chars_to_string(&t));
                } else {
                    let mut v = t;
                    let ghost tv = v@;
                    v.push(':');
                    v.push('8');
                    v.push('0');
                    proof {
                        assert(v@ =~= tv + seq![':', '8', '0']);
                    }
                    return Some(chars_to_string(&v));
                }
            }
            if nl >= s.len() {
                return None;
            }
            i = nl + 1;
        }
    }
}

// ---------------------------------------------------------------------------
// Message parsing.
// ---------------------------------------------------------------------------

/// One header-line step: a line with a `": "` separator inserts its
/// lowercased name and its value; any other line is ignored.
pub open spec fn header_step(
    m: Seq<(Seq<char>, Seq<char>)>,
    l: Seq<char>,
) -> Seq<(Seq<char>, Seq<char>)> {
    let ci = find_pair_from(l, 0, ':', ' ');
    if ci < l.len() {
        spec_insert(m, lower_seq(l.take(ci)), l.skip(ci + 2))
    } else {
        m
    }
}

/// The header map produced by the given header lines, in order.
pub open spec fn spec_headers_of(ls: Seq<Seq<char>>) -> Seq<(Seq<char>, Seq<char>)>
    decreases ls.len(),
{
    if ls.len() == 0 {
        Seq::empty()
    } else {
        header_step(spec_headers_of(ls.drop_last()), ls.last())
    }
}

/// The remaining tokens joined by single spaces.
pub open spec fn join_sp(ts: Seq<Seq<char>>) -> Seq<char>
    decreases ts.len(),
{
    if ts.len() == 0 {
        Seq::empty()
    } else if ts.len() == 1 {
        ts[0]
    } else {
        join_sp(ts.drop_last()) + seq![' '] + ts.last()
    }
}

/// The mathematical content of a parsed request.
#[verifier::ext_equal]
pub struct ReqView {
    pub method: Seq<char>,
    pub path: Seq<char>,
    pub version: Seq<char>,
    pub headers: Seq<(Seq<char>, Seq<char>)>,
    pub body: Seq<char>,
}

/// The mathematical content of a parsed response.
#[verifier::ext_equal]
pub struct RespView {
    pub version: Seq<char>,
    pub status_code: u16,
    pub status_text: Seq<char>,
    pub headers: Seq<(Seq<char>, Seq<char>)>,
    pub body: Seq<char>,
}

/// A parsed HTTP request.
pub struct HttpRequest {
    pub method: String,
    pub path: String,
    pub version: String,
    pub headers: HeaderMap,
    pub body: String,
}

impl View for HttpRequest {
    type V = ReqView;

    open spec fn view(&self) -> ReqView {
        ReqView {
            method: self.method@,
            path: self.path@,
            version: self.version@,
            headers: self.headers@,
            body: self.body@,
        }
    }
}

/// A parsed HTTP response.
pub struct HttpResponse {
    pub version: String,
    pub status_code: u16,
    pub status_text: String,
    pub headers: HeaderMap,
    pub body: String,
}

impl View for HttpResponse {
    type V = RespView;

    open spec fn view(&self) -> RespView {
        RespView {
            version: self.version@,
            status_code: self.status_code,
            status_text: self.status_text@,
            headers: self.headers@,
            body: self.body@,
        }
    }
}

/// The parse of a raw request: the first line must hold at least a method,
/// a path and a version.
pub open spec fn spec_parse_request(s: Seq<char>) -> Option<ReqView> {
    let parts = msg_split_from(s, 0);
    if parts.0.len() == 0 {
        None
    } else {
        let toks = tokens_from(parts.0[0], 0);
        if toks.len() < 3 {
            None
        } else {
            Some(
                ReqView {
                    method: toks[0],
                    path: toks[1],
                    version: toks[2],
                    headers: spec_headers_of(parts.0.drop_first()),
                    body: parts.1,
                },
            )
        }
    }
}

/// Whether a token is a decimal status code that fits a `u16`.
pub open spec fn is_status_token(t: Seq<char>) -> bool {
    t.len() >= 1 && all_digits(t) && dec_val(t) <= u16::MAX
}

/// The parse of a raw response: the first line must hold a version and a
/// numeric status code; the remaining tokens join into the status text.
pub open spec fn spec_parse_response(s: Seq<char>) -> Option<RespView> {
    let parts = msg_split_from(s, 0);
    if parts.0.len() == 0 {
        None
    } else {
        let toks = tokens_from(parts.0[0], 0);
        if toks.len() < 2 || !is_status_token(toks[1]) {
            None
        } else {
            Some(
                RespView {
                    version: toks[0],
                    status_code: dec_val(toks[1]) as u16,
                    status_text: join_sp(toks.skip(2)),
                    headers: spec_headers_of(parts.0.drop_first()),
                    body: parts.1,
                },
            )
        }
    }
}

/// Builds the header map of the given header lines (all lines after the
/// first one).
fn build_headers(ls: &Vec<Vec<char>>) -> (r: HeaderMap)
    requires
        ls@.len() >= 1,
    ensures
        r@ == spec_headers_of(ls.deep_view().drop_first()),
        r.wf(),
{
    let mut hm = HeaderMap::new();
    let n = ls.len();
    let mut j: usize = 1;
    proof {
        assert(ls.deep_view().drop_first().subrange(0, 0) =~= Seq::<Seq<char>>::empty());
    }
    while j < n
        invariant
            1 <= j <= n,
            n == ls@.len(),
            hm.wf(),
            hm@ == spec_headers_of(ls.deep_view().drop_first().subrange(0, j - 1)),
        decreases n - j,
    {
        let line = &ls[j];
        let ghost lsv = ls.deep_view().drop_first();
        proof {
            lemma_find_pair_from(line@, 0, ':', ' ');
            assert(lsv[j - 1] == line@);
            assert(lsv.subrange(0, j as int).drop_last() =~= lsv.subrange(0, j - 1));
            assert(lsv.subrange(0, j as int).last() == line@);
        }
        let ci = find_pair(line.as_slice(), 0, ':', ' ');
        if ci < line.len() {
            let key = slice_to_vec_chars(line.as_slice(), 0, ci);
            let value = slice_to_vec_chars(line.as_slice(), ci + 2, line.len());
            proof {
                assert(key@ =~= line@.take(ci as int));
                assert(value@ =~= line@.skip(ci as int + 2));
            }
            let key_string = chars_to_string(&key);
            let value_string = chars_to_string(&value);
            hm.insert(key_string.as_str(), value_string);
        }
        j = j + 1;
    }
    proof {
        assert(ls.deep_view().drop_first().subrange(
            0,
            ls.deep_view().drop_first().len() as int,
        ) =~= ls.deep_view().drop_first());
    }
    hm
}

/// Parses a raw HTTP request into a structured form, as described by
/// `spec_parse_request`.
pub fn parse_http_request(raw_request: &str) -> (r: Option<HttpRequest>)
    ensures
        match r {
            Some(q) => spec_parse_request(raw_request@) == Some(q@) && q.headers.wf(),
            None => spec_parse_request(raw_request@) is None,
        },
{
    let chars = to_chars(raw_request);
    let (ls, body) = msg_split(chars.as_slice());
    if ls.len() == 0 {
        return None;
    }
    let toks = split_tokens(ls[0].as_slice());
    proof {
        assert(ls.deep_view()[0] == ls@[0].deep_view());
        assert(ls@[0].deep_view() =~= ls@[0]@);
        assert(toks.deep_view() == spec_tokens(ls.deep_view()[0]));
    }
    if toks.len() < 3 {
        return None;
    }
    let headers = build_headers(&ls);
    let method = chars_to_string(&toks[0]);
    let path = chars_to_string(&toks[1]);
    let version = chars_to_string(&toks[2]);
    let body_string = chars_to_string(&body);
    let result = HttpRequest { method, path, version, headers, body: body_string };
    proof {
        assert(toks.deep_view()[0] == toks@[0].deep_view());
        assert(toks.deep_view()[1] == toks@[1].deep_view());
        assert(toks.deep_view()[2] == toks@[2].deep_view());
        assert(toks@[0].deep_view() =~= toks@[0]@);
        assert(toks@[1].deep_view() =~= toks@[1]@);
        assert(toks@[2].deep_view() =~= toks@[2]@);
        let s = spec_parse_request(raw_request@);
        assert(s is Some);
        assert(result@ =~= s->0);
    }
    Some(result)
}

/// Parses a raw HTTP response into a structured form, as described by
/// `spec_parse_response`.
pub fn parse_http_response(raw_response: &str) -> (r: Option<HttpResponse>)
    ensures
        match r {
            Some(p) => spec_parse_response(raw_response@) == Some(p@) && p.headers.wf(),
            None => spec_parse_response(raw_response@) is None,
        },
{
    let chars = to_chars(raw_response);
    let (ls, body) = msg_split(chars.as_slice());
    if ls.len() == 0 {
        return None;
    }
    let toks = split_tokens(ls[0].as_slice());
    proof {
        assert(ls.deep_view()[0] == ls@[0].deep_view());
        assert(ls@[0].deep_view() =~= ls@[0]@);
        assert(toks.deep_view() == spec_tokens(ls.deep_view()[0]));
    }
    if toks.len() < 2 {
        return None;
    }
    proof {
        assert(toks.deep_view()[1] == toks@[1].deep_view());
        assert(toks@[1].deep_view() =~= toks@[1]@);
    }
    let code64 = match parse_u64(toks[1].as_slice()) {
        Some(v) => v,
        None => {
            return None;
        },
    };
    if code64 > 65535 {
        return None;
    }
    let status_code: u16 = code64 as u16;
    let headers = build_headers(&ls);
    let version = chars_to_string(&toks[0]);
    let status_text = join_tokens_sp(&toks);
    let body_string = chars_to_string(&body);
    let result = HttpResponse { version, status_code, status_text, headers, body: body_string };
    proof {
        assert(toks.deep_view()[0] == toks@[0].deep_view());
        assert(toks@[0].deep_view() =~= toks@[0]@);
        let s = spec_parse_response(raw_response@);
        assert(s is Some);
        assert(result@ =~= s->0);
    }
    Some(result)
}

// ---------------------------------------------------------------------------
// Laws of the parser.
// ---------------------------------------------------------------------------

/// Law: a header name may carry any ASCII casing.  Two header lines whose
/// names are case-equivalent (and colon-free) and whose values are equal
/// insert the same entry into the header map, so the parsed map does not
/// depend on the casing of names.
pub proof fn lemma_header_name_case_irrelevant(
    m: Seq<(Seq<char>, Seq<char>)>,
    name1: Seq<char>,
    name2: Seq<char>,
    value: Seq<char>,
)
    requires
        lower_seq(name1) == lower_seq(name2),
        forall|i: int| 0 <= i < name1.len() ==> name1[i] != ':',
        forall|i: int| 0 <= i < name2.len() ==> name2[i] != ':',
    ensures
        header_step(m, name1 + seq![':', ' '] + value) == header_step(
            m,
            name2 + seq![':', ' '] + value,
        ),
{
    lemma_header_line_split(m, name1, value);
    lemma_header_line_split(m, name2, value);
    assert(lower_seq(name1).len() == name1.len());
    assert(lower_seq(name2).len() == name2.len());
}

/// A header line built from a colon-free name splits at exactly the
/// separator that was inserted.
proof fn lemma_header_line_split(
    m: Seq<(Seq<char>, Seq<char>)>,
    name: Seq<char>,
    value: Seq<char>,
)
    requires
        forall|i: int| 0 <= i < name.len() ==> name[i] != ':',
    ensures
        header_step(m, name + seq![':', ' '] + value) == spec_insert(m, lower_seq(name), value),
{
    let l = name + seq![':', ' '] + value;
    let n = name.len() as int;
    lemma_find_pair_from(l, 0, ':', ' ');
    assert(l[n] == ':');
    assert(l[n + 1] == ' ');
    let r = find_pair_from(l, 0, ':', ' ');
    assert(r <= n) by {
        if r > n {
            assert(!(l[n] == ':' && n + 1 < l.len() && l[n + 1] == ' '));
        }
    }
    assert(r >= n) by {
        if r < n {
            assert(l[r] == name[r]);
        }
    }
    assert(l.take(n) =~= name);
    assert(l.skip(n + 2) =~= value);
}

/// The conditions on a host key under which wrapping it back into a
/// request is lossless: non-empty, no surrounding whitespace, a colon
/// present, and no line break inside.
pub open spec fn host_wf(h: Seq<char>) -> bool {
    &&& h.len() >= 1
    &&& !is_ws(h[0])
    &&& !is_ws(h[h.len() - 1])
    &&& has_colon(h)
    &&& forall|i: int| 0 <= i < h.len() ==> h[i] != '\n'
}

/// A whitespace-free, non-empty token.
pub open spec fn tok_wf(t: Seq<char>) -> bool {
    t.len() >= 1 && forall|j: int| 0 <= j < t.len() ==> !is_ws(t[j])
}

/// Every token is non-empty and whitespace-free.
proof fn lemma_tokens_wf(s: Seq<char>, i: int)
    requires
        0 <= i <= s.len(),
    ensures
        forall|t: int|
            0 <= t < tokens_from(s, i).len() ==> tok_wf(#[trigger] tokens_from(s, i)[t]),
    decreases s.len() - i,
{
    if i >= s.len() {
        assert(tokens_from(s, i).len() == 0);
    } else {
        if is_ws(s[i]) {
            lemma_tokens_wf(s, i + 1);
            assert(tokens_from(s, i) == tokens_from(s, i + 1));
        } else {
            let j = ws_from(s, i + 1);
            lemma_ws_from(s, i + 1);
            lemma_tokens_wf(s, j);
            let tok = s.subrange(i, j);
            assert(tok_wf(tok)) by {
                assert(forall|t: int| 0 <= t < tok.len() ==> tok[t] == s[i + t]);
            }
            assert forall|t: int|
                0 <= t < tokens_from(s, i).len() implies tok_wf(
                #[trigger] tokens_from(s, i)[t],
            ) by {
                if t == 0 {
                    assert(tokens_from(s, i)[0] == tok);
                } else {
                    assert(tokens_from(s, i)[t] == tokens_from(s, j)[t - 1]);
                }
            }
        }
    }
}

/// Law, first half: every host key the parser extracts is well formed:
/// non-empty, trimmed, holding a colon, and free of line breaks.
pub proof fn lemma_extract_host_wf(s: Seq<char>, h: Seq<char>)
    requires
        spec_extract_host(s) == Some(h),
    ensures
        host_wf(h),
{
    if spec_is_connect(s) {
        let e = find_pair_from(s, 0, '\r', '\n');
        lemma_find_pair_from(s, 0, '\r', '\n');
        let first = s.subrange(0, if e > s.len() {
            s.len() as int
        } else {
            e
        });
        let toks = tokens_from(first, 0);
        lemma_tokens_wf(first, 0);
        assert(tok_wf(toks[1]));
        let t = toks[1];
        if has_colon(t) {
        } else {
            let h2 = t + seq![':', '4', '4', '3'];
            assert(host_wf(h2)) by {
                assert(h2[0] == t[0]);
                assert(h2[h2.len() - 1] == '3');
                assert(has_colon(h2)) by {
                    lemma_find_from(h2, 0, ':');
                    if find_from(h2, 0, ':') >= h2.len() {
                        assert(h2[t.len() as int] == ':');
                    }
                }
            }
        }
    } else {
        lemma_http_host_wf(s, 0, h);
    }
}

/// Any host yielded by the `Host:` line scan is well formed.
proof fn lemma_http_host_wf(s: Seq<char>, i: int, h: Seq<char>)
    requires
        http_host_from(s, i) == Some(h),
        0 <= i <= s.len(),
    ensures
        host_wf(h),
    decreases s.len() - i,
{
    let nl = find_from(s, i, '\n');
    lemma_find_from(s, i, '\n');
    let line = strip_cr(s.subrange(i, nl));
    if is_host_line(line) {
        assert(forall|j: int| 0 <= j < line.len() ==> line[j] != '\n') by {
            assert(forall|j: int|
                0 <= j < s.subrange(i, nl).len() ==> s.subrange(i, nl)[j] == s[i + j]);
        }
        let l5 = line.skip(5);
        let t = spec_trim(l5);
        crate::text::lemma_non_ws_from(l5, 0);
        crate::text::lemma_trim_end_idx(l5);
        let a = crate::text::non_ws_from(l5, 0);
        let b = crate::text::trim_end_idx(l5);
        if a >= b {
            assert(t =~= Seq::<char>::empty());
            let h2 = t + seq![':', '8', '0'];
            assert(h2 =~= seq![':', '8', '0']);
            assert(host_wf(h2)) by {
                assert(has_colon(h2)) by {
                    lemma_find_from(h2, 0, ':');
                    if find_from(h2, 0, ':') >= h2.len() {
                        assert(h2[0] == ':');
                    }
                }
            }
            assert(!has_colon(t)) by {
                lemma_find_from(t, 0, ':');
            }
        } else {
            assert(t[0] == l5[a]);
            assert(t[t.len() - 1] == l5[b - 1]);
            assert(!is_ws(t[0]));
            assert(!is_ws(t[t.len() - 1]));
            assert(forall|j: int| 0 <= j < t.len() ==> t[j] == l5[a + j]);
            assert(forall|j: int| 0 <= j < l5.len() ==> l5[j] == line[5 + j]);
            assert(forall|j: int| 0 <= j < t.len() ==> t[j] != '\n');
            if has_colon(t) {
            } else {
                let h2 = t + seq![':', '8', '0'];
                assert(host_wf(h2)) by {
                    assert(h2[0] == t[0]);
                    assert(h2[h2.len() - 1] == '0');
                    assert(has_colon(h2)) by {
                        lemma_find_from(h2, 0, ':');
                        if find_from(h2, 0, ':') >= h2.len() {
                            assert(h2[t.len() as int] == ':');
                        }
                    }
                }
            }
        }
    } else {
        assert(nl < s.len());
        lemma_http_host_wf(s, nl + 1, h);
    }
}

/// The request a well-formed host key is wrapped back into.
pub open spec fn wrap_host(h: Seq<char>) -> Seq<char> {
    req_line_prefix() + h + seq!['\r', '\n', '\r', '\n']
}

/// `GET / HTTP/1.1` and the start of a `Host:` line.
pub open spec fn req_line_prefix() -> Seq<char> {
    seq![
        'G',
        'E',
        'T',
        ' ',
        '/',
        ' ',
        'H',
        'T',
        'T',
        'P',
        '/',
        '1',
        '.',
        '1',
        '\r',
        '\n',
        'H',
        'o',
        's',
        't',
        ':',
        ' ',
    ]
}

/// Law, second half: extracting the host from a request that carries a
/// well-formed host key yields exactly that key.
pub proof fn lemma_extract_host_of_wrapped(h: Seq<char>)
    requires
        host_wf(h),
    ensures
        spec_extract_host(wrap_host(h)) == Some(h),
{
    let w = wrap_host(h);
    let lh = h.len() as int;
    assert(w.len() == 26 + lh);
    assert(forall|j: int| 0 <= j < 22 ==> w[j] == req_line_prefix()[j]);
    assert(forall|j: int| 0 <= j < lh ==> w[22 + j] == h[j]);
    assert(w[22 + lh] == '\r');
    assert(w[23 + lh] == '\n');
    assert(w[24 + lh] == '\r');
    assert(w[25 + lh] == '\n');
    assert(!spec_is_connect(w)) by {
        if spec_is_connect(w) {
            assert(w.take(7)[0] == w[0]);
            assert(connect_prefix()[0] == 'C');
        }
    }
    // The first line is the request line, which is not a Host: line.
    lemma_find_from(w, 0, '\n');
    let nl1 = find_from(w, 0, '\n');
    assert(nl1 == 15) by {
        assert(w[15] == '\n');
        if nl1 > 15 {
            assert(w[15] != '\n');
        }
        if nl1 < 15 {
            assert(w[nl1] == '\n');
            assert(forall|j: int| 0 <= j < 15 ==> w[j] == req_line_prefix()[j]);
        }
    }
    let line1 = strip_cr(w.subrange(0, 15));
    assert(w.subrange(0, 15).last() == w[14]);
    assert(w[14] == '\r');
    assert(line1 =~= w.subrange(0, 14));
    assert(!is_host_line(line1)) by {
        if is_host_line(line1) {
            assert(lower_seq(line1.take(5))[0] == lower_char(line1[0]));
            assert(line1[0] == 'G');
            assert(lower_char('G') == 'g');
            assert(host_key_prefix()[0] == 'h');
        }
    }
    // The second line is the Host: line, and it yields exactly h.
    lemma_find_from(w, 16, '\n');
    let nl2 = find_from(w, 16, '\n');
    assert(nl2 == 23 + lh) by {
        assert(w[23 + lh] == '\n');
        if nl2 > 23 + lh {
            assert(w[23 + lh] != '\n');
        }
        if nl2 < 23 + lh {
            assert(w[nl2] == '\n');
            assert(forall|j: int| 16 <= j < 22 ==> w[j] == req_line_prefix()[j]);
            assert(forall|j: int| 22 <= j < 22 + lh ==> w[j] == h[j - 22]);
            assert(forall|j: int| 0 <= j < h.len() ==> h[j] != '\n');
        }
    }
    let raw2 = w.subrange(16, 23 + lh);
    assert(raw2.last() == w[22 + lh]);
    let line2 = strip_cr(raw2);
    assert(line2 =~= w.subrange(16, 22 + lh));
    assert(line2.len() == 6 + lh);
    assert(is_host_line(line2)) by {
        assert(line2[0] == 'H');
        assert(line2[1] == 'o');
        assert(line2[2] == 's');
        assert(line2[3] == 't');
        assert(line2[4] == ':');
        assert(lower_char('H') == 'h');
        assert(lower_seq(line2.take(5)) =~= host_key_prefix());
    }
    let l5 = line2.skip(5);
    assert(l5.len() == 1 + lh);
    assert(l5[0] == ' ');
    assert(forall|j: int| 0 <= j < lh ==> l5[1 + j] == h[j]);
    crate::text::lemma_non_ws_from(l5, 0);
    let a = crate::text::non_ws_from(l5, 0);
    assert(a == 1) by {
        assert(l5[1] == h[0]);
        assert(!is_ws(l5[1]));
        assert(is_ws(l5[0]));
        if a > 1 {
            assert(is_ws(l5[1]));
        }
        if a == 0 {
            assert(!is_ws(l5[0]));
        }
    }
    crate::text::lemma_trim_end_idx(l5);
    let b = crate::text::trim_end_idx(l5);
    assert(b == l5.len()) by {
        assert(l5.last() == h[lh - 1]);
        assert(!is_ws(l5.last()));
        if b < l5.len() {
            assert(is_ws(l5[l5.len() - 1]));
        }
    }
    assert(spec_trim(l5) =~= h);
    assert(host_of_line(line2) == h);
    // Walk the scan: the first line does not match, the second does.
    assert(http_host_from(w, 0) == http_host_from(w, 16));
    assert(http_host_from(w, 16) == Some(h));
}

/// Law: host extraction is idempotent with respect to port normalization:
/// any key it returns, wrapped back into a request, extracts to the same
/// key (in particular the port suffix is not appended twice).
pub proof fn lemma_extract_host_idempotent(s: Seq<char>, h: Seq<char>)
    requires
        spec_extract_host(s) == Some(h),
    ensures
        spec_extract_host(wrap_host(h)) == Some(h),
{
    lemma_extract_host_wf(s, h);
    lemma_extract_host_of_wrapped(h);
}

/// Joins the tokens after the first two with single spaces.
fn join_tokens_sp(toks: &Vec<Vec<char>>) -> (r: String)
    requires
        toks@.len() >= 2,
    ensures
        r@ == join_sp(toks.deep_view().skip(2)),
{
    let ghost ts = toks.deep_view().skip(2);
    let n = toks.len();
    let mut v: Vec<char> = Vec::new();
    let mut j: usize = 2;
    proof {
        assert(ts.subrange(0, 0) =~= Seq::<Seq<char>>::empty());
    }
    while j < n
        invariant
            2 <= j <= n,
            n == toks@.len(),
            ts == toks.deep_view().skip(2),
            v@ == join_sp(ts.subrange(0, j - 2)),
        decreases n - j,
    {
        proof {
            assert(ts.subrange(0, j - 1).drop_last() =~= ts.subrange(0, j - 2));
            assert(ts.subrange(0, j - 1).last() == toks.deep_view()[j as int]);
            assert(toks.deep_view()[j as int] == toks@[j as int].deep_view());
        }
        let ghost before = v@;
        if j > 2 {
            v.push(' ');
        }
        let mut k: usize = 0;
        let tok = &toks[j];
        while k < tok.len()
            invariant
                0 <= k <= tok@.len(),
                tok@ == toks@[j as int]@,
                j < n == toks@.len(),
                v@ == (if j > 2 {
                    before + seq![' ']
                } else {
                    before
                }) + tok@.take(k as int),
            decreases tok@.len() - k,
        {
            v.push(tok[k]);
            proof {
                assert(tok@.take(k + 1) =~= tok@.take(k as int).push(tok@[k as int]));
            }
            k = k + 1;
        }
        proof {
            assert(tok@.take(tok@.len() as int) =~= tok@);
            if j > 2 {
                assert(v@ =~= join_sp(ts.subrange(0, j - 2)) + seq![' '] + toks.deep_view()[
                    j as int
                ]);
            } else {
                assert(v@ =~= toks.deep_view()[2]);
                assert(ts.subrange(0, 1).drop_last() =~= Seq::<Seq<char>>::empty());
            }
            assert(v@ == join_sp(ts.subrange(0, j - 1)));
        }
        j = j + 1;
    }
    proof {
        assert(ts.subrange(0, ts.len() as int) =~= ts);
    }
    chars_to_string(&v)
}

} // verus!
