use roxy::parsing::{extract_host, parse_http_request, parse_http_response};

#[test]
fn connect_without_port_gets_443() {
    let r = extract_host("CONNECT example.com HTTP/1.1\r\n\r\n");
    assert_eq!(r, Some(String::from("example.com:443")));
}

#[test]
fn connect_with_port_is_kept() {
    let r = extract_host("CONNECT example.com:8443 HTTP/1.1\r\n\r\n");
    assert_eq!(r, Some(String::from("example.com:8443")));
}

#[test]
fn connect_without_target_is_none() {
    assert_eq!(extract_host("CONNECT\r\n\r\n"), None);
}

#[test]
fn host_header_without_port_gets_80() {
    let r = extract_host("GET / HTTP/1.1\r\nHost: example.org\r\n\r\n");
    assert_eq!(r, Some(String::from("example.org:80")));
}

#[test]
fn host_header_with_port_is_kept() {
    let r = extract_host("GET /a HTTP/1.1\r\nHost: origin:80\r\n\r\n");
    assert_eq!(r, Some(String::from("origin:80")));
}

#[test]
fn host_header_any_casing_is_found() {
    let r = extract_host("GET / HTTP/1.1\r\nhOsT: example.org:8080\r\n\r\n");
    assert_eq!(r, Some(String::from("example.org:8080")));
}

#[test]
fn host_value_is_trimmed() {
    let r = extract_host("GET / HTTP/1.1\r\nHost:   spaced.example  \r\n\r\n");
    assert_eq!(r, Some(String::from("spaced.example:80")));
}

#[test]
fn request_without_host_is_none() {
    assert_eq!(extract_host("GET / HTTP/1.1\r\nAccept: */*\r\n\r\n"), None);
}

#[test]
fn extract_host_is_idempotent_under_wrapping() {
    let first = extract_host("GET / HTTP/1.1\r\nHost: www.example.com\r\n\r\n").unwrap();
    assert_eq!(first, "www.example.com:80");
    let wrapped = format!("GET / HTTP/1.1\r\nHost: {}\r\n\r\n", first);
    let second = extract_host(&wrapped).unwrap();
    assert_eq!(second, first);
}

#[test]
fn extract_host_is_idempotent_for_connect_targets() {
    let first = extract_host("CONNECT secure.example HTTP/1.1\r\n\r\n").unwrap();
    assert_eq!(first, "secure.example:443");
    let wrapped = format!("GET / HTTP/1.1\r\nHost: {}\r\n\r\n", first);
    assert_eq!(extract_host(&wrapped).unwrap(), first);
}

#[test]
fn parse_request_basic() {
    let q = parse_http_request("GET /path HTTP/1.1\r\nHost: h\r\nAccept: */*\r\n\r\nBODY").unwrap();
    assert_eq!(q.method, "GET");
    assert_eq!(q.path, "/path");
    assert_eq!(q.version, "HTTP/1.1");
    assert_eq!(q.headers.get("host"), Some(String::from("h")));
    assert_eq!(q.headers.get("accept"), Some(String::from("*/*")));
    assert_eq!(q.body, "BODY");
}

#[test]
fn parse_request_needs_three_tokens() {
    assert!(parse_http_request("GET /\r\n\r\n").is_none());
    assert!(parse_http_request("").is_none());
}

#[test]
fn parse_request_header_names_are_lowercased() {
    let a = parse_http_request("GET / HTTP/1.1\r\nCache-Control: no-store\r\n\r\n").unwrap();
    let b = parse_http_request("GET / HTTP/1.1\r\ncache-control: no-store\r\n\r\n").unwrap();
    assert_eq!(a.headers.get("cache-control"), Some(String::from("no-store")));
    assert_eq!(a.headers.get("CACHE-CONTROL"), Some(String::from("no-store")));
    assert_eq!(
        a.headers.get("cache-control"),
        b.headers.get("cache-control")
    );
    assert_eq!(a.headers.len(), b.headers.len());
}

#[test]
fn parse_request_repeated_header_keeps_last_value() {
    let q = parse_http_request("GET / HTTP/1.1\r\nX-K: one\r\nx-k: two\r\n\r\n").unwrap();
    assert_eq!(q.headers.len(), 1);
    assert_eq!(q.headers.get("x-k"), Some(String::from("two")));
}

#[test]
fn parse_response_basic() {
    let p =
        parse_http_response("HTTP/1.1 200 OK\r\nCache-Control: max-age=60\r\n\r\nBODY").unwrap();
    assert_eq!(p.version, "HTTP/1.1");
    assert_eq!(p.status_code, 200);
    assert_eq!(p.status_text, "OK");
    assert_eq!(
        p.headers.get("cache-control"),
        Some(String::from("max-age=60"))
    );
    assert_eq!(p.body, "BODY");
}

#[test]
fn parse_response_status_text_joins_tokens() {
    let p = parse_http_response("HTTP/1.1 404 Not   Found\r\n\r\n").unwrap();
    assert_eq!(p.status_code, 404);
    assert_eq!(p.status_text, "Not Found");
}

#[test]
fn parse_response_rejects_bad_status() {
    assert!(parse_http_response("HTTP/1.1 abc OK\r\n\r\n").is_none());
    assert!(parse_http_response("HTTP/1.1 70000 OK\r\n\r\n").is_none());
    assert!(parse_http_response("HTTP/1.1\r\n\r\n").is_none());
}

#[test]
fn parse_response_body_keeps_raw_remainder() {
    let p = parse_http_response("HTTP/1.1 200 OK\r\n\r\nline1\r\nline2").unwrap();
    assert_eq!(p.body, "line1\r\nline2");
}
