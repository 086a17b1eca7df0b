use reqrun::http::{build_request, io_context, read_response, FaultKind, HttpResponse};
use reqrun::url;

fn parse(raw: &str) -> HttpResponse {
    read_response(raw.as_bytes(), false).expect("parse failed")
}

#[test]
fn read_timeouts_render_as_timed_out_not_errno() {
    // A read timeout surfaces as WouldBlock on Linux ("Resource
    // temporarily unavailable, os error 11") and TimedOut elsewhere;
    // users must see "timed out", not the raw errno text.
    for kind in [FaultKind::WouldBlock, FaultKind::TimedOut] {
        let msg = io_context("reading response", kind, "os error 11");
        assert_eq!(msg, "reading response: timed out (see --timeout)");
    }
    let other = io_context("reading response", FaultKind::Other, "boom");
    assert!(other.starts_with("reading response: ") && other.contains("boom"));
}

#[test]
fn parses_content_length_response() {
    let r =
        parse("HTTP/1.1 200 OK\r\nContent-Type: text/plain\r\nContent-Length: 5\r\n\r\nhello");
    assert_eq!(r.status, 200);
    assert_eq!(r.reason, "OK");
    assert_eq!(r.body_text(), "hello");
    assert_eq!(r.header("content-type"), Some("text/plain"));
}

#[test]
fn parses_chunked_response_with_extensions_and_trailers() {
    let r = parse(
        "HTTP/1.1 200 OK\r\nTransfer-Encoding: chunked\r\n\r\n4;ext=1\r\nWiki\r\n5\r\npedia\r\n0\r\nX-Trailer: t\r\n\r\n",
    );
    assert_eq!(r.body_text(), "Wikipedia");
}

#[test]
fn parses_read_to_eof_body() {
    let r = parse("HTTP/1.1 200 OK\r\nConnection: close\r\n\r\nstream until close");
    assert_eq!(r.body_text(), "stream until close");
}

#[test]
fn no_content_and_head_have_empty_bodies() {
    let r = parse("HTTP/1.1 204 No Content\r\nContent-Length: 99\r\n\r\n");
    assert!(r.body.is_empty());
    let r = read_response(b"HTTP/1.1 200 OK\r\nContent-Length: 10\r\n\r\n", true)
    .unwrap();
    assert!(r.body.is_empty());
}

#[test]
fn truncated_and_malformed_responses_are_errors() {
    let raw = "HTTP/1.1 200 OK\r\nContent-Length: 10\r\n\r\nshort";
    let err = read_response(raw.as_bytes(), false).unwrap_err();
    assert!(err.contains("truncated"), "got: {err}");
    let err =
        read_response(b"garbage\r\n\r\n", false).unwrap_err();
    assert!(err.contains("malformed"), "got: {err}");
}

#[test]
fn content_type_splits_mime_and_charset() {
    let r = parse(
        "HTTP/1.1 200 OK\r\nContent-Type: application/JSON; charset=\"UTF-8\"\r\nContent-Length: 0\r\n\r\n",
    );
    assert_eq!(
        r.content_type(),
        ("application/json".to_string(), "utf-8".to_string())
    );
}

#[test]
fn build_request_sets_defaults_and_respects_overrides() {
    let u = url::parse("http://example.test:8080/api?x=1").unwrap();
    let wire = build_request(
        "POST",
        &u,
        &[("Host".into(), "override.test".into())],
        b"{}",
    );
    let text = String::from_utf8(wire).unwrap();
    assert!(text.starts_with("POST /api?x=1 HTTP/1.1\r\n"));
    assert!(text.contains("Host: override.test\r\n"));
    assert!(
        !text.contains("Host: example.test"),
        "default Host must yield"
    );
    assert!(text.contains("Content-Length: 2\r\n"));
    assert!(text.contains("Connection: close\r\n"));
    assert!(text.ends_with("\r\n\r\n{}"));
    // A bodyless GET must not advertise a Content-Length.
    let u = url::parse("http://example.test/").unwrap();
    let text = String::from_utf8(build_request("GET", &u, &[], b"")).unwrap();
    assert!(!text.contains("Content-Length"));
    assert!(text.contains("Host: example.test\r\n"));
    assert!(text.contains(&format!("User-Agent: reqrun/{}\r\n", "0.1.0")));
}
