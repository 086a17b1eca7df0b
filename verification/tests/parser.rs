use reqrun::parser::{parse, Body, Request};

fn one(input: &str) -> Request {
    let file = parse(input).expect("parse failed");
    assert_eq!(file.requests.len(), 1, "expected exactly one request");
    file.requests.into_iter().next().unwrap()
}

#[test]
fn parses_minimal_get() {
    let r = one("GET http://example.test/users\n");
    assert_eq!(r.method, "GET");
    assert_eq!(r.url, "http://example.test/users");
    assert!(r.headers.is_empty());
    assert!(r.body.is_none());
}

#[test]
fn bare_urls_default_to_get() {
    let r = one("http://example.test/ping\n");
    assert_eq!(r.method, "GET");
    let r = one("{{base}}/ping\n");
    assert_eq!(r.method, "GET");
    assert_eq!(r.url, "{{base}}/ping");
}

#[test]
fn method_casing_and_version_token_are_tolerated() {
    let r = one("GET http://example.test/ HTTP/1.1\n");
    assert_eq!(r.url, "http://example.test/");
    let r = one("post http://example.test/x\n");
    assert_eq!(r.method, "POST");
}

#[test]
fn crlf_input_parses_identically() {
    // Files saved by Windows editors come with CRLF line endings.
    let unix = parse("POST http://example.test/a\nA: b\n\nbody\n").unwrap();
    let dos = parse("POST http://example.test/a\r\nA: b\r\n\r\nbody\r\n").unwrap();
    assert_eq!(unix.requests[0].headers, dos.requests[0].headers);
    assert_eq!(unix.requests[0].body, dos.requests[0].body);
}

#[test]
fn parses_headers_and_body() {
    let r = one("POST http://example.test/login\nContent-Type: application/json\nX-Trace: abc\n\n{\"user\": \"amy\",\n \"pass\": \"secret\"}\n");
    assert_eq!(
        r.headers,
        vec![
            ("Content-Type".to_string(), "application/json".to_string()),
            ("X-Trace".to_string(), "abc".to_string()),
        ]
    );
    assert_eq!(
        r.body,
        Some(Body::Inline(
            "{\"user\": \"amy\",\n \"pass\": \"secret\"}".to_string()
        ))
    );
    // Interior blank lines are body content; trailing ones are trimmed.
    let r = one("POST http://example.test/t\n\nline1\n\nline2\n\n\n");
    assert_eq!(r.body, Some(Body::Inline("line1\n\nline2".to_string())));
}

#[test]
fn separators_split_requests_and_name_them() {
    let file = parse("### first\nGET http://example.test/a\n\n###\nGET http://example.test/b\n")
    .unwrap();
    assert_eq!(file.requests.len(), 2);
    assert_eq!(file.requests[0].name.as_deref(), Some("first"));
    assert_eq!(file.requests[1].name, None);
    // A separator also terminates a body in progress.
    let file = parse("POST http://example.test/a\n\nbody text\n### next\nGET http://example.test/b\n")
    .unwrap();
    assert_eq!(
        file.requests[0].body,
        Some(Body::Inline("body text".to_string()))
    );
    assert_eq!(file.requests[1].name.as_deref(), Some("next"));
}

#[test]
fn at_name_directive_wins_over_separator_title() {
    let file = parse("### separator title\n# @name real-name\nGET http://example.test/a\n")
    .unwrap();
    assert_eq!(file.requests[0].name.as_deref(), Some("real-name"));
}

#[test]
fn slash_slash_comments_and_directives_work() {
    let file = parse("// @name login\n// just a note\nPOST http://example.test/login\n# a note between headers\nAccept: application/json\n")
    .unwrap();
    assert_eq!(file.requests[0].name.as_deref(), Some("login"));
    assert_eq!(file.requests[0].headers.len(), 1);
}

#[test]
fn no_redirect_directive_is_per_request() {
    let file = parse("# @no-redirect\nGET http://example.test/a\n###\nGET http://example.test/b\n")
    .unwrap();
    assert!(file.requests[0].no_redirect);
    assert!(!file.requests[1].no_redirect);
}

#[test]
fn file_variables_are_collected_in_order() {
    let file = parse("@host = example.test\n@base = http://{{host}}\nGET {{base}}/x\n")
    .unwrap();
    assert_eq!(
        file.variables,
        vec![
            ("host".to_string(), "example.test".to_string()),
            ("base".to_string(), "http://{{host}}".to_string()),
        ]
    );
}

#[test]
fn multiline_url_continuation() {
    let r = one("GET http://example.test/search\n    ?q=rust\n    &page=2\n");
    assert_eq!(r.url, "http://example.test/search?q=rust&page=2");
}

#[test]
fn body_from_file_variants() {
    let r = one("POST http://example.test/u\n\n< ./payload.json\n");
    assert_eq!(
        r.body,
        Some(Body::FromFile {
            path: "./payload.json".to_string(),
            substitute: false
        })
    );
    let r = one("POST http://example.test/u\n\n<@ ./payload.json\n");
    assert_eq!(
        r.body,
        Some(Body::FromFile {
            path: "./payload.json".to_string(),
            substitute: true
        })
    );
}

#[test]
fn handler_blocks_single_and_multi_line() {
    let r =
        one("GET http://example.test/a\n\n> {% client.assert(response.status === 200); %}\n");
    let h = r.handler.unwrap();
    assert_eq!(h.script, "client.assert(response.status === 200);");
    let r = one("GET http://example.test/a\n\n> {%\n  client.test(\"ok\", function() {\n    client.assert(response.status === 200, \"want 200\");\n  });\n%}\n");
    let h = r.handler.unwrap();
    assert!(h.script.contains("client.test"));
    assert!(h.script.contains("want 200"));
    assert_eq!(h.line, 3);
}

#[test]
fn handler_after_body() {
    let r = one("POST http://example.test/login\n\n{\"u\": 1}\n\n> {% client.global.set(\"id\", response.body.id); %}\n");
    assert_eq!(r.body, Some(Body::Inline("{\"u\": 1}".to_string())));
    assert!(r.handler.is_some());
}

#[test]
fn handler_error_cases_are_positioned() {
    let e = parse("GET http://example.test/a\n\n> {%\nclient.log(1);\n").unwrap_err();
    assert_eq!(e.line, 3);
    assert!(e.message.contains("unterminated"));
    let e = parse("GET http://example.test/a\n\n> ./handler.js\n").unwrap_err();
    assert!(e.message.contains("not supported"));
}

#[test]
fn save_response_directives() {
    let r = one("GET http://example.test/f\n\n>> out/body.json\n");
    assert_eq!(r.save_response, Some(("out/body.json".to_string(), false)));
    let r = one("GET http://example.test/f\n\n>>! out/body.json\n");
    assert_eq!(r.save_response, Some(("out/body.json".to_string(), true)));
}

#[test]
fn malformed_lines_are_positioned_errors() {
    let e = parse("\n\nnot a request\n").unwrap_err();
    assert_eq!(e.line, 3);
    assert!(e.message.contains("expected a request line"));
    let e = parse("GET http://example.test/a\nBadHeader\n").unwrap_err();
    assert_eq!(e.line, 2);
}

#[test]
fn saved_response_reference_is_ignored() {
    let r = one("GET http://example.test/a\n\n<> 2026-07-01T000000.200.json\n");
    assert!(r.body.is_none());
}
