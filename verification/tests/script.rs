use reqrun::http::HttpResponse;
use reqrun::script::run;

fn resp(status: u16, content_type: &str, body: &str) -> HttpResponse {
    HttpResponse {
        status,
        reason: "OK".into(),
        headers: vec![
            ("Content-Type".to_string(), content_type.to_string()),
            ("X-Request-Id".to_string(), "abc-123".to_string()),
            ("Set-Cookie".to_string(), "a=1".to_string()),
            ("Set-Cookie".to_string(), "b=2".to_string()),
        ],
        body: body.as_bytes().to_vec(),
        final_url: "http://example.test/".into(),
    }
}

fn json_resp(body: &str) -> HttpResponse {
    resp(200, "application/json", body)
}

#[test]
fn plus_concatenates_strings_and_adds_numbers() {
    // `client.log("x: " + value)` is idiomatic in real JetBrains files;
    // both concat and numeric addition must work, with JS precedence
    // (`+` binds tighter than `===`).
    let r = json_resp("{\"n\": 40, \"name\": \"amy\"}");
    let out = run("client.log(\"user: \" + response.body.name);", &r).unwrap();
    assert_eq!(out.logs, vec!["user: amy".to_string()]);
    let ok = run("client.assert(response.body.n + 2 === 42);", &r).unwrap();
    assert_eq!(ok.failed(), 0);
    // Number + string coerces to string, like JS.
    let coerced = run("client.assert(response.body.n + \"!\" === \"40!\");", &r).unwrap();
    assert_eq!(coerced.failed(), 0);
}

#[test]
fn plus_on_incompatible_types_is_a_loud_error() {
    // null + bool has no honest meaning here — refuse instead of guessing.
    let r = json_resp("{}");
    let err = run("client.assert(null + true);", &r).unwrap_err();
    assert!(err.contains("cannot add"), "got: {err}");
}

#[test]
fn assert_on_status_passes_and_fails() {
    let r = json_resp("{}");
    let ok = run("client.assert(response.status === 200);", &r).unwrap();
    assert_eq!(ok.failed(), 0);
    let bad = run("client.assert(response.status === 201);", &r).unwrap();
    assert_eq!(bad.failed(), 1);
    assert!(bad.assertions[0]
        .message
        .contains("response.status === 201"));
}

#[test]
fn assert_custom_message_is_used_on_failure() {
    let r = json_resp("{}");
    let out = run(
        "client.assert(response.status === 500, \"want a server error\");",
        &r,
    )
    .unwrap();
    assert!(out.assertions[0].message.contains("want a server error"));
}

#[test]
fn json_body_member_and_index_access() {
    let r = json_resp(r#"{"user": {"name": "amy", "roles": ["admin", "ops"]}}"#);
    let out = run(
        "client.assert(response.body.user.name === 'amy'); client.assert(response.body.user.roles[1] === 'ops');",
        &r,
    )
    .unwrap();
    assert_eq!(out.failed(), 0);
    assert_eq!(out.assertions.len(), 2);
}

#[test]
fn missing_json_key_is_null_but_deep_access_errors() {
    let r = json_resp(r#"{"a": 1}"#);
    let out = run("client.assert(response.body.missing === null);", &r).unwrap();
    assert_eq!(out.failed(), 0);
    let err = run("client.assert(response.body.missing.deep === 1);", &r).unwrap_err();
    assert!(err.contains("null"), "got: {err}");
}

#[test]
fn non_json_body_is_a_string() {
    let r = resp(200, "text/plain", "pong");
    let out = run("client.assert(response.body === 'pong');", &r).unwrap();
    assert_eq!(out.failed(), 0);
}

#[test]
fn header_and_content_type_accessors() {
    let r = resp(200, "application/json; charset=utf-8", "{}");
    let out = run(
        "client.assert(response.headers.valueOf('x-request-id') === 'abc-123');client.assert(response.headers.valueOf('Nope') === null);client.assert(response.headers.valuesOf('Set-Cookie').length === 2);client.assert(response.contentType.mimeType === 'application/json');client.assert(response.contentType.charset === 'utf-8');",
        &r,
    )
    .unwrap();
    assert_eq!(out.failed(), 0, "{:?}", out.assertions);
}

#[test]
fn client_test_groups_assertions_under_a_name() {
    let r = json_resp(r#"{"ok": true}"#);
    let out = run(
        "client.test(\"login works\", function () { client.assert(response.status === 200); client.assert(response.body.ok); });",
        &r,
    )
    .unwrap();
    assert_eq!(out.assertions.len(), 2);
    assert!(out
        .assertions
        .iter()
        .all(|a| a.test.as_deref() == Some("login works")));
}

#[test]
fn arrow_function_and_empty_test_bodies() {
    let r = json_resp("{}");
    let out = run(
        "client.test('arrow', () => { client.assert(response.status === 200); });",
        &r,
    )
    .unwrap();
    assert_eq!(out.failed(), 0);
    // An empty body is recorded as a vacuous pass, not silently dropped.
    let out = run("client.test('todo', function () { });", &r).unwrap();
    assert_eq!(out.assertions.len(), 1);
    assert!(out.assertions[0].passed);
}

#[test]
fn runtime_error_inside_test_fails_that_test_only() {
    let r = json_resp(r#"{"a": 1}"#);
    let out = run(
        "client.test('broken', function () { client.assert(response.body.a.b.c === 1); });client.assert(response.status === 200);",
        &r,
    )
    .unwrap();
    assert_eq!(out.failed(), 1);
    assert_eq!(out.assertions[0].test.as_deref(), Some("broken"));
    assert!(out.assertions[1].passed);
}

#[test]
fn global_set_captures_values() {
    let r = json_resp(r#"{"token": "t-1", "count": 3}"#);
    let out = run(
        "client.global.set('token', response.body.token); client.global.set('count', response.body.count);",
        &r,
    )
    .unwrap();
    assert_eq!(
        out.globals,
        vec![
            ("token".to_string(), "t-1".to_string()),
            ("count".to_string(), "3".to_string()),
        ]
    );
}

#[test]
fn client_log_records_output_and_comments_are_skipped() {
    let r = json_resp(r#"{"n": 42}"#);
    let out = run(
        "// leading note\nclient.log(response.body.n); client.log('done'); // trailing",
        &r,
    )
    .unwrap();
    assert_eq!(out.logs, vec!["42".to_string(), "done".to_string()]);
}

#[test]
fn string_helpers_and_length() {
    let r = resp(200, "text/plain", "hello world");
    let out = run(
        "client.assert(response.body.includes('lo wo'));client.assert(response.body.startsWith('hello'));client.assert(response.body.endsWith('world'));client.assert(response.body.length === 11);",
        &r,
    )
    .unwrap();
    assert_eq!(out.failed(), 0, "{:?}", out.assertions);
}

#[test]
fn logical_and_or_and_negation() {
    let r = json_resp(r#"{"a": 1, "b": 0}"#);
    let out = run(
        "client.assert(response.body.a === 1 && response.status === 200);client.assert(response.body.b === 9 || response.body.a === 1);client.assert(!(response.body.a === 2));",
        &r,
    )
    .unwrap();
    assert_eq!(out.failed(), 0, "{:?}", out.assertions);
}

#[test]
fn ordering_loose_and_strict_comparisons() {
    let r = json_resp(r#"{"n": 5}"#);
    let out = run(
        "client.assert(response.body.n > 4);client.assert(response.body.n <= 5);client.assert(response.status >= 200);client.assert(response.body.n == '5');client.assert(!(response.body.n === '5'));",
        &r,
    )
    .unwrap();
    assert_eq!(out.failed(), 0, "{:?}", out.assertions);
}

#[test]
fn unsupported_statement_is_a_clear_error() {
    let r = json_resp("{}");
    let err = run("var x = 1;", &r).unwrap_err();
    assert!(err.contains("unsupported"), "got: {err}");
    let err = run("client.fetch('x');", &r).unwrap_err();
    assert!(err.contains("client"), "got: {err}");
}

#[test]
fn bracket_access_with_string_key() {
    let r = json_resp(r#"{"weird key": "v"}"#);
    let out = run("client.assert(response.body['weird key'] === 'v');", &r).unwrap();
    assert_eq!(out.failed(), 0);
}
