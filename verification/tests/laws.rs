//! Promises of the library as a whole, on concrete values.

use reqrun::http::{
    build_request, next_hop, read_response, scan_response, Exchange, Hop, HttpResponse, Next,
    Progress, StreamEnd, MAX_REDIRECTS,
};
use reqrun::json;
use reqrun::parser;
use reqrun::random::Rng;
use reqrun::report::xml_escape;
use reqrun::script;
use reqrun::url;
use reqrun::vars::{iso_utc, seconds_of, seed_of, unix_now, Vars};

fn response(status: u16, headers: &[(&str, &str)], body: &str) -> HttpResponse {
    HttpResponse {
        status,
        reason: String::new(),
        headers: headers
            .iter()
            .map(|(n, v)| (n.to_string(), v.to_string()))
            .collect(),
        body: body.as_bytes().to_vec(),
        final_url: String::new(),
    }
}

// ------------------------------------------------------------ parsing ----

#[test]
fn the_version_token_changes_nothing() {
    let a = parser::parse("get http://h/x HTTP/1.1\n").unwrap();
    let b = parser::parse("get http://h/x\n").unwrap();
    assert_eq!(a.requests[0].method, "GET");
    assert_eq!(a.requests[0].method, b.requests[0].method);
    assert_eq!(a.requests[0].url, b.requests[0].url);
    let c = parser::parse("http://h/x http/2\n").unwrap();
    assert_eq!(c.requests[0].method, "GET");
    assert_eq!(c.requests[0].url, "http://h/x");
    let e = parser::parse("GET http://h/x what\n").unwrap_err();
    assert_eq!(e.to_text(), "line 1: unexpected token 'what' after URL");
}

#[test]
fn parse_errors_name_their_line() {
    let cases = [
        ("POST\n", 1, "POST without a URL"),
        (
            "\n\nhello world\n",
            3,
            "expected a request line (METHOD URL), found 'hello world'",
        ),
        (
            "GET http://h/\nbad\n",
            2,
            "expected 'Header: value', found 'bad'",
        ),
        ("GET http://h/\n: x\n", 2, "invalid header name ''"),
        ("GET http://h/\na b: x\n", 2, "invalid header name 'a b'"),
        (
            "GET http://h/\n\n> {%\nclient.log(1);\n",
            3,
            "unterminated response handler (missing %})",
        ),
    ];
    for (text, line, message) in cases {
        let e = parser::parse(text).unwrap_err();
        assert_eq!((e.line, e.message.as_str()), (line, message), "{text:?}");
        assert_eq!(e.to_text(), format!("line {line}: {message}"));
    }
    assert!(parser::parse("@novalue\n").is_err());
    assert!(parser::parse("@bad name = 1\n").is_err());
}

#[test]
fn only_trailing_blank_lines_leave_the_body() {
    let f = parser::parse("POST http://h/\n\na\n\n  b\n\n \n\n###\nGET http://h/2\n").unwrap();
    match &f.requests[0].body {
        Some(parser::Body::Inline(text)) => assert_eq!(text, "a\n\n  b"),
        other => panic!("got {other:?}"),
    }
    assert!(f.requests[1].body.is_none());
}

// --------------------------------------------------------------- json ----

#[test]
fn written_json_reads_back() {
    let text = r#"{"z":[1,-2.5,1e21,{"k":null}],"a":"q\"\\\n\r\t\u0001é😀","e":{},"f":[],"t":true}"#;
    let v = json::parse(text).unwrap();
    let written = json::serialize(&v);
    assert_eq!(json::parse(&written).unwrap(), v);
    assert_eq!(
        written,
        "{\"a\":\"q\\\"\\\\\\n\\r\\t\\u0001é😀\",\"e\":{},\"f\":[],\"t\":true,\"z\":[1,-2.5,1000000000000000000000,{\"k\":null}]}"
    );
    // A repeated key keeps its last value, and keys come in order.
    let v = json::parse(r#"{"b":1,"a":2,"b":3}"#).unwrap();
    assert_eq!(json::serialize(&v), r#"{"a":2,"b":3}"#);
}

#[test]
fn json_errors_carry_byte_offsets() {
    let cases = [
        ("", "unexpected input at offset 0"),
        ("  ", "unexpected input at offset 2"),
        ("\"é\" x", "trailing characters at offset 5"),
        ("[1 2]", "expected ',' or ']' at offset 3"),
        ("{\"a\":1 \"b\":2}", "expected ',' or '}' at offset 7"),
        ("{a:1}", "expected '\"' at offset 1"),
        ("{\"a\" 1}", "expected ':' at offset 5"),
        ("\"abc", "unterminated string at offset 4"),
        ("\"\\x\"", "invalid escape at offset 2"),
        ("\"\\u12", "truncated \\u escape at offset 3"),
        ("\"\\u12zz\"", "bad \\u escape at offset 3"),
        ("\"\\ud800\"", "invalid \\u code point at offset 2"),
        ("-", "invalid number '-' at offset 0"),
        ("nul", "invalid literal at offset 0"),
    ];
    for (text, message) in cases {
        assert_eq!(json::parse(text).unwrap_err(), message, "{text:?}");
    }
    assert_eq!(
        json::parse("\"\\ud83d\\ude00\\/\\b\\f\"").unwrap().as_str(),
        Some("😀/\u{8}\u{c}")
    );
}

#[test]
fn the_negative_zero_reads_back_as_zero() {
    let v = json::parse(r#"{"a":[-0,1.5],"b":-0.0}"#).unwrap();
    let text = json::serialize(&v);
    assert_eq!(text, r#"{"a":[0,1.5],"b":0}"#);
    assert!(json::parse(&text).unwrap() == v);
}

#[test]
fn request_lines_grow_and_variable_names_are_admitted() {
    let text = "@a.b-c = 1\n\nGET http://h/\n\n### x\n\nGET http://h/\n\n###\nGET http://h/\n";
    let f = parser::parse(text).unwrap();
    assert_eq!(f.variables[0].0, "a.b-c");
    let lines: Vec<usize> = f.requests.iter().map(|r| r.line).collect();
    assert_eq!(lines, vec![3, 7, 10]);
    assert!(parser::parse("@a b = 1\nGET http://h/\n").is_err());
}

#[test]
fn json_access_and_names() {
    let v = json::parse(r#"{"a":[10,"x"],"n":null}"#).unwrap();
    assert_eq!(v.kind_name(), "object");
    assert_eq!(v.get("n").unwrap().kind_name(), "null");
    assert!(v.get("missing").is_none());
    let a = v.get("a").unwrap();
    assert_eq!(a.kind_name(), "array");
    assert_eq!(a.index(0).unwrap().kind_name(), "number");
    assert_eq!(a.index(1).unwrap().as_str(), Some("x"));
    assert!(a.index(2).is_none());
    assert!(a.get("a").is_none());
    assert!(v.index(0).is_none());
    assert_eq!(a.index(1).unwrap().to_text(), "x");
    assert_eq!(a.to_text(), r#"[10,"x"]"#);
    assert!(v.same(&v.clone()));
    assert!(!v.same(a));
}

// --------------------------------------------------------------- http ----

#[test]
fn responses_read_back_however_they_are_framed() {
    let head = "HTTP/1.1 200 All Fine\r\nX-One: 1\r\n";
    let sized = format!("{head}Content-Length: 5\r\n\r\nhello");
    let chunked = format!("{head}Transfer-Encoding: chunked\r\n\r\n2\r\nhe\r\n3\r\nllo\r\n0\r\n\r\n");
    let unsized_body = format!("{head}\r\nhello");
    for text in [&sized, &chunked, &unsized_body] {
        let r = read_response(text.as_bytes(), false).unwrap();
        assert_eq!(r.status, 200);
        assert_eq!(r.reason, "All Fine");
        assert_eq!(r.header("x-one"), Some("1"));
        assert_eq!(r.body, b"hello");
        assert_eq!(r.body_text(), "hello");
    }
    // Bytes behind a framed body are not looked at.
    for text in [&sized, &chunked] {
        let more = format!("{text}GARBAGE");
        let r = read_response(more.as_bytes(), false).unwrap();
        assert_eq!(r.body, b"hello");
    }
    // As long as the stream is open, an answer comes as soon as it is whole
    // and not before.
    for text in [&sized, &chunked] {
        for upto in 0..text.len() {
            assert!(
                matches!(
                    scan_response(&text.as_bytes()[..upto], &StreamEnd::Open, false),
                    Progress::NeedMore
                ),
                "{upto} of {text:?}"
            );
        }
        assert!(matches!(
            scan_response(text.as_bytes(), &StreamEnd::Open, false),
            Progress::Done(_)
        ));
    }
    assert!(matches!(
        scan_response(unsized_body.as_bytes(), &StreamEnd::Open, false),
        Progress::NeedMore
    ));
}

#[test]
fn response_errors_are_told_apart() {
    let cases = [
        ("", "connection closed mid-response"),
        ("HELLO\r\n\r\n", "malformed status line 'HELLO'"),
        (
            "HTTP/1.1 abc OK\r\n\r\n",
            "malformed status line 'HTTP/1.1 abc OK'",
        ),
        (
            "HTTP/1.1 70000 OK\r\n\r\n",
            "malformed status line 'HTTP/1.1 70000 OK'",
        ),
        (
            "HTTP/1.1 200 OK\r\nbroken\r\n\r\n",
            "malformed header line 'broken'",
        ),
        (
            "HTTP/1.1 200 OK\r\nContent-Length: 9\r\n\r\nshort",
            "truncated body: failed to fill whole buffer",
        ),
        (
            "HTTP/1.1 200 OK\r\nContent-Length: -1\r\n\r\n",
            "invalid Content-Length '-1'",
        ),
        (
            "HTTP/1.1 200 OK\r\nTransfer-Encoding: chunked\r\n\r\nzz\r\n",
            "invalid chunk size 'zz'",
        ),
        (
            "HTTP/1.1 200 OK\r\nTransfer-Encoding: chunked\r\n\r\n5\r\nab",
            "truncated chunk: failed to fill whole buffer",
        ),
    ];
    for (text, message) in cases {
        assert_eq!(
            read_response(text.as_bytes(), false).unwrap_err(),
            message,
            "{text:?}"
        );
    }
    assert_eq!(
        read_response(b"HTTP/1.1 200 \xff\xfe\r\n\r\n", false).unwrap_err(),
        "reading response: stream did not contain valid UTF-8"
    );
    let end = StreamEnd::Failed {
        kind: reqrun::http::FaultKind::TimedOut,
        detail: "Resource temporarily unavailable".to_string(),
    };
    match scan_response(b"HTTP/1.1 200 OK\r\n", &end, false) {
        Progress::Failed(e) => assert_eq!(e, "reading response: timed out (see --timeout)"),
        other => panic!("got {other:?}"),
    }
}

#[test]
fn undecodable_body_bytes_show_as_replacements() {
    let r = HttpResponse {
        body: vec![b'a', 0xff, b'b', 0xc3, 0xa9],
        ..response(200, &[], "")
    };
    assert_eq!(r.body_text(), "a\u{fffd}bé");
}

#[test]
fn user_headers_replace_defaults_in_any_case() {
    let target = url::parse("http://h:81/p").unwrap();
    let headers = vec![
        ("hOsT".to_string(), "other".to_string()),
        ("ACCEPT".to_string(), "text/plain".to_string()),
    ];
    let wire = String::from_utf8(build_request("GET", &target, &headers, &[])).unwrap();
    assert_eq!(
        wire,
        "GET /p HTTP/1.1\r\nUser-Agent: reqrun/0.1.0\r\nhOsT: other\r\nACCEPT: text/plain\r\nConnection: close\r\n\r\n"
    );
}

#[test]
fn redirects_keep_or_drop_the_method() {
    let here = url::parse("http://h:81/a/b?q=1").unwrap();
    let follow = |status: u16, method: &str| match next_hop(
        response(status, &[("location", "c")], ""),
        method.to_string(),
        &here,
        vec![1, 2],
        0,
        false,
    ) {
        Next::Follow {
            method,
            target,
            body,
        } => (method, target.authority(), target.path_and_query, body),
        other => panic!("got {other:?}"),
    };
    let at = |m: &str, body: Vec<u8>| {
        (
            m.to_string(),
            "h:81".to_string(),
            "/a/c".to_string(),
            body,
        )
    };
    assert_eq!(follow(301, "POST"), at("GET", vec![]));
    assert_eq!(follow(302, "POST"), at("GET", vec![]));
    assert_eq!(follow(302, "PUT"), at("PUT", vec![1, 2]));
    assert_eq!(follow(303, "PUT"), at("GET", vec![]));
    assert_eq!(follow(307, "POST"), at("POST", vec![1, 2]));
    assert_eq!(follow(308, "POST"), at("POST", vec![1, 2]));
    let last = |headers: &[(&str, &str)], hop: usize, no_redirect: bool| {
        next_hop(
            response(302, headers, ""),
            "GET".to_string(),
            &here,
            vec![],
            hop,
            no_redirect,
        )
    };
    match last(&[("Location", "/x")], MAX_REDIRECTS, false) {
        Next::Fail(e) => assert_eq!(e, "more than 10 redirects"),
        other => panic!("got {other:?}"),
    }
    match last(&[], 0, false) {
        Next::Fail(e) => assert_eq!(e, "302 response without a Location header"),
        other => panic!("got {other:?}"),
    }
    match last(&[("Location", "https://h/")], 0, false) {
        Next::Fail(e) => assert!(e.contains("https"), "got: {e}"),
        other => panic!("got {other:?}"),
    }
    assert!(matches!(last(&[], 0, true), Next::Finish(_)));
}

#[test]
fn a_request_is_sent_a_bounded_number_of_times() {
    let here = url::parse("http://h/").unwrap();
    let mut exchange = Exchange::new("GET", &here, vec![]);
    let mut sent = 0;
    let failure = loop {
        assert_eq!(exchange.hop, sent);
        sent += 1;
        match exchange.answer(response(302, &[("Location", "/again")], ""), false) {
            Hop::Send(next) => exchange = next,
            Hop::Fail(e) => break e,
            Hop::Finish(r) => panic!("got {r:?}"),
        }
    };
    assert_eq!(failure, "more than 10 redirects");
    assert_eq!(sent, MAX_REDIRECTS + 1);
    let first = Exchange::new("POST", &here, vec![7]);
    assert!(matches!(first.answer(response(302, &[], ""), true), Hop::Finish(_)));
}

// ---------------------------------------------------------- variables ----

#[test]
fn lenient_substitution_agrees_where_strict_succeeds() {
    let mut a = Vars::fixed(5, 1_000);
    let mut b = Vars::fixed(5, 1_000);
    for v in [&mut a, &mut b] {
        v.set_global("x", "1");
    }
    let text = "a {{x}} {{ x }} {{$randomInt}} {{$random.integer(3, 9)}} {{$uuid}} {{$timestamp}}";
    let strict = a.substitute(text).unwrap();
    let lenient = b.substitute_lenient(text).unwrap();
    assert_eq!(strict, lenient);
    assert!(strict.ends_with(" 1000"));
    assert!(a.substitute("{{y}}").is_err());
    assert_eq!(b.substitute_lenient("{{y}}").unwrap(), "{{y}}");
    assert_eq!(a.substitute("no braces }} {").unwrap(), "no braces }} {");
}

#[test]
fn each_timestamp_reads_the_time() {
    let mut v = Vars::fixed(5, 951_782_400);
    assert_eq!(
        v.substitute("{{$timestamp}} {{$isoTimestamp}} {{$timestamp}}").unwrap(),
        "951782400 2000-02-29T00:00:00Z 951782400"
    );
    // The clock of the machine never runs backwards by a day within a test.
    let mut w = Vars::new();
    let first: u64 = w.substitute("{{$timestamp}}").unwrap().parse().unwrap();
    let text = w.substitute("{{$timestamp}} {{$timestamp}}").unwrap();
    for part in text.split(' ') {
        let t: u64 = part.parse().unwrap();
        assert!(t + 86_400 > first && t < first + 86_400, "{t} {first}");
    }
}

#[test]
fn process_variables_and_their_absence() {
    let mut v = Vars::seeded(5);
    v.set_process_env("HOME_DIR", "/h");
    assert_eq!(v.substitute("{{$env.HOME_DIR}}").unwrap(), "/h");
    let e = v.substitute("{{$env.NOPE}}").unwrap_err();
    assert_eq!(
        e,
        "environment variable 'NOPE' is not set (from {{$env.NOPE}})"
    );
}

#[test]
fn random_integers_stay_in_range() {
    let mut v = Vars::seeded(99);
    for _ in 0..50 {
        let n: u64 = v
            .substitute("{{$random.integer(3, 10)}}")
            .unwrap()
            .parse()
            .unwrap();
        assert!((3..10).contains(&n), "{n}");
        let n: u64 = v
            .substitute("{{$randomInt}}")
            .unwrap()
            .parse()
            .unwrap();
        assert!(n < 1000, "{n}");
    }
    for bad in ["5, 5", "-3, 4", "1", "a, b"] {
        let text = format!("{{{{$random.integer({bad})}}}}");
        assert!(v.substitute(&text).is_err(), "{text}");
    }
}

#[test]
fn the_generator_never_rests_and_draws_version_4_identifiers() {
    for seed in [0, 1, 2, u64::MAX] {
        let mut rng = Rng::seeded(seed);
        for _ in 0..100 {
            assert_ne!(rng.next(), 0);
        }
        let id = rng.uuid_v4();
        let bytes = id.as_bytes();
        assert_eq!(id.len(), 36);
        assert_eq!(bytes[14], b'4');
        assert!(b"89ab".contains(&bytes[19]));
        for (i, b) in bytes.iter().enumerate() {
            if [8, 13, 18, 23].contains(&i) {
                assert_eq!(*b, b'-');
            } else {
                assert!(b.is_ascii_hexdigit());
            }
        }
    }
}

#[test]
fn the_clock_is_read() {
    let before = std::time::SystemTime::now()
        .duration_since(std::time::UNIX_EPOCH)
        .unwrap()
        .as_secs();
    let now = unix_now();
    assert!(before <= now && now <= before + 60);
    assert_eq!(seconds_of(Some((7, 9))), 7);
    assert_eq!(seconds_of(None), 0);
    assert_eq!(seed_of(Some((2, 9))), 2_000_000_009);
    assert_eq!(
        seed_of(Some((u64::MAX, 1))),
        (u64::MAX as u128 * 1_000_000_000 + 1) as u64
    );
    assert_eq!(seed_of(None), 0x5DEECE66D);
}

// ------------------------------------------------------------ scripts ----

#[test]
fn a_failed_statement_is_never_passed_over() {
    let r = response(200, &[("Content-Type", "application/json")], "{\"a\":1}");
    // Outside a test it fails the script, whatever passed before.
    assert!(script::run("client.assert(true); while (1) {}", &r).is_err());
    assert!(script::run("x = 1;", &r).is_err());
    // Inside a test it fails that test, and earlier assertions stay.
    let o = script::run(
        "client.assert(true); client.test(\"t\", () => { client.assert(true); nonsense; });",
        &r,
    )
    .unwrap();
    assert_eq!(o.assertions.len(), 3);
    assert_eq!(o.failed(), 1);
    assert!(o.assertions[0].passed && o.assertions[1].passed);
    assert_eq!(o.assertions[2].test.as_deref(), Some("t"));
    // A test without assertions still shows up.
    let o = script::run("client.test(\"empty\", function () {});", &r).unwrap();
    assert_eq!(o.assertions.len(), 1);
    assert!(o.assertions[0].passed);
}

#[test]
fn script_errors_name_where_they_are() {
    let r = response(200, &[("Content-Type", "application/json")], "{\"a\":1}");
    let cases = [
        (
            "\nclient.assert(response.cookies);",
            "response has no property 'cookies' near line 2",
        ),
        ("client.log(\nnull + true);", "cannot add null and boolean near line 2"),
        (
            "client.assert(\n\ntrue < 'x');",
            "cannot order boolean against string near line 3",
        ),
        (
            "\n\nclient.log(response.body[true]);",
            "cannot index with a boolean value near line 3",
        ),
        (
            "\nclient.log(response.headers.each('x'));",
            "headers has no method 'each' near line 2",
        ),
        (
            "\nclient.log('abc'.shout());",
            "string value has no method 'shout' near line 2",
        ),
        (
            "\nclient.log(response.body.b.c);",
            "cannot read property 'c' of null (a parent key was missing)",
        ),
        ("client.log(1.2.3);", "invalid number '1.2.3' at offset 11"),
        ("client.log('a\\", "dangling escape at offset 13"),
    ];
    for (text, message) in cases {
        assert_eq!(script::run(text, &r).unwrap_err(), message, "{text:?}");
    }
    // A failure inside a test is named there as well.
    let o = script::run("client.test('t', () => {\n null + true; });", &r).unwrap();
    assert!(o.assertions[0].message.contains("near line 2"), "{:?}", o.assertions);
    // A missing key is reported as it stands.
    let o = script::run("client.test('t', () => {\n client.log(response.body.b.c); });", &r).unwrap();
    assert_eq!(
        o.assertions[0].message,
        "cannot read property 'c' of null (a parent key was missing)"
    );
}

#[test]
fn scripts_one_after_the_other() {
    let r = response(200, &[("Content-Type", "application/json")], "{\"a\":1}");
    let a = "client.log('x'); client.assert(response.status === 200); client.global.set('k', 1)";
    let b = "client.test('t', () => { client.assert(false); });\nclient.global.set('k', 2);";
    let x = script::run(a, &r).unwrap();
    let y = script::run(b, &r).unwrap();
    let z = script::run(&format!("{a}\n{b}"), &r).unwrap();
    let both = |p: &script::Outcome, q: &script::Outcome| {
        p.assertions
            .iter()
            .chain(q.assertions.iter())
            .map(|a| (a.test.clone(), a.passed))
            .collect::<Vec<_>>()
    };
    assert_eq!(
        z.assertions.iter().map(|a| (a.test.clone(), a.passed)).collect::<Vec<_>>(),
        both(&x, &y)
    );
    assert_eq!(z.logs, [x.logs.clone(), y.logs.clone()].concat());
    assert_eq!(z.globals, [x.globals.clone(), y.globals.clone()].concat());
}

#[test]
fn upper_and_lower_case_follow_unicode() {
    let r = response(200, &[("Content-Type", "text/plain")], "STRASSE ÄÖÜ Σ");
    let o = script::run(
        "client.assert(response.body.toLowerCase() === 'strasse äöü σ');",
        &r,
    )
    .unwrap();
    assert_eq!(o.failed(), 0, "{:?}", o.assertions);
}

// ----------------------------------------------------------- calendar ----

#[test]
fn later_moments_have_later_timestamps() {
    let moments = [
        0,
        59,
        60,
        3_599,
        3_600,
        86_399,
        86_400,
        951_782_399,
        951_782_400,
        4_102_444_800,
        253_402_300_799,
    ];
    for pair in moments.windows(2) {
        let (a, b) = (iso_utc(pair[0]), iso_utc(pair[1]));
        assert_eq!(a.len(), 20);
        assert_eq!(b.len(), 20);
        assert!(a < b, "{a} {b}");
    }
    assert_eq!(iso_utc(253_402_300_799), "9999-12-31T23:59:59Z");
}

// ------------------------------------------------------------- report ----

#[test]
fn escaped_text_is_safe_and_tells_texts_apart() {
    assert_eq!(
        xml_escape("<a b=\"c\">&'x"),
        "&lt;a b=&quot;c&quot;&gt;&amp;&apos;x"
    );
    assert_ne!(xml_escape("&lt;"), xml_escape("<"));
}

// ---------------------------------------------------------------- url ----

#[test]
fn redirect_targets_are_well_formed() {
    let base = url::parse("http://h:81/a/b?q=1").unwrap();
    let go = |l: &str| {
        let u = url::resolve_location(&base, l).unwrap();
        format!("{}|{}", u.authority(), u.path_and_query)
    };
    assert_eq!(go("/x?y"), "h:81|/x?y");
    assert_eq!(go("c"), "h:81|/a/c");
    assert_eq!(go("http://other/z"), "other:80|/z");
    assert!(url::resolve_location(&base, "ftp://h/").is_err());
    // A path stays a path, whatever its query holds.
    assert_eq!(go("/login?next=http://other.test/"), "h:81|/login?next=http://other.test/");
    assert_eq!(go("x?u=http://h/"), "h:81|/a/x?u=http://h/");
    assert_eq!(go("x#http://h/"), "h:81|/a/x#http://h/");
    assert!(url::resolve_location(&base, "svn+ssh://h/").is_err());
    let home = url::parse("http://example.test:80/").unwrap();
    let login = url::resolve_location(&home, "/login?next=http://other.test/").unwrap();
    assert_eq!(login.host, "example.test");
    assert_eq!(login.port, 80);
    assert_eq!(login.path_and_query, "/login?next=http://other.test/");
}

#[test]
fn a_written_url_parses_back() {
    for text in ["http://h", "HTTP://Example.test:8080/a?b=c", "http://h:80?x", "http://h/a#frag"] {
        let u = url::parse(text).unwrap();
        let written = format!("http://{}{}", u.host_header(), u.path_and_query);
        let again = url::parse(&written).unwrap();
        assert_eq!(again.host, u.host, "{text}");
        assert_eq!(again.port, u.port, "{text}");
        assert_eq!(again.path_and_query, u.path_and_query, "{text}");
    }
}
