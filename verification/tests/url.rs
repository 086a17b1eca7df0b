use reqrun::url::{parse, resolve_location};

#[test]
fn parses_host_only() {
    let u = parse("http://example.test").unwrap();
    assert_eq!(u.host, "example.test");
    assert_eq!(u.port, 80);
    assert_eq!(u.path_and_query, "/");
    assert_eq!(u.host_header(), "example.test");
}

#[test]
fn parses_port_path_and_query() {
    let u = parse("http://127.0.0.1:8080/api/users?limit=10&x=%20").unwrap();
    assert_eq!(u.port, 8080);
    assert_eq!(u.path_and_query, "/api/users?limit=10&x=%20");
    assert_eq!(u.host_header(), "127.0.0.1:8080");
    assert_eq!(u.authority(), "127.0.0.1:8080");
    // Query with no path gets the implicit "/".
    let u = parse("http://example.test?q=1").unwrap();
    assert_eq!(u.path_and_query, "/?q=1");
}

#[test]
fn parses_ipv6_literal() {
    let u = parse("http://[::1]:9000/x").unwrap();
    assert_eq!(u.host, "::1");
    assert_eq!(u.port, 9000);
}

#[test]
fn rejects_https_with_roadmap_hint() {
    let err = parse("https://example.test/").unwrap_err();
    assert!(err.contains("v0.1.0"), "got: {err}");
}

#[test]
fn rejects_missing_scheme_and_bad_port() {
    assert!(parse("example.test/path").is_err());
    assert!(parse("http://example.test:99999/").is_err());
    assert!(parse("http:///nohost").is_err());
}

#[test]
fn resolves_absolute_and_relative_locations() {
    let base = parse("http://example.test:8080/a/b?q=1").unwrap();
    let abs = resolve_location(&base, "http://other.test/z").unwrap();
    assert_eq!(abs.host, "other.test");
    let rooted = resolve_location(&base, "/login").unwrap();
    assert_eq!(rooted.path_and_query, "/login");
    assert_eq!(rooted.host, "example.test");
    let relative = resolve_location(&base, "c").unwrap();
    assert_eq!(relative.path_and_query, "/a/c");
}
