use reqrun::files::TextFile;
use reqrun::vars::{iso_utc, load_environment, Vars};

#[test]
fn substitutes_known_variables() {
    let mut v = Vars::new();
    v.set_env_var("host", "example.test");
    v.set_env_var("port", "8080");
    assert_eq!(
        v.substitute("http://{{host}}:{{ port }}/x").unwrap(),
        "http://example.test:8080/x"
    );
}

#[test]
fn substitution_edge_cases() {
    let mut v = Vars::new();
    let err = v.substitute("{{missing}}").unwrap_err();
    assert!(
        err.contains("missing"),
        "undefined variable must error: {err}"
    );
    assert!(
        v.substitute("{{oops").is_err(),
        "unclosed braces must error"
    );
    assert!(
        v.substitute("{{$bogus}}").is_err(),
        "unknown dynamic var must error"
    );
    assert_eq!(v.substitute("plain } text {").unwrap(), "plain } text {");
}

#[test]
fn precedence_override_beats_global_beats_file_beats_env() {
    let mut v = Vars::new();
    v.set_env_var("k", "env");
    v.set_file_vars(&[("k".to_string(), "file".to_string())])
        .unwrap();
    assert_eq!(v.substitute("{{k}}").unwrap(), "file");
    v.set_global("k", "global");
    assert_eq!(v.substitute("{{k}}").unwrap(), "global");
    v.set_override("k", "cli");
    assert_eq!(v.substitute("{{k}}").unwrap(), "cli");
}

#[test]
fn file_vars_resolve_against_earlier_ones() {
    let mut v = Vars::new();
    v.set_file_vars(&[
        ("host".to_string(), "example.test".to_string()),
        ("base".to_string(), "http://{{host}}/api".to_string()),
    ])
    .unwrap();
    assert_eq!(v.substitute("{{base}}").unwrap(), "http://example.test/api");
}

#[test]
fn dynamic_uuid_has_v4_shape_and_varies() {
    let mut v = Vars::new();
    let a = v.substitute("{{$uuid}}").unwrap();
    let b = v.substitute("{{$uuid}}").unwrap();
    assert_ne!(a, b);
    let parts: Vec<&str> = a.split('-').collect();
    assert_eq!(
        parts.iter().map(|p| p.len()).collect::<Vec<_>>(),
        vec![8, 4, 4, 4, 12]
    );
    assert!(parts[2].starts_with('4'), "version nibble: {a}");
    assert!(matches!(parts[3].as_bytes()[0], b'8' | b'9' | b'a' | b'b'));
}

#[test]
fn dynamic_random_int_is_bounded() {
    let mut v = Vars::new();
    for _ in 0..50 {
        let n: u64 = v.substitute("{{$randomInt}}").unwrap().parse().unwrap();
        assert!(n < 1000);
        let m: u64 = v
            .substitute("{{$random.integer(5, 8)}}")
            .unwrap()
            .parse()
            .unwrap();
        assert!((5..8).contains(&m), "out of range: {m}");
    }
}

#[test]
fn dynamic_timestamps_have_expected_shape() {
    let mut v = Vars::new();
    let ts: u64 = v.substitute("{{$timestamp}}").unwrap().parse().unwrap();
    assert!(ts > 1_600_000_000);
    let iso = v.substitute("{{$isoTimestamp}}").unwrap();
    assert_eq!(iso.len(), 20);
    assert!(iso.ends_with('Z') && iso.as_bytes()[10] == b'T');
}

#[test]
fn iso_utc_known_values() {
    assert_eq!(iso_utc(0), "1970-01-01T00:00:00Z");
    assert_eq!(iso_utc(951_782_400), "2000-02-29T00:00:00Z"); // leap day
    assert_eq!(iso_utc(1_767_225_599), "2025-12-31T23:59:59Z");
}

#[test]
fn env_file_selection_and_private_merge() {
    let public = TextFile {
        path: "http-client.env.json".to_string(),
        content: Ok(
            r#"{"dev": {"host": "127.0.0.1", "token": "public", "retries": 3}, "prod": {"host": "example.test"}}"#
                .to_string(),
        ),
    };
    let private = Some(TextFile {
        path: "http-client.private.env.json".to_string(),
        content: Ok(r#"{"dev": {"token": "sekrit"}}"#.to_string()),
    });

    let mut v = Vars::new();
    load_environment(&public, &private, "dev", &mut v).unwrap();
    assert_eq!(v.substitute("{{host}}").unwrap(), "127.0.0.1");
    assert_eq!(v.substitute("{{token}}").unwrap(), "sekrit"); // private wins
    assert_eq!(v.substitute("{{retries}}").unwrap(), "3"); // non-string coerced

    let mut v = Vars::new();
    let err = load_environment(&public, &private, "staging", &mut v).unwrap_err();
    assert!(err.contains("staging") && err.contains("dev"), "got: {err}");
}
