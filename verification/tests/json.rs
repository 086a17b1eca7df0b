use reqrun::json::{parse, serialize, Value};
use reqrun::number::Number;

fn number(x: f64) -> Value {
    Value::Number(Number { bits: x.to_bits() })
}

#[test]
fn parses_scalars() {
    assert_eq!(parse("null").unwrap(), Value::Null);
    assert_eq!(parse("true").unwrap(), Value::Bool(true));
    assert_eq!(parse("42").unwrap(), number(42.0));
    assert_eq!(parse("-3.5").unwrap(), number(-3.5));
    assert_eq!(parse("\"hi\"").unwrap(), Value::String("hi".into()));
}

#[test]
fn parses_nested_structures() {
    let v = parse(r#"{"a": [1, {"b": "c"}], "d": null}"#).unwrap();
    assert_eq!(
        v.get("a").unwrap().index(1).unwrap().get("b").unwrap(),
        &Value::String("c".into())
    );
    assert_eq!(v.get("d").unwrap(), &Value::Null);
}

#[test]
fn parses_string_escapes_and_unicode() {
    let v = parse(r#""a\n\t\"\\ é 😀""#).unwrap();
    assert_eq!(v, Value::String("a\n\t\"\\ é 😀".into()));
}

#[test]
fn rejects_malformed_documents() {
    let err = parse("{} extra").unwrap_err();
    assert!(err.contains("trailing"), "got: {err}");
    assert!(parse("\"open").is_err(), "unterminated string");
    assert!(parse("nope").is_err(), "bare word");
    assert!(parse("[1,]").is_err(), "trailing comma");
}

#[test]
fn serializes_round_trip_with_integer_numbers() {
    let src = r#"{"arr":[1,2.5,true,null],"s":"a\"b"}"#;
    let v = parse(src).unwrap();
    assert_eq!(serialize(&v), src);
    assert_eq!(serialize(&number(200.0)), "200");
    assert_eq!(serialize(&number(0.5)), "0.5");
}

#[test]
fn truthiness_matches_javascript() {
    assert!(!Value::Null.truthy());
    assert!(!Value::Bool(false).truthy());
    assert!(!number(0.0).truthy());
    assert!(!Value::String(String::new()).truthy());
    assert!(Value::String("x".into()).truthy());
    assert!(Value::Array(vec![]).truthy());
    // Display renders strings bare, everything else as JSON.
    assert_eq!(Value::String("token-1".into()).to_text(), "token-1");
    assert_eq!(number(404.0).to_text(), "404");
}
