use reqrun::cli::{parse_args, parse_duration, Cli, Parsed};
use reqrun::duration::Duration;

fn argv(args: &[&str]) -> Vec<String> {
    args.iter().map(|s| s.to_string()).collect()
}

fn parsed(args: &[&str]) -> Cli {
    match parse_args(&argv(args)).expect("parse failed") {
        Parsed::Run(cli) => *cli,
        other => panic!("expected Run, got {other:?}"),
    }
}

#[test]
fn parses_files_and_flags() {
    let cli = parsed(&[
        "a.http",
        "b.http",
        "--env",
        "dev",
        "--var",
        "k=v",
        "--var",
        "x=1=2",
        "-r",
        "login",
        "--strict",
        "--fail-fast",
        "--report",
        "out.xml",
    ]);
    assert_eq!(cli.files.len(), 2);
    assert_eq!(cli.options.env.as_deref(), Some("dev"));
    assert_eq!(
        cli.options.overrides,
        vec![
            ("k".to_string(), "v".to_string()),
            ("x".to_string(), "1=2".to_string()) // value may contain '='
        ]
    );
    assert_eq!(cli.options.filter, vec!["login"]);
    assert!(cli.options.strict && cli.options.fail_fast);
    assert_eq!(cli.report_path.as_deref(), Some("out.xml"));
}

#[test]
fn help_and_version_short_circuit() {
    assert!(matches!(parse_args(&argv(&["--help"])), Ok(Parsed::Help)));
    assert!(matches!(
        parse_args(&argv(&["a.http", "-V"])),
        Ok(Parsed::Version)
    ));
}

#[test]
fn usage_errors_are_descriptive() {
    let err = parse_args(&argv(&["--strict"])).unwrap_err();
    assert!(err.contains("no .http files"), "got: {err}");
    let err = parse_args(&argv(&["a.http", "--frobnicate"])).unwrap_err();
    assert!(err.contains("--frobnicate"), "got: {err}");
    let err = parse_args(&argv(&["a.http", "--var", "novalue"])).unwrap_err();
    assert!(err.contains("name=value"), "got: {err}");
    let err = parse_args(&argv(&["a.http", "--env"])).unwrap_err();
    assert!(err.contains("needs a value"), "got: {err}");
}

#[test]
fn durations_parse_with_units() {
    assert_eq!(parse_duration("500ms").unwrap(), Duration::from_millis(500));
    assert_eq!(parse_duration("5s").unwrap(), Duration::from_secs(5));
    assert_eq!(parse_duration("2m").unwrap(), Duration::from_secs(120));
    assert_eq!(parse_duration("7").unwrap(), Duration::from_secs(7));
    assert!(parse_duration("5h").is_err());
    assert!(parse_duration("abc").is_err());
}
