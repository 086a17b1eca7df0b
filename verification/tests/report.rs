use reqrun::duration::Duration;
use reqrun::report::{console, fmt_duration, junit, summary, Style};
use reqrun::runner::{FileResult, RequestResult, Status};
use reqrun::script::Assertion;

fn plain() -> Style {
    Style::colored(false)
}

fn result(name: &str, status: Status) -> RequestResult {
    RequestResult {
        name: name.to_string(),
        method: "GET".to_string(),
        url: "http://example.test/".to_string(),
        status,
        http_status: match status {
            Status::Passed => Some(200),
            Status::Failed => Some(500),
            _ => None,
        },
        http_reason: "OK".to_string(),
        duration: Duration::from_millis(12),
        assertions: Vec::new(),
        error: if status == Status::Error {
            Some("cannot connect to 127.0.0.1:1".to_string())
        } else {
            None
        },
        logs: Vec::new(),
        rendered: None,
    }
}

fn fixture() -> Vec<FileResult> {
    let mut failed = result("bad", Status::Failed);
    failed.assertions.push(Assertion {
        test: Some("checks".to_string()),
        passed: false,
        message: "assert failed: response.status === 200 & <x>".to_string(),
    });
    failed.assertions.push(Assertion {
        test: None,
        passed: true,
        message: "response.body.ok".to_string(),
    });
    vec![FileResult {
        path: "api.http".to_string(),
        results: vec![
            result("good", Status::Passed),
            failed,
            result("broken", Status::Error),
            result("later", Status::Skipped),
        ],
    }]
}

#[test]
fn console_shows_status_marks_and_failure_details() {
    let text = console(&fixture(), &plain(), false);
    assert!(text.contains("PASS  good"));
    assert!(text.contains("FAIL  bad"));
    assert!(text.contains("ERROR broken"));
    assert!(text.contains("SKIP  later"));
    assert!(text.contains("not ok checks: assert failed"));
    assert!(text.contains("cannot connect"));
    // Passing assertions stay quiet without --verbose.
    assert!(!text.contains("ok response.body.ok"));
    // Colored output wraps the status marks in ANSI codes.
    let colored = console(&fixture(), &Style::colored(true), false);
    assert!(colored.contains("\x1b[32mPASS"));
    assert!(colored.contains("\x1b[31mFAIL"));
}

#[test]
fn verbose_console_shows_passing_checks() {
    let text = console(&fixture(), &plain(), true);
    assert!(text.contains("ok response.body.ok"));
}

#[test]
fn verbose_output_only_adds_lines() {
    let mut files = fixture();
    files[0].results[0].rendered = Some("GET / HTTP/1.1\nHost: h\n".to_string());
    files[0].results[0].logs.push("two\nlines".to_string());
    let short = console(&files, &plain(), false);
    let long = console(&files, &plain(), true);
    let mut rest = long.lines();
    for line in short.lines() {
        assert!(rest.any(|l| l == line), "{line}");
    }
    assert!(long.lines().count() > short.lines().count());
    let last = summary(&files, &plain());
    assert!(short.ends_with(&last) && long.ends_with(&last));
}

#[test]
fn summary_counts_everything() {
    let text = summary(&fixture(), &plain());
    assert!(
        text.contains("3 request(s): 1 passed, 1 failed, 1 errored, 1 skipped — 2 check(s)"),
        "got: {text}"
    );
}

#[test]
fn junit_structure_counts_and_escaping() {
    let xml = junit(&fixture());
    assert!(xml.starts_with("<?xml version=\"1.0\""));
    assert!(xml.contains(
        "<testsuite name=\"api.http\" tests=\"4\" failures=\"1\" errors=\"1\" skipped=\"1\""
    ));
    assert!(xml.contains("<testcase name=\"good\" classname=\"api.http\""));
    assert!(
        xml.contains("&amp; &lt;x&gt;"),
        "XML special chars must be escaped"
    );
    assert!(xml.contains("<skipped/>"));
    assert!(xml.contains("<error message=\"cannot connect"));
    assert!(xml.ends_with("</testsuites>\n"));
    // Duration formatting used in both reports.
    assert_eq!(fmt_duration(Duration::from_millis(12)), "12ms");
    assert_eq!(fmt_duration(Duration::from_millis(1500)), "1.5s");
}
