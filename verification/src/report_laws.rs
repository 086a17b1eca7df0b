//! What stands in the reports.

use crate::duration::Duration;
use crate::number;
use crate::number_laws;
use crate::report;
use crate::report::StyleView;
use crate::runner;
use crate::runner::{FileResultView, ResultView, Status};
use crate::script::AssertionView;
use crate::text;
use crate::verdict_laws;
use vstd::prelude::*;

verus! {

// -------------------------------------------------------------- counts ----

/// Each result counts once, under its own status.
pub proof fn law_count(results: Seq<ResultView>, r: ResultView, status: Status)
    ensures
        runner::count(seq![], status) == 0,
        runner::count(results.push(r), status) == runner::count(results, status) + (if r.status
            == status {
            1int
        } else {
            0int
        }),
{
    assert(results.push(r).drop_last() =~= results);
}

proof fn lemma_total_prefix(
    files: Seq<FileResultView>,
    f: FileResultView,
    status: Status,
    n: nat,
)
    requires
        n <= files.len(),
    ensures
        report::total(files.push(f), status, n) == report::total(files, status, n),
        report::checks(files.push(f), n) == report::checks(files, n),
    decreases n,
{
    if n > 0 {
        lemma_total_prefix(files, f, status, (n - 1) as nat);
        assert(files.push(f)[n - 1] == files[n - 1]);
    }
}

proof fn lemma_checks_prefix(results: Seq<ResultView>, r: ResultView, n: nat)
    requires
        n <= results.len(),
    ensures
        report::result_checks(results.push(r), n) == report::result_checks(results, n),
    decreases n,
{
    if n > 0 {
        lemma_checks_prefix(results, r, (n - 1) as nat);
        assert(results.push(r)[n - 1] == results[n - 1]);
    }
}

/// The totals are those of the files added up, and the checks those of the
/// results.
pub proof fn law_totals(
    files: Seq<FileResultView>,
    f: FileResultView,
    status: Status,
    results: Seq<ResultView>,
    r: ResultView,
)
    ensures
        report::total(seq![], status, 0) == 0,
        report::checks(seq![], 0) == 0,
        report::result_checks(seq![], 0) == 0,
        report::total(files.push(f), status, files.len() + 1) == report::total(
            files,
            status,
            files.len(),
        ) + runner::count(f.results, status),
        report::checks(files.push(f), files.len() + 1) == report::checks(files, files.len())
            + report::result_checks(f.results, f.results.len()),
        report::result_checks(results.push(r), results.len() + 1) == report::result_checks(
            results,
            results.len(),
        ) + r.assertions.len(),
{
    lemma_total_prefix(files, f, status, files.len());
    lemma_checks_prefix(results, r, results.len());
}

// ------------------------------------------------------------- console ----

/// A style without any color.
pub open spec fn colorless(style: StyleView) -> bool {
    style.green.len() == 0 && style.red.len() == 0 && style.yellow.len() == 0 && style.dim.len()
        == 0 && style.bold.len() == 0 && style.reset.len() == 0
}

/// Without color the palette is empty; with color each status has its own
/// sign, and every sign is an escape.
pub proof fn law_palette()
    ensures
        colorless(report::palette(false)),
        report::palette(true).green == seq!['\u{1b}', '[', '3', '2', 'm'],
        report::palette(true).red == seq!['\u{1b}', '[', '3', '1', 'm'],
        report::palette(true).yellow == seq!['\u{1b}', '[', '3', '3', 'm'],
        report::palette(true).dim == seq!['\u{1b}', '[', '2', 'm'],
        report::palette(true).bold == seq!['\u{1b}', '[', '1', 'm'],
        report::palette(true).reset == seq!['\u{1b}', '[', '0', 'm'],
{
    reveal_strlit("");
    reveal_strlit("\x1b[32m");
    reveal_strlit("\x1b[31m");
    reveal_strlit("\x1b[33m");
    reveal_strlit("\x1b[2m");
    reveal_strlit("\x1b[1m");
    reveal_strlit("\x1b[0m");
    assert(report::palette(true).green =~= seq!['\u{1b}', '[', '3', '2', 'm']);
    assert(report::palette(true).red =~= seq!['\u{1b}', '[', '3', '1', 'm']);
    assert(report::palette(true).yellow =~= seq!['\u{1b}', '[', '3', '3', 'm']);
    assert(report::palette(true).dim =~= seq!['\u{1b}', '[', '2', 'm']);
    assert(report::palette(true).bold =~= seq!['\u{1b}', '[', '1', 'm']);
    assert(report::palette(true).reset =~= seq!['\u{1b}', '[', '0', 'm']);
}

/// The mark of a status.
pub open spec fn status_mark(status: Status) -> Seq<char> {
    match status {
        Status::Passed => seq!['P', 'A', 'S', 'S', ' '],
        Status::Failed => seq!['F', 'A', 'I', 'L', ' '],
        Status::Error => seq!['E', 'R', 'R', 'O', 'R'],
        Status::Skipped => seq!['S', 'K', 'I', 'P', ' '],
    }
}

/// What stands behind the name of a request that got a response.
pub open spec fn response_part(r: ResultView) -> Seq<char> {
    match r.http_status {
        None => seq![],
        Some(code) => " ("@ + text::decimal(code as nat) + " "@ + r.http_reason + ", "@
            + report::duration_text(r.duration) + ")"@,
    }
}

/// The line of a request shows its status, its name, the response, if there
/// was one, and how many checks passed of how many, if there were any.
pub proof fn law_head_line(r: ResultView, style: StyleView, passed: nat)
    requires
        colorless(style),
        passed + verdict_laws::failed_count(r.assertions) == r.assertions.len(),
    ensures
        report::head_line(r, style) == "  "@ + status_mark(r.status) + " "@ + r.name
            + response_part(r) + (if r.assertions.len() == 0 {
            seq![]
        } else {
            " ["@ + text::decimal(passed) + "/"@ + text::decimal(r.assertions.len())
                + " checks]"@
        }) + "\n"@,
{
    lemma_colorless(style);
    verdict_laws::lemma_failed_count(r.assertions);
    reveal_strlit("PASS ");
    reveal_strlit("FAIL ");
    reveal_strlit("ERROR");
    reveal_strlit("SKIP ");
    reveal_strlit(" (");
    reveal_strlit("(");
    reveal_strlit(" ");
    reveal_strlit(" [");
    reveal_strlit("[");
    assert(report::mark(r.status) =~= status_mark(r.status));
    assert(report::http_part(r, style) =~= response_part(r));
    let checks = if r.assertions.len() == 0 {
        Seq::<char>::empty()
    } else {
        " ["@ + text::decimal(passed) + "/"@ + text::decimal(r.assertions.len()) + " checks]"@
    };
    assert(report::checks_part(r.assertions, style) =~= checks);
    assert(report::head_line(r, style) =~= "  "@ + status_mark(r.status) + " "@ + r.name
        + response_part(r) + checks + "\n"@);
}

proof fn lemma_colorless(style: StyleView)
    requires
        colorless(style),
    ensures
        style.green == Seq::<char>::empty(),
        style.red == Seq::<char>::empty(),
        style.yellow == Seq::<char>::empty(),
        style.dim == Seq::<char>::empty(),
        style.bold == Seq::<char>::empty(),
        style.reset == Seq::<char>::empty(),
{
    let e = Seq::<char>::empty();
    assert(style.green =~= e && style.red =~= e && style.yellow =~= e && style.dim =~= e
        && style.bold =~= e && style.reset =~= e);
}

proof fn lemma_assertions_prefix(
    assertions: Seq<AssertionView>,
    a: AssertionView,
    style: StyleView,
    verbose: bool,
    n: nat,
)
    requires
        n <= assertions.len(),
    ensures
        report::assertion_lines(assertions.push(a), style, verbose, n) == report::assertion_lines(
            assertions,
            style,
            verbose,
            n,
        ),
    decreases n,
{
    if n > 0 {
        lemma_assertions_prefix(assertions, a, style, verbose, (n - 1) as nat);
        assert(assertions.push(a)[n - 1] == assertions[n - 1]);
    }
}

/// Every failed check has a line with its test and its message; a check that
/// passed has one only in a verbose report.
pub proof fn law_check_lines(
    assertions: Seq<AssertionView>,
    a: AssertionView,
    style: StyleView,
    verbose: bool,
)
    requires
        colorless(style),
    ensures
        ({
            let scope = match a.test {
                None => seq![],
                Some(t) => t + ": "@,
            };
            report::assertion_lines(assertions.push(a), style, verbose, assertions.len() + 1)
                == report::assertion_lines(assertions, style, verbose, assertions.len()) + (
            if !a.passed {
                "        not ok "@ + scope + a.message + "\n"@
            } else if verbose {
                "        ok "@ + scope + a.message + "\n"@
            } else {
                seq![]
            })
        }),
{
    lemma_colorless(style);
    lemma_assertions_prefix(assertions, a, style, verbose, assertions.len());
    reveal_strlit("        not ok ");
    reveal_strlit("        ok ");
    reveal_strlit("        ");
    reveal_strlit("not ok");
    reveal_strlit("ok");
    reveal_strlit(" ");
    let e = Seq::<char>::empty();
    assert("        "@ + e + "not ok"@ + e + " "@ =~= "        not ok "@);
    assert("        "@ + e + "ok"@ + e + " "@ =~= "        ok "@);
    let scope = match a.test {
        None => seq![],
        Some(t) => t + ": "@,
    };
    assert(report::scope(a.test) =~= scope);
}

/// The error of a request has a line of its own.
pub proof fn law_error_line(r: ResultView, style: StyleView, e: Seq<char>)
    requires
        colorless(style),
    ensures
        r.error is None ==> report::error_line(r, style).len() == 0,
        r.error == Some(e) ==> report::error_line(r, style) == "        "@ + e + "\n"@,
{
    lemma_colorless(style);
    if r.error == Some(e) {
        assert(report::error_line(r, style) =~= "        "@ + e + "\n"@);
    }
}

/// A time below a second shows in milliseconds, a whole number of seconds with
/// one decimal place.
pub proof fn law_duration_text(d: Duration)
    requires
        d.nanos < 1_000_000_000,
        d.secs < 0x20_0000_0000_0000,
    ensures
        d.secs == 0 ==> report::duration_text(d) == text::decimal((d.nanos / 1_000_000) as nat)
            + seq!['m', 's'],
        d.secs > 0 && d.nanos == 0 ==> report::duration_text(d) == text::decimal(d.secs as nat)
            + seq!['.', '0', 's'],
{
    reveal_strlit("ms");
    reveal_strlit("s");
    assert("ms"@ =~= seq!['m', 's']);
    if d.secs > 0 && d.nanos == 0 {
        number::law_integers_are_exact(d.secs as nat, 0);
        number_laws::law_integers_with_places(d.secs as nat, 1);
        assert(number::rounded(false, 0, 1_000_000_000) == number::of_integer(0));
        let digits = text::decimal(d.secs as nat);
        assert(Seq::new(1, |i: int| '0') =~= seq!['0']);
        assert(digits + seq!['.'] + seq!['0'] + "s"@ =~= digits + seq!['.', '0', 's']);
    }
}

/// The closing line counts the requests that ran, those that passed and those
/// that failed; errors and skipped requests show where there are any, and all
/// checks at the end.
pub proof fn law_summary_line(
    files: Seq<FileResultView>,
    style: StyleView,
    passed: nat,
    failed: nat,
    errored: nat,
    skipped: nat,
    checks: nat,
)
    requires
        colorless(style),
        passed == report::total(files, Status::Passed, files.len()),
        failed == report::total(files, Status::Failed, files.len()),
        errored == report::total(files, Status::Error, files.len()),
        skipped == report::total(files, Status::Skipped, files.len()),
        checks == report::checks(files, files.len()),
    ensures
        report::summary_line(files, style) == text::decimal(passed + failed + errored)
            + " request(s): "@ + text::decimal(passed) + " passed, "@ + text::decimal(failed)
            + " failed"@ + (if errored > 0 {
            ", "@ + text::decimal(errored) + " errored"@
        } else {
            seq![]
        }) + (if skipped > 0 {
            ", "@ + text::decimal(skipped) + " skipped"@
        } else {
            seq![]
        }) + " — "@ + text::decimal(checks) + " check(s)"@ + "\n"@,
{
    lemma_colorless(style);
    let tail = " — "@ + text::decimal(checks) + " check(s)"@ + "\n"@;
    assert(report::summary_line(files, style) =~= text::decimal(passed + failed + errored)
        + " request(s): "@ + text::decimal(passed) + " passed, "@ + text::decimal(failed)
        + " failed"@ + report::counted_part(errored, " errored"@) + report::counted_part(
        skipped,
        " skipped"@,
    ) + " — "@ + text::decimal(checks) + " check(s)"@ + "\n"@);
}

/// The closing line is green where nothing failed or errored, and red else.
pub proof fn law_summary_color(files: Seq<FileResultView>, style: StyleView)
    ensures
        report::total(files, Status::Failed, files.len()) == 0 && report::total(
            files,
            Status::Error,
            files.len(),
        ) == 0 ==> text::starts(report::summary_line(files, style), style.green),
        report::total(files, Status::Failed, files.len()) > 0 || report::total(
            files,
            Status::Error,
            files.len(),
        ) > 0 ==> text::starts(report::summary_line(files, style), style.red),
{
    let line = report::summary_line(files, style);
    let color = if report::total(files, Status::Failed, files.len()) + report::total(
        files,
        Status::Error,
        files.len(),
    ) > 0 {
        style.red
    } else {
        style.green
    };
    assert(line.take(color.len() as int) =~= color);
}

// --------------------------------------------------------------- JUnit ----

/// XML text is written character by character, the five special ones by name.
pub proof fn law_xml_text(a: Seq<char>, c: char)
    ensures
        report::xml_text(seq![]) == Seq::<char>::empty(),
        report::xml_text(a.push(c)) == report::xml_text(a) + (if c == '&' {
            "&amp;"@
        } else if c == '<' {
            "&lt;"@
        } else if c == '>' {
            "&gt;"@
        } else if c == '"' {
            "&quot;"@
        } else if c == '\'' {
            "&apos;"@
        } else {
            seq![c]
        }),
{
    reveal_strlit("&amp;");
    reveal_strlit("&lt;");
    reveal_strlit("&gt;");
    reveal_strlit("&quot;");
    reveal_strlit("&apos;");
    assert("&amp;"@ =~= seq!['&', 'a', 'm', 'p', ';']);
    assert("&lt;"@ =~= seq!['&', 'l', 't', ';']);
    assert("&gt;"@ =~= seq!['&', 'g', 't', ';']);
    assert("&quot;"@ =~= seq!['&', 'q', 'u', 'o', 't', ';']);
    assert("&apos;"@ =~= seq!['&', 'a', 'p', 'o', 's', ';']);
    assert(a.push(c).drop_last() =~= a);
}

proof fn lemma_tags_prefix(assertions: Seq<AssertionView>, a: AssertionView, n: nat)
    requires
        n <= assertions.len(),
    ensures
        report::failure_tags(assertions.push(a), n) == report::failure_tags(assertions, n),
    decreases n,
{
    if n > 0 {
        lemma_tags_prefix(assertions, a, (n - 1) as nat);
        assert(assertions.push(a)[n - 1] == assertions[n - 1]);
    }
}

/// A failed check is a failure with its message; one that passed is not
/// mentioned.
pub proof fn law_failure_tags(assertions: Seq<AssertionView>, a: AssertionView)
    ensures
        report::failure_tags(seq![], 0).len() == 0,
        report::failure_tags(assertions.push(a), assertions.len() + 1) == report::failure_tags(
            assertions,
            assertions.len(),
        ) + (if a.passed {
            seq![]
        } else {
            "      <failure message=\""@ + report::xml_text(a.message) + "\"/>\n"@
        }),
{
    lemma_tags_prefix(assertions, a, assertions.len());
    let before = report::failure_tags(assertions, assertions.len());
    let tag = "      <failure message=\""@ + report::xml_text(a.message) + "\"/>\n"@;
    assert(before + tag =~= before + "      <failure message=\""@ + report::xml_text(a.message)
        + "\"/>\n"@);
    assert(before + seq![] =~= before);
}

/// A request is a test case under its name and its file; what became of it
/// stands inside.
pub proof fn law_test_case(path: Seq<char>, r: ResultView, e: Seq<char>)
    ensures
        ({
            let head = "    <testcase name=\""@ + report::xml_text(r.name) + "\" classname=\""@
                + report::xml_text(path) + "\" time=\""@ + number::fixed(r.duration.seconds(), 3)
                + "\""@;
            let text = report::test_case(path, r);
            &&& r.status == Status::Passed ==> text == head + "/>\n"@
            &&& r.status == Status::Skipped ==> text == head
                + ">\n      <skipped/>\n    </testcase>\n"@
            &&& r.status == Status::Failed ==> text == head + (">\n"@ + report::failure_tags(
                r.assertions,
                r.assertions.len(),
            ) + "    </testcase>\n"@)
            &&& r.status == Status::Error && r.error == Some(e) ==> text == head + (
            ">\n      <error message=\""@ + report::xml_text(e) + "\"/>\n    </testcase>\n"@)
        }),
{
}

proof fn lemma_cases_prefix(path: Seq<char>, results: Seq<ResultView>, r: ResultView, n: nat)
    requires
        n <= results.len(),
    ensures
        report::test_cases(path, results.push(r), n) == report::test_cases(path, results, n),
    decreases n,
{
    if n > 0 {
        lemma_cases_prefix(path, results, r, (n - 1) as nat);
        assert(results.push(r)[n - 1] == results[n - 1]);
    }
}

proof fn lemma_suites_prefix(files: Seq<FileResultView>, f: FileResultView, n: nat)
    requires
        n <= files.len(),
    ensures
        report::suites(files.push(f), n) == report::suites(files, n),
    decreases n,
{
    if n > 0 {
        lemma_suites_prefix(files, f, (n - 1) as nat);
        assert(files.push(f)[n - 1] == files[n - 1]);
    }
}

/// Every file is a suite with a test case for each of its requests, in order,
/// and with its own counts.
pub proof fn law_suites(
    files: Seq<FileResultView>,
    f: FileResultView,
    results: Seq<ResultView>,
    r: ResultView,
)
    ensures
        report::suites(files.push(f), files.len() + 1) == report::suites(files, files.len())
            + report::suite_head(f) + report::test_cases(f.path, f.results, f.results.len())
            + "  </testsuite>\n"@,
        report::test_cases(f.path, results.push(r), results.len() + 1) == report::test_cases(
            f.path,
            results,
            results.len(),
        ) + report::test_case(f.path, r),
        text::starts(
            report::suite_head(f),
            "  <testsuite name=\""@ + report::xml_text(f.path) + "\" tests=\""@ + text::decimal(
                f.results.len(),
            ) + "\" failures=\""@ + text::decimal(runner::count(f.results, Status::Failed))
                + "\" errors=\""@ + text::decimal(runner::count(f.results, Status::Error))
                + "\" skipped=\""@ + text::decimal(runner::count(f.results, Status::Skipped))
                + "\" time=\""@,
        ),
{
    lemma_suites_prefix(files, f, files.len());
    lemma_cases_prefix(f.path, results, r, results.len());
    let p = "  <testsuite name=\""@ + report::xml_text(f.path) + "\" tests=\""@ + text::decimal(
        f.results.len(),
    ) + "\" failures=\""@ + text::decimal(runner::count(f.results, Status::Failed))
        + "\" errors=\""@ + text::decimal(runner::count(f.results, Status::Error))
        + "\" skipped=\""@ + text::decimal(runner::count(f.results, Status::Skipped))
        + "\" time=\""@;
    assert(report::suite_head(f).take(p.len() as int) =~= p);
}

/// The time of a suite is that of its requests added up.
pub proof fn law_suite_time(results: Seq<ResultView>, r: ResultView)
    ensures
        report::suite_time(seq![], 0) == number::zero(false),
        report::suite_time(results.push(r), results.len() + 1) == number::sum(
            report::suite_time(results, results.len()),
            r.duration.seconds(),
        ),
{
    lemma_time_prefix(results, r, results.len());
}

proof fn lemma_time_prefix(results: Seq<ResultView>, r: ResultView, n: nat)
    requires
        n <= results.len(),
    ensures
        report::suite_time(results.push(r), n) == report::suite_time(results, n),
    decreases n,
{
    if n > 0 {
        lemma_time_prefix(results, r, (n - 1) as nat);
        assert(results.push(r)[n - 1] == results[n - 1]);
    }
}

} // verus!
