//! Result presentation: the console report and the JUnit XML export.

use crate::duration::Duration;
use crate::number;
use crate::number::Number;
use crate::parser;
use crate::runner;
use crate::runner::{FileResult, FileResultView, RequestResult, ResultView, Status};
use crate::script;
use crate::script::{Assertion, AssertionView};
use crate::text;
use vstd::prelude::*;

verus! {

/// ANSI palette; every field is empty when color is off, so formatting code
/// never branches on it.
pub struct Style {
    pub green: &'static str,
    pub red: &'static str,
    pub yellow: &'static str,
    pub dim: &'static str,
    pub bold: &'static str,
    pub reset: &'static str,
}

/// What a palette holds.
pub struct StyleView {
    pub green: Seq<char>,
    pub red: Seq<char>,
    pub yellow: Seq<char>,
    pub dim: Seq<char>,
    pub bold: Seq<char>,
    pub reset: Seq<char>,
}

impl View for Style {
    type V = StyleView;

    open spec fn view(&self) -> StyleView {
        StyleView {
            green: self.green@,
            red: self.red@,
            yellow: self.yellow@,
            dim: self.dim@,
            bold: self.bold@,
            reset: self.reset@,
        }
    }
}

/// The palette with or without color.
pub open spec fn palette(enabled: bool) -> StyleView {
    if enabled {
        StyleView {
            green: "\x1b[32m"@,
            red: "\x1b[31m"@,
            yellow: "\x1b[33m"@,
            dim: "\x1b[2m"@,
            bold: "\x1b[1m"@,
            reset: "\x1b[0m"@,
        }
    } else {
        StyleView { green: ""@, red: ""@, yellow: ""@, dim: ""@, bold: ""@, reset: ""@ }
    }
}

impl Style {
    pub fn colored(enabled: bool) -> (r: Style)
        ensures
            r@ == palette(enabled),
    {
        if enabled {
            Style {
                green: "\x1b[32m",
                red: "\x1b[31m",
                yellow: "\x1b[33m",
                dim: "\x1b[2m",
                bold: "\x1b[1m",
                reset: "\x1b[0m",
            }
        } else {
            Style { green: "", red: "", yellow: "", dim: "", bold: "", reset: "" }
        }
    }
}

// ------------------------------------------------------------ console ----

/// A span of time for humans.
pub open spec fn duration_text(d: Duration) -> Seq<char> {
    if d.millis() >= 1000 {
        number::fixed(d.seconds(), 1) + "s"@
    } else {
        text::decimal(d.millis()) + "ms"@
    }
}

pub fn fmt_duration(d: Duration) -> (r: String)
    ensures
        r@ == duration_text(d),
{
    let ms: u128 = d.as_millis();
    if ms >= 1000 {
        let seconds: String = number::to_fixed(d.as_secs_number(), 1);
        text::concat2(seconds.as_str(), "s")
    } else {
        let ms: String = text::decimal_string(ms as u64);
        text::concat2(ms.as_str(), "ms")
    }
}

/// The status mark, five characters wide.
pub open spec fn mark(status: Status) -> Seq<char> {
    match status {
        Status::Passed => "PASS "@,
        Status::Failed => "FAIL "@,
        Status::Error => "ERROR"@,
        Status::Skipped => "SKIP "@,
    }
}

pub open spec fn mark_color(status: Status, style: StyleView) -> Seq<char> {
    match status {
        Status::Passed => style.green,
        Status::Failed => style.red,
        Status::Error => style.red,
        Status::Skipped => style.yellow,
    }
}

/// Status code, reason and time of a response.
pub open spec fn http_part(r: ResultView, style: StyleView) -> Seq<char> {
    match r.http_status {
        Some(code) => " "@ + style.dim + "("@ + text::decimal(code as nat) + " "@ + r.http_reason
            + ", "@ + duration_text(r.duration) + ")"@ + style.reset,
        None => seq![],
    }
}

/// How many checks passed, of how many.
pub open spec fn checks_part(assertions: Seq<AssertionView>, style: StyleView) -> Seq<char> {
    if assertions.len() == 0 {
        seq![]
    } else {
        " "@ + style.dim + "["@ + text::decimal(
            (assertions.len() - script::failures(assertions)) as nat,
        ) + "/"@ + text::decimal(assertions.len()) + " checks]"@ + style.reset
    }
}

/// The test an assertion belongs to.
pub open spec fn scope(test: Option<Seq<char>>) -> Seq<char> {
    match test {
        Some(t) => t + ": "@,
        None => seq![],
    }
}

/// The line of one assertion; passing ones show only in verbose mode.
pub open spec fn assertion_line(a: AssertionView, style: StyleView, verbose: bool) -> Seq<char> {
    if a.passed {
        if verbose {
            "        "@ + style.green + "ok"@ + style.reset + " "@ + scope(a.test) + a.message
                + "\n"@
        } else {
            seq![]
        }
    } else {
        "        "@ + style.red + "not ok"@ + style.reset + " "@ + scope(a.test) + a.message + "\n"@
    }
}

/// The lines of the first `n` assertions.
pub open spec fn assertion_lines(
    assertions: Seq<AssertionView>,
    style: StyleView,
    verbose: bool,
    n: nat,
) -> Seq<char>
    decreases n,
{
    if n == 0 || n > assertions.len() {
        seq![]
    } else {
        assertion_lines(assertions, style, verbose, (n - 1) as nat) + assertion_line(
            assertions[n - 1],
            style,
            verbose,
        )
    }
}

/// The first `n` texts as dimmed, indented lines after a prefix.
pub open spec fn dim_lines(
    texts: Seq<Seq<char>>,
    prefix: Seq<char>,
    style: StyleView,
    n: nat,
) -> Seq<char>
    decreases n,
{
    if n == 0 || n > texts.len() {
        seq![]
    } else {
        dim_lines(texts, prefix, style, (n - 1) as nat) + "        "@ + style.dim + prefix
            + texts[n - 1] + style.reset + "\n"@
    }
}

/// The line of the error, if there is one.
pub open spec fn error_line(r: ResultView, style: StyleView) -> Seq<char> {
    match r.error {
        Some(e) => "        "@ + style.red + e + style.reset + "\n"@,
        None => seq![],
    }
}

/// The lines of what was rendered, in verbose mode.
pub open spec fn rendered_lines(r: ResultView, style: StyleView, verbose: bool) -> Seq<char> {
    match r.rendered {
        Some(t) => if verbose {
            let lines = text::lines(t, 0);
            dim_lines(lines, "| "@, style, lines.len())
        } else {
            seq![]
        },
        None => seq![],
    }
}

/// The first line of a result.
pub open spec fn head_line(r: ResultView, style: StyleView) -> Seq<char> {
    "  "@ + mark_color(r.status, style) + mark(r.status) + style.reset + " "@ + r.name + http_part(
        r,
        style,
    ) + checks_part(r.assertions, style) + "\n"@
}

/// All lines of a result.
#[verifier::opaque]
pub open spec fn result_lines(r: ResultView, style: StyleView, verbose: bool) -> Seq<char> {
    head_line(r, style) + error_line(r, style) + assertion_lines(
        r.assertions,
        style,
        verbose,
        r.assertions.len(),
    ) + dim_lines(r.logs, "log: "@, style, r.logs.len()) + rendered_lines(r, style, verbose)
}

/// The lines of the first `n` results.
pub open spec fn results_lines(
    results: Seq<ResultView>,
    style: StyleView,
    verbose: bool,
    n: nat,
) -> Seq<char>
    decreases n,
{
    if n == 0 || n > results.len() {
        seq![]
    } else {
        results_lines(results, style, verbose, (n - 1) as nat) + result_lines(
            results[n - 1],
            style,
            verbose,
        )
    }
}

/// The lines of the first `n` files.
pub open spec fn files_lines(
    files: Seq<FileResultView>,
    style: StyleView,
    verbose: bool,
    n: nat,
) -> Seq<char>
    decreases n,
{
    if n == 0 || n > files.len() {
        seq![]
    } else {
        let file = files[n - 1];
        files_lines(files, style, verbose, (n - 1) as nat) + style.bold + file.path + style.reset
            + "\n"@ + results_lines(file.results, style, verbose, file.results.len())
    }
}

/// How many results of the first `n` files have the status.
pub open spec fn total(files: Seq<FileResultView>, status: Status, n: nat) -> nat
    decreases n,
{
    if n == 0 || n > files.len() {
        0
    } else {
        total(files, status, (n - 1) as nat) + runner::count(files[n - 1].results, status)
    }
}

/// The assertions of the first `n` results.
pub open spec fn result_checks(results: Seq<ResultView>, n: nat) -> nat
    decreases n,
{
    if n == 0 || n > results.len() {
        0
    } else {
        result_checks(results, (n - 1) as nat) + results[n - 1].assertions.len()
    }
}

/// The assertions of the first `n` files.
pub open spec fn checks(files: Seq<FileResultView>, n: nat) -> nat
    decreases n,
{
    if n == 0 || n > files.len() {
        0
    } else {
        checks(files, (n - 1) as nat) + result_checks(
            files[n - 1].results,
            files[n - 1].results.len(),
        )
    }
}

/// The results of the first `n` files.
pub open spec fn requests(files: Seq<FileResultView>, n: nat) -> nat
    decreases n,
{
    if n == 0 || n > files.len() {
        0
    } else {
        requests(files, (n - 1) as nat) + files[n - 1].results.len()
    }
}

/// The totals fit a machine word.
pub open spec fn countable(files: Seq<FileResultView>) -> bool {
    requests(files, files.len()) <= usize::MAX && checks(files, files.len()) <= usize::MAX
}

/// A part of the summary that shows only when it counts something.
pub open spec fn counted_part(n: nat, what: Seq<char>) -> Seq<char> {
    if n > 0 {
        ", "@ + text::decimal(n) + what
    } else {
        seq![]
    }
}

/// The closing line.
pub open spec fn summary_line(files: Seq<FileResultView>, style: StyleView) -> Seq<char> {
    let n = files.len();
    let passed = total(files, Status::Passed, n);
    let failed = total(files, Status::Failed, n);
    let errored = total(files, Status::Error, n);
    let skipped = total(files, Status::Skipped, n);
    let color = if failed + errored > 0 {
        style.red
    } else {
        style.green
    };
    color + text::decimal(passed + failed + errored) + " request(s): "@ + text::decimal(passed)
        + " passed, "@ + text::decimal(failed) + " failed"@ + counted_part(errored, " errored"@)
        + counted_part(skipped, " skipped"@) + " — "@ + text::decimal(checks(files, n))
        + " check(s)"@ + style.reset + "\n"@
}

/// The whole report.
pub open spec fn console_text(
    files: Seq<FileResultView>,
    style: StyleView,
    verbose: bool,
) -> Seq<char> {
    files_lines(files, style, verbose, files.len()) + summary_line(files, style)
}

fn append_number(out: &mut String, n: usize)
    ensures
        final(out)@ == old(out)@ + text::decimal(n as nat),
{
    let digits: String = text::decimal_string(n as u64);
    out.append(digits.as_str());
}

fn append_http(out: &mut String, r: &RequestResult, style: &Style)
    ensures
        final(out)@ == old(out)@ + http_part(r@, style@),
{
    let ghost start = out@;
    if let Some(code) = r.http_status {
        let time: String = fmt_duration(r.duration);
        out.append(" ");
        out.append(style.dim);
        out.append("(");
        append_number(out, code as usize);
        out.append(" ");
        out.append(r.http_reason.as_str());
        out.append(", ");
        out.append(time.as_str());
        out.append(")");
        out.append(style.reset);
    }
    assert(out@ =~= start + http_part(r@, style@));
}

fn append_checks(out: &mut String, assertions: &Vec<Assertion>, style: &Style)
    ensures
        final(out)@ == old(out)@ + checks_part(script::assertion_views(assertions@), style@),
{
    let ghost start = out@;
    if assertions.len() > 0 {
        let failed: usize = script::count_failed(assertions);
        out.append(" ");
        out.append(style.dim);
        out.append("[");
        append_number(out, assertions.len() - failed);
        out.append("/");
        append_number(out, assertions.len());
        out.append(" checks]");
        out.append(style.reset);
    }
    assert(out@ =~= start + checks_part(script::assertion_views(assertions@), style@));
}

fn append_assertion(out: &mut String, a: &Assertion, style: &Style, verbose: bool)
    ensures
        final(out)@ == old(out)@ + assertion_line(a@, style@, verbose),
{
    let ghost start = out@;
    if a.passed && !verbose {
        assert(out@ =~= start + assertion_line(a@, style@, verbose));
        return;
    }
    out.append("        ");
    if a.passed {
        out.append(style.green);
        out.append("ok");
    } else {
        out.append(style.red);
        out.append("not ok");
    }
    out.append(style.reset);
    out.append(" ");
    if let Some(t) = &a.test {
        out.append(t.as_str());
        out.append(": ");
    }
    out.append(a.message.as_str());
    out.append("\n");
    assert(out@ =~= start + assertion_line(a@, style@, verbose));
}

fn append_dim(out: &mut String, line: &str, prefix: &str, style: &Style)
    ensures
        final(out)@ == old(out)@ + "        "@ + style@.dim + prefix@ + line@ + style@.reset
            + "\n"@,
{
    out.append("        ");
    out.append(style.dim);
    out.append(prefix);
    out.append(line);
    out.append(style.reset);
    out.append("\n");
}

fn append_mark(out: &mut String, status: Status, style: &Style)
    ensures
        final(out)@ == old(out)@ + mark_color(status, style@) + mark(status),
{
    match status {
        Status::Passed => {
            out.append(style.green);
            out.append("PASS ");
        },
        Status::Failed => {
            out.append(style.red);
            out.append("FAIL ");
        },
        Status::Error => {
            out.append(style.red);
            out.append("ERROR");
        },
        Status::Skipped => {
            out.append(style.yellow);
            out.append("SKIP ");
        },
    }
}

fn append_head(out: &mut String, r: &RequestResult, style: &Style)
    ensures
        final(out)@ == old(out)@ + head_line(r@, style@),
{
    let mut line: String = text::owned("  ");
    append_mark(&mut line, r.status, style);
    line.append(style.reset);
    line.append(" ");
    line.append(r.name.as_str());
    append_http(&mut line, r, style);
    append_checks(&mut line, &r.assertions, style);
    line.append("\n");
    assert(line@ == head_line(r@, style@));
    out.append(line.as_str());
}

fn append_error(out: &mut String, r: &RequestResult, style: &Style)
    ensures
        final(out)@ == old(out)@ + error_line(r@, style@),
{
    let ghost start = out@;
    if let Some(e) = &r.error {
        out.append("        ");
        out.append(style.red);
        out.append(e.as_str());
        out.append(style.reset);
        out.append("\n");
    }
    assert(out@ =~= start + error_line(r@, style@));
}

fn append_result(out: &mut String, r: &RequestResult, style: &Style, verbose: bool)
    ensures
        final(out)@ == old(out)@ + result_lines(r@, style@, verbose),
{
    let mut lines: String = String::new();
    append_head(&mut lines, r, style);
    append_error(&mut lines, r, style);
    append_assertions(&mut lines, &r.assertions, style, verbose);
    append_logs(&mut lines, &r.logs, style);
    append_rendered(&mut lines, r, style, verbose);
    proof {
        reveal(result_lines);
        let empty = Seq::<char>::empty();
        assert(empty + head_line(r@, style@) =~= head_line(r@, style@));
        assert(lines@ == result_lines(r@, style@, verbose));
    }
    out.append(lines.as_str());
}

fn append_assertions(out: &mut String, assertions: &Vec<Assertion>, style: &Style, verbose: bool)
    ensures
        final(out)@ == old(out)@ + assertion_lines(
            script::assertion_views(assertions@),
            style@,
            verbose,
            assertions@.len(),
        ),
{
    let ghost start = out@;
    let ghost all = script::assertion_views(assertions@);
    let mut i: usize = 0;
    assert(start + assertion_lines(all, style@, verbose, 0) =~= start);
    while i < assertions.len()
        invariant
            i <= assertions.len(),
            all == script::assertion_views(assertions@),
            out@ == start + assertion_lines(all, style@, verbose, i as nat),
        decreases assertions.len() - i,
    {
        assert(all[i as int] == assertions@[i as int]@);
        append_assertion(out, &assertions[i], style, verbose);
        i += 1;
        assert(out@ =~= start + assertion_lines(all, style@, verbose, i as nat));
    }
}

fn append_logs(out: &mut String, logs: &Vec<String>, style: &Style)
    ensures
        final(out)@ == old(out)@ + dim_lines(text::texts(logs@), "log: "@, style@, logs@.len()),
{
    let ghost start = out@;
    let ghost all = text::texts(logs@);
    let mut i: usize = 0;
    assert(start + dim_lines(all, "log: "@, style@, 0) =~= start);
    while i < logs.len()
        invariant
            i <= logs.len(),
            all == text::texts(logs@),
            out@ == start + dim_lines(all, "log: "@, style@, i as nat),
        decreases logs.len() - i,
    {
        assert(all[i as int] == logs@[i as int]@);
        append_dim(out, logs[i].as_str(), "log: ", style);
        i += 1;
        assert(out@ =~= start + dim_lines(all, "log: "@, style@, i as nat));
    }
}

fn append_rendered(out: &mut String, r: &RequestResult, style: &Style, verbose: bool)
    ensures
        final(out)@ == old(out)@ + rendered_lines(r@, style@, verbose),
{
    let ghost start = out@;
    if !verbose || r.rendered.is_none() {
        assert(out@ =~= start + rendered_lines(r@, style@, verbose));
        return;
    }
    if let Some(rendered) = &r.rendered {
        let chars: Vec<char> = text::chars(rendered.as_str());
        let lines: Vec<&[char]> = text::split_lines(chars.as_slice());
        let ghost all = text::slices(lines@);
        let mut i: usize = 0;
        assert(start + dim_lines(all, "| "@, style@, 0) =~= start);
        while i < lines.len()
            invariant
                i <= lines.len(),
                all == text::slices(lines@),
                out@ == start + dim_lines(all, "| "@, style@, i as nat),
            decreases lines.len() - i,
        {
            assert(all[i as int] == lines@[i as int]@);
            let line: String = text::string(lines[i]);
            append_dim(out, line.as_str(), "| ", style);
            i += 1;
            assert(out@ =~= start + dim_lines(all, "| "@, style@, i as nat));
        }
    }
}

fn append_file(out: &mut String, file: &FileResult, style: &Style, verbose: bool)
    ensures
        final(out)@ == old(out)@ + style@.bold + file@.path + style@.reset + "\n"@ + results_lines(
            file@.results,
            style@,
            verbose,
            file@.results.len(),
        ),
{
    out.append(style.bold);
    out.append(file.path.as_str());
    out.append(style.reset);
    out.append("\n");
    let ghost start = out@;
    let ghost all = file@.results;
    let mut i: usize = 0;
    assert(start + results_lines(all, style@, verbose, 0) =~= start);
    while i < file.results.len()
        invariant
            i <= file.results.len(),
            all == file@.results,
            out@ == start + results_lines(all, style@, verbose, i as nat),
        decreases file.results.len() - i,
    {
        assert(all[i as int] == file.results@[i as int]@);
        append_result(out, &file.results[i], style, verbose);
        i += 1;
        assert(out@ =~= start + results_lines(all, style@, verbose, i as nat));
    }
}

/// Render the human report for all files. `verbose` adds response heads and
/// per-assertion lines even for passing requests.
pub fn console(results: &[FileResult], style: &Style, verbose: bool) -> (r: String)
    requires
        countable(runner::file_views(results@)),
    ensures
        r@ == console_text(runner::file_views(results@), style@, verbose),
{
    let ghost all = runner::file_views(results@);
    let mut out: String = String::new();
    let mut i: usize = 0;
    assert(out@ =~= files_lines(all, style@, verbose, 0));
    while i < results.len()
        invariant
            i <= results.len(),
            all == runner::file_views(results@),
            out@ == files_lines(all, style@, verbose, i as nat),
        decreases results.len() - i,
    {
        assert(all[i as int] == results@[i as int]@);
        append_file(&mut out, &results[i], style, verbose);
        i += 1;
        assert(out@ =~= files_lines(all, style@, verbose, i as nat));
    }
    let line: String = summary(results, style);
    out.append(line.as_str());
    out
}

proof fn lemma_totals_grow(files: Seq<FileResultView>, m: nat, n: nat)
    requires
        m <= n <= files.len(),
    ensures
        requests(files, m) <= requests(files, n),
        checks(files, m) <= checks(files, n),
    decreases n,
{
    if m < n {
        lemma_totals_grow(files, m, (n - 1) as nat);
    }
}

proof fn lemma_totals(files: Seq<FileResultView>, n: nat)
    requires
        n <= files.len(),
    ensures
        total(files, Status::Passed, n) + total(files, Status::Failed, n) + total(
            files,
            Status::Error,
            n,
        ) + total(files, Status::Skipped, n) == requests(files, n),
    decreases n,
{
    if n > 0 {
        lemma_totals(files, (n - 1) as nat);
        runner::law_counts_are_complete(files[n - 1].results);
    }
}

proof fn lemma_result_checks_grow(results: Seq<ResultView>, m: nat, n: nat)
    requires
        m <= n <= results.len(),
    ensures
        result_checks(results, m) <= result_checks(results, n),
    decreases n,
{
    if m < n {
        lemma_result_checks_grow(results, m, (n - 1) as nat);
    }
}

fn count_checks(file: &FileResult) -> (r: usize)
    requires
        result_checks(file@.results, file@.results.len()) <= usize::MAX,
    ensures
        r == result_checks(file@.results, file@.results.len()),
{
    match checks_of(file) {
        Some(n) => n,
        None => 0,
    }
}

fn append_counted(out: &mut String, n: usize, what: &str)
    ensures
        final(out)@ == old(out)@ + counted_part(n as nat, what@),
{
    let ghost start = out@;
    if n > 0 {
        out.append(", ");
        append_number(out, n);
        out.append(what);
    }
    assert(out@ =~= start + counted_part(n as nat, what@));
}

/// The assertions of a file, where their number fits.
fn checks_of(file: &FileResult) -> (r: Option<usize>)
    ensures
        match r {
            Some(n) => n == result_checks(file@.results, file@.results.len()),
            None => result_checks(file@.results, file@.results.len()) > usize::MAX,
        },
{
    let ghost all = file@.results;
    let mut n: usize = 0;
    let mut i: usize = 0;
    while i < file.results.len()
        invariant
            i <= file.results.len(),
            all == file@.results,
            n == result_checks(all, i as nat),
        decreases file.results.len() - i,
    {
        assert(all[i as int] == file.results@[i as int]@);
        match n.checked_add(file.results[i].assertions.len()) {
            Some(m) => {
                n = m;
            },
            None => {
                proof {
                    lemma_result_checks_grow(all, (i + 1) as nat, all.len());
                }
                return None;
            },
        }
        i += 1;
    }
    Some(n)
}

/// Whether the totals of a run fit a machine word.
pub fn is_countable(results: &[FileResult]) -> (r: bool)
    ensures
        r == countable(runner::file_views(results@)),
{
    let ghost all = runner::file_views(results@);
    let mut ran: usize = 0;
    let mut checked: usize = 0;
    let mut i: usize = 0;
    while i < results.len()
        invariant
            i <= results.len(),
            all == runner::file_views(results@),
            ran == requests(all, i as nat),
            checked == checks(all, i as nat),
        decreases results.len() - i,
    {
        proof {
            assert(all[i as int] == results@[i as int]@);
            lemma_totals_grow(all, (i + 1) as nat, all.len());
        }
        match ran.checked_add(results[i].results.len()) {
            Some(n) => {
                ran = n;
            },
            None => {
                return false;
            },
        }
        match checks_of(&results[i]) {
            Some(n) => match checked.checked_add(n) {
                Some(m) => {
                    checked = m;
                },
                None => {
                    return false;
                },
            },
            None => {
                return false;
            },
        }
        i += 1;
    }
    true
}

/// One-line closing summary, colored by the worst outcome.
pub fn summary(results: &[FileResult], style: &Style) -> (r: String)
    requires
        countable(runner::file_views(results@)),
    ensures
        r@ == summary_line(runner::file_views(results@), style@),
{
    let ghost all = runner::file_views(results@);
    let mut passed: usize = 0;
    let mut failed: usize = 0;
    let mut errored: usize = 0;
    let mut skipped: usize = 0;
    let mut checked: usize = 0;
    let mut i: usize = 0;
    while i < results.len()
        invariant
            i <= results.len(),
            all == runner::file_views(results@),
            countable(all),
            passed == total(all, Status::Passed, i as nat),
            failed == total(all, Status::Failed, i as nat),
            errored == total(all, Status::Error, i as nat),
            skipped == total(all, Status::Skipped, i as nat),
            checked == checks(all, i as nat),
        decreases results.len() - i,
    {
        proof {
            assert(all[i as int] == results@[i as int]@);
            lemma_totals_grow(all, (i + 1) as nat, all.len());
            lemma_totals(all, (i + 1) as nat);
        }
        let c: (usize, usize, usize, usize) = results[i].counts();
        passed += c.0;
        failed += c.1;
        errored += c.2;
        skipped += c.3;
        checked += count_checks(&results[i]);
        i += 1;
    }
    proof {
        lemma_totals(all, all.len());
    }
    let ran: usize = passed + failed + errored;
    let mut line: String = String::new();
    if failed + errored > 0 {
        line.append(style.red);
    } else {
        line.append(style.green);
    }
    append_number(&mut line, ran);
    line.append(" request(s): ");
    append_number(&mut line, passed);
    line.append(" passed, ");
    append_number(&mut line, failed);
    line.append(" failed");
    append_counted(&mut line, errored, " errored");
    append_counted(&mut line, skipped, " skipped");
    line.append(" — ");
    append_number(&mut line, checked);
    line.append(" check(s)");
    line.append(style.reset);
    line.append("\n");
    assert(line@ =~= summary_line(all, style@));
    line
}

// -------------------------------------------------------------- JUnit ----

/// One character of XML text or attribute values.
pub open spec fn xml_char(c: char) -> Seq<char> {
    if c == '&' {
        seq!['&', 'a', 'm', 'p', ';']
    } else if c == '<' {
        seq!['&', 'l', 't', ';']
    } else if c == '>' {
        seq!['&', 'g', 't', ';']
    } else if c == '"' {
        seq!['&', 'q', 'u', 'o', 't', ';']
    } else if c == '\'' {
        seq!['&', 'a', 'p', 'o', 's', ';']
    } else {
        seq![c]
    }
}

/// A text as XML text or attribute value.
pub open spec fn xml_text(s: Seq<char>) -> Seq<char>
    decreases s.len(),
{
    if s.len() == 0 {
        seq![]
    } else {
        xml_text(s.drop_last()) + xml_char(s.last())
    }
}

#[verifier::loop_isolation(false)]
pub fn xml_escape(s: &str) -> (r: String)
    ensures
        r@ == xml_text(s@),
{
    let chars: Vec<char> = text::chars(s);
    let mut out: String = String::new();
    let mut i: usize = 0;
    assert(out@ =~= xml_text(chars@.take(0)));
    while i < chars.len()
        invariant
            i <= chars.len(),
            out@ == xml_text(chars@.take(i as int)),
        decreases chars.len() - i,
    {
        let ghost before = out@;
        let c: char = chars[i];
        assert(chars@.take(i + 1).drop_last() =~= chars@.take(i as int));
        match c {
            '&' => {
                proof {
                    reveal_strlit("&amp;");
                }
                out.append("&amp;");
            },
            '<' => {
                proof {
                    reveal_strlit("&lt;");
                }
                out.append("&lt;");
            },
            '>' => {
                proof {
                    reveal_strlit("&gt;");
                }
                out.append("&gt;");
            },
            '"' => {
                proof {
                    reveal_strlit("&quot;");
                }
                out.append("&quot;");
            },
            '\'' => {
                proof {
                    reveal_strlit("&apos;");
                }
                out.append("&apos;");
            },
            _ => out.push(c),
        }
        assert(out@ =~= before + xml_char(c));
        i += 1;
    }
    assert(chars@.take(chars@.len() as int) =~= s@);
    out
}

/// The time of the first `n` results in seconds, added up one by one.
pub open spec fn suite_time(results: Seq<ResultView>, n: nat) -> Number
    decreases n,
{
    if n == 0 || n > results.len() {
        number::zero(false)
    } else {
        number::sum(suite_time(results, (n - 1) as nat), results[n - 1].duration.seconds())
    }
}

/// The opening tag of a file's test suite.
pub open spec fn suite_head(file: FileResultView) -> Seq<char> {
    "  <testsuite name=\""@ + xml_text(file.path) + "\" tests=\""@ + text::decimal(
        file.results.len(),
    ) + "\" failures=\""@ + text::decimal(runner::count(file.results, Status::Failed))
        + "\" errors=\""@ + text::decimal(runner::count(file.results, Status::Error))
        + "\" skipped=\""@ + text::decimal(runner::count(file.results, Status::Skipped))
        + "\" time=\""@ + number::fixed(suite_time(file.results, file.results.len()), 3)
        + "\">\n"@
}

/// The failures among the first `n` assertions.
pub open spec fn failure_tags(assertions: Seq<AssertionView>, n: nat) -> Seq<char>
    decreases n,
{
    if n == 0 || n > assertions.len() {
        seq![]
    } else {
        let before = failure_tags(assertions, (n - 1) as nat);
        if assertions[n - 1].passed {
            before
        } else {
            before + "      <failure message=\""@ + xml_text(assertions[n - 1].message) + "\"/>\n"@
        }
    }
}

/// The rest of a test case, after its attributes.
pub open spec fn case_rest(r: ResultView) -> Seq<char> {
    match r.status {
        Status::Passed => "/>\n"@,
        Status::Skipped => ">\n      <skipped/>\n    </testcase>\n"@,
        Status::Failed => ">\n"@ + failure_tags(r.assertions, r.assertions.len())
            + "    </testcase>\n"@,
        Status::Error => ">\n      <error message=\""@ + xml_text(
            match r.error {
                Some(e) => e,
                None => "unknown error"@,
            },
        ) + "\"/>\n    </testcase>\n"@,
    }
}

/// One request as a test case.
pub open spec fn test_case(path: Seq<char>, r: ResultView) -> Seq<char> {
    "    <testcase name=\""@ + xml_text(r.name) + "\" classname=\""@ + xml_text(path)
        + "\" time=\""@ + number::fixed(r.duration.seconds(), 3) + "\""@ + case_rest(r)
}

/// The first `n` requests as test cases.
pub open spec fn test_cases(path: Seq<char>, results: Seq<ResultView>, n: nat) -> Seq<char>
    decreases n,
{
    if n == 0 || n > results.len() {
        seq![]
    } else {
        test_cases(path, results, (n - 1) as nat) + test_case(path, results[n - 1])
    }
}

/// The first `n` files as test suites.
pub open spec fn suites(files: Seq<FileResultView>, n: nat) -> Seq<char>
    decreases n,
{
    if n == 0 || n > files.len() {
        seq![]
    } else {
        let file = files[n - 1];
        suites(files, (n - 1) as nat) + suite_head(file) + test_cases(
            file.path,
            file.results,
            file.results.len(),
        ) + "  </testsuite>\n"@
    }
}

/// The whole document.
pub open spec fn junit_text(files: Seq<FileResultView>) -> Seq<char> {
    "<?xml version=\"1.0\" encoding=\"UTF-8\"?>\n<testsuites>\n"@ + suites(files, files.len())
        + "</testsuites>\n"@
}

fn add_times(file: &FileResult) -> (r: Number)
    ensures
        r == suite_time(file@.results, file@.results.len()),
{
    let ghost all = file@.results;
    let mut time: Number = number::from_u64(0);
    let mut i: usize = 0;
    while i < file.results.len()
        invariant
            i <= file.results.len(),
            all == file@.results,
            time == suite_time(all, i as nat),
        decreases file.results.len() - i,
    {
        assert(all[i as int] == file.results@[i as int]@);
        time = number::plus(time, file.results[i].duration.as_secs_number());
        i += 1;
    }
    time
}

fn append_suite_head(out: &mut String, file: &FileResult)
    ensures
        final(out)@ == old(out)@ + suite_head(file@),
{
    let (_passed, failed, errored, skipped): (usize, usize, usize, usize) = file.counts();
    let path: String = xml_escape(file.path.as_str());
    let time: String = number::to_fixed(add_times(file), 3);
    let mut tag: String = text::owned("  <testsuite name=\"");
    tag.append(path.as_str());
    tag.append("\" tests=\"");
    append_number(&mut tag, file.results.len());
    tag.append("\" failures=\"");
    append_number(&mut tag, failed);
    tag.append("\" errors=\"");
    append_number(&mut tag, errored);
    tag.append("\" skipped=\"");
    append_number(&mut tag, skipped);
    tag.append("\" time=\"");
    tag.append(time.as_str());
    tag.append("\">\n");
    assert(tag@ == suite_head(file@));
    out.append(tag.as_str());
}

fn append_failures(out: &mut String, assertions: &Vec<Assertion>)
    ensures
        final(out)@ == old(out)@ + failure_tags(
            script::assertion_views(assertions@),
            assertions@.len(),
        ),
{
    let ghost start = out@;
    let ghost all = script::assertion_views(assertions@);
    let mut i: usize = 0;
    assert(start + failure_tags(all, 0) =~= start);
    while i < assertions.len()
        invariant
            i <= assertions.len(),
            all == script::assertion_views(assertions@),
            out@ == start + failure_tags(all, i as nat),
        decreases assertions.len() - i,
    {
        assert(all[i as int] == assertions@[i as int]@);
        if !assertions[i].passed {
            let message: String = xml_escape(assertions[i].message.as_str());
            out.append("      <failure message=\"");
            out.append(message.as_str());
            out.append("\"/>\n");
        }
        i += 1;
        assert(out@ =~= start + failure_tags(all, i as nat));
    }
}

fn append_case_rest(out: &mut String, r: &RequestResult)
    ensures
        final(out)@ == old(out)@ + case_rest(r@),
{
    let ghost start = out@;
    match r.status {
        Status::Passed => out.append("/>\n"),
        Status::Skipped => out.append(">\n      <skipped/>\n    </testcase>\n"),
        Status::Failed => {
            out.append(">\n");
            append_failures(out, &r.assertions);
            out.append("    </testcase>\n");
        },
        Status::Error => {
            let message: String = match &r.error {
                Some(e) => xml_escape(e.as_str()),
                None => xml_escape("unknown error"),
            };
            out.append(">\n      <error message=\"");
            out.append(message.as_str());
            out.append("\"/>\n    </testcase>\n");
        },
    }
    assert(out@ =~= start + case_rest(r@));
}

fn append_case(out: &mut String, path: &str, r: &RequestResult)
    ensures
        final(out)@ == old(out)@ + test_case(path@, r@),
{
    let name: String = xml_escape(r.name.as_str());
    let class: String = xml_escape(path);
    let time: String = number::to_fixed(r.duration.as_secs_number(), 3);
    let mut tag: String = text::owned("    <testcase name=\"");
    tag.append(name.as_str());
    tag.append("\" classname=\"");
    tag.append(class.as_str());
    tag.append("\" time=\"");
    tag.append(time.as_str());
    tag.append("\"");
    append_case_rest(&mut tag, r);
    assert(tag@ == test_case(path@, r@));
    out.append(tag.as_str());
}

fn append_suite(out: &mut String, file: &FileResult)
    ensures
        final(out)@ == old(out)@ + suite_head(file@) + test_cases(
            file@.path,
            file@.results,
            file@.results.len(),
        ) + "  </testsuite>\n"@,
{
    append_suite_head(out, file);
    let ghost start = out@;
    let ghost all = file@.results;
    let mut i: usize = 0;
    assert(start + test_cases(file@.path, all, 0) =~= start);
    while i < file.results.len()
        invariant
            i <= file.results.len(),
            all == file@.results,
            out@ == start + test_cases(file@.path, all, i as nat),
        decreases file.results.len() - i,
    {
        assert(all[i as int] == file.results@[i as int]@);
        append_case(out, file.path.as_str(), &file.results[i]);
        i += 1;
        assert(out@ =~= start + test_cases(file@.path, all, i as nat));
    }
    out.append("  </testsuite>\n");
}

/// JUnit XML for CI systems: one `<testsuite>` per file, one `<testcase>`
/// per request. Failed assertions become `<failure>`, errors `<error>`,
/// skipped requests `<skipped/>`.
pub fn junit(results: &[FileResult]) -> (r: String)
    ensures
        r@ == junit_text(runner::file_views(results@)),
{
    let ghost all = runner::file_views(results@);
    let mut out: String = text::owned(
        "<?xml version=\"1.0\" encoding=\"UTF-8\"?>\n<testsuites>\n",
    );
    let ghost start = out@;
    let mut i: usize = 0;
    assert(start + suites(all, 0) =~= start);
    while i < results.len()
        invariant
            i <= results.len(),
            all == runner::file_views(results@),
            out@ == start + suites(all, i as nat),
        decreases results.len() - i,
    {
        assert(all[i as int] == results@[i as int]@);
        append_suite(&mut out, &results[i]);
        i += 1;
        assert(out@ =~= start + suites(all, i as nat));
    }
    out.append("</testsuites>\n");
    out
}

// --------------------------------------------------------------- laws ----

/// Escaped text holds no character that could end an attribute or a tag.
pub proof fn law_xml_text_is_safe(s: Seq<char>)
    ensures
        forall|i: int|
            0 <= i < xml_text(s).len() ==> (#[trigger] xml_text(s)[i]) != '<' && xml_text(s)[i]
                != '>' && xml_text(s)[i] != '"' && xml_text(s)[i] != '\'',
    decreases s.len(),
{
    if s.len() > 0 {
        law_xml_text_is_safe(s.drop_last());
        let head = xml_text(s.drop_last());
        let tail = xml_char(s.last());
        assert forall|i: int| 0 <= i < xml_text(s).len() implies (#[trigger] xml_text(s)[i]) != '<'
            && xml_text(s)[i] != '>' && xml_text(s)[i] != '"' && xml_text(s)[i] != '\'' by {
            if i < head.len() {
                assert(xml_text(s)[i] == head[i]);
            } else {
                assert(xml_text(s)[i] == tail[i - head.len()]);
            }
        }
    }
}

proof fn lemma_xml_first(s: Seq<char>)
    requires
        s.len() > 0,
    ensures
        xml_text(s) == xml_char(s[0]) + xml_text(s.drop_first()),
    decreases s.len(),
{
    if s.len() == 1 {
        assert(s.drop_last() =~= Seq::<char>::empty());
        assert(s.drop_first() =~= Seq::<char>::empty());
        assert(xml_text(s) =~= xml_char(s[0]) + xml_text(s.drop_first()));
    } else {
        lemma_xml_first(s.drop_last());
        assert(s.drop_last().drop_first() =~= s.drop_first().drop_last());
        assert(s.drop_first().last() == s.last());
        assert(xml_text(s) =~= xml_char(s[0]) + xml_text(s.drop_first()));
    }
}

/// Escaping loses nothing: different texts stay different.
pub proof fn law_xml_text_is_injective(a: Seq<char>, b: Seq<char>)
    requires
        xml_text(a) == xml_text(b),
    ensures
        a == b,
    decreases a.len(),
{
    if a.len() > 0 {
        lemma_xml_first(a);
        assert(xml_text(a).len() > 0);
    }
    if b.len() > 0 {
        lemma_xml_first(b);
        assert(xml_text(b).len() > 0);
    }
    if a.len() == 0 || b.len() == 0 {
        assert(a =~= b);
    } else {
        let x = xml_char(a[0]) + xml_text(a.drop_first());
        let y = xml_char(b[0]) + xml_text(b.drop_first());
        assert(x[0] == y[0] && x.len() == y.len());
        if x.len() > 1 {
            assert(x[1] == y[1]);
        }
        if x.len() > 2 {
            assert(x[2] == y[2]);
        }
        assert(a[0] == b[0]);
        let k = xml_char(a[0]).len() as int;
        assert(xml_text(a.drop_first()) =~= x.skip(k));
        assert(xml_text(b.drop_first()) =~= y.skip(k));
        law_xml_text_is_injective(a.drop_first(), b.drop_first());
        assert(a =~= seq![a[0]] + a.drop_first());
        assert(b =~= seq![b[0]] + b.drop_first());
    }
}

/// The summary counts every request exactly once.
pub proof fn law_summary_counts_every_request(files: Seq<FileResultView>)
    ensures
        total(files, Status::Passed, files.len()) + total(files, Status::Failed, files.len())
            + total(files, Status::Error, files.len()) + total(
            files,
            Status::Skipped,
            files.len(),
        ) == requests(files, files.len()),
{
    lemma_totals(files, files.len());
}

/// All of `a`, in order, among the items of `b`.
pub open spec fn among(a: Seq<Seq<char>>, b: Seq<Seq<char>>) -> bool
    decreases b.len(),
{
    if a.len() == 0 {
        true
    } else if b.len() == 0 {
        false
    } else {
        a.last() == b.last() && among(a.drop_last(), b.drop_last()) || among(a, b.drop_last())
    }
}

proof fn lemma_among_same(a: Seq<Seq<char>>)
    ensures
        among(a, a),
    decreases a.len(),
{
    if a.len() > 0 {
        lemma_among_same(a.drop_last());
    }
}

proof fn lemma_among_add(
    a: Seq<Seq<char>>,
    b: Seq<Seq<char>>,
    c: Seq<Seq<char>>,
    d: Seq<Seq<char>>,
)
    requires
        among(a, b),
        among(c, d),
    ensures
        among(a + c, b + d),
    decreases d.len(),
{
    if d.len() == 0 {
        assert(a + c =~= a);
        assert(b + d =~= b);
    } else {
        assert((b + d).drop_last() =~= b + d.drop_last());
        assert((b + d).last() == d.last());
        if c.len() == 0 {
            lemma_among_add(a, b, c, d.drop_last());
        } else if among(c, d.drop_last()) {
            lemma_among_add(a, b, c, d.drop_last());
        } else {
            lemma_among_add(a, b, c.drop_last(), d.drop_last());
            assert((a + c).drop_last() =~= a + c.drop_last());
            assert((a + c).last() == c.last());
        }
    }
}

/// A text that is empty or ends with a line feed.
spec fn whole(s: Seq<char>) -> bool {
    s.len() == 0 || s.last() == '\n'
}

proof fn lemma_line_feed_prefix(x: Seq<char>, z: Seq<char>, i: int)
    requires
        0 <= i <= x.len(),
        text::line_feed(x, i) is Some,
    ensures
        text::line_feed(x + z, i) == text::line_feed(x, i),
    decreases x.len() - i,
{
    assert((x + z)[i] == x[i]);
    if x[i] != '\n' {
        lemma_line_feed_prefix(x, z, i + 1);
    }
}

proof fn lemma_lines_add_from(x: Seq<char>, z: Seq<char>, i: int)
    requires
        0 <= i <= x.len(),
        whole(x),
    ensures
        text::lines(x + z, i) == text::lines(x, i) + text::lines(z, 0),
    decreases x.len() - i,
{
    let s = x + z;
    if i == x.len() {
        parser::lemma_lines_skip(s, i);
        assert(s.skip(i) =~= z);
        assert(text::lines(x, i) + text::lines(z, 0) =~= text::lines(z, 0));
    } else {
        parser::lemma_line_feed_bounds(x, i);
        assert(x[x.len() - 1] == '\n');
        lemma_line_feed_prefix(x, z, i);
        let j = text::line_feed(x, i)->0;
        lemma_lines_add_from(x, z, j + 1);
        assert(s.subrange(i, j) =~= x.subrange(i, j));
        assert(text::lines(s, i) =~= text::lines(x, i) + text::lines(z, 0));
    }
}

/// Whole lines in front leave the lines behind them as they are.
proof fn lemma_lines_add(x: Seq<char>, z: Seq<char>)
    requires
        whole(x),
    ensures
        text::lines(x + z, 0) == text::lines(x, 0) + text::lines(z, 0),
        whole(z) ==> whole(x + z),
{
    lemma_lines_add_from(x, z, 0);
    if z.len() == 0 {
        assert(x + z =~= x);
    }
}

/// Both texts are whole lines, and the second adds lines to the first.
spec fn widens(x: Seq<char>, y: Seq<char>) -> bool {
    &&& whole(x)
    &&& whole(y)
    &&& among(text::lines(x, 0), text::lines(y, 0))
}

proof fn lemma_widens_same(x: Seq<char>)
    requires
        whole(x),
    ensures
        widens(x, x),
{
    lemma_among_same(text::lines(x, 0));
}

proof fn lemma_widens_add(x: Seq<char>, y: Seq<char>, u: Seq<char>, v: Seq<char>)
    requires
        widens(x, y),
        widens(u, v),
    ensures
        widens(x + u, y + v),
{
    lemma_lines_add(x, u);
    lemma_lines_add(y, v);
    lemma_among_add(text::lines(x, 0), text::lines(y, 0), text::lines(u, 0), text::lines(v, 0));
}

proof fn lemma_line_end(s: Seq<char>)
    ensures
        whole(s + "\n"@),
{
    reveal_strlit("\n");
}

proof fn lemma_assertion_lines_widen(assertions: Seq<AssertionView>, style: StyleView, n: nat)
    ensures
        widens(
            assertion_lines(assertions, style, false, n),
            assertion_lines(assertions, style, true, n),
        ),
    decreases n,
{
    if n != 0 && n <= assertions.len() {
        let a = assertions[n - 1];
        let m = (n - 1) as nat;
        lemma_assertion_lines_widen(assertions, style, m);
        let long = assertion_line(a, style, true);
        if a.passed {
            lemma_line_end(
                "        "@ + style.green + "ok"@ + style.reset + " "@ + scope(a.test) + a.message,
            );
        } else {
            lemma_line_end(
                "        "@ + style.red + "not ok"@ + style.reset + " "@ + scope(a.test)
                    + a.message,
            );
            lemma_widens_same(long);
        }
        lemma_widens_add(
            assertion_lines(assertions, style, false, m),
            assertion_lines(assertions, style, true, m),
            assertion_line(a, style, false),
            long,
        );
    }
}

proof fn lemma_dim_lines_whole(
    texts: Seq<Seq<char>>,
    prefix: Seq<char>,
    style: StyleView,
    n: nat,
)
    ensures
        whole(dim_lines(texts, prefix, style, n)),
    decreases n,
{
    if n != 0 && n <= texts.len() {
        lemma_line_end(
            dim_lines(texts, prefix, style, (n - 1) as nat) + "        "@ + style.dim + prefix
                + texts[n - 1] + style.reset,
        );
    }
}

proof fn lemma_result_lines_widen(r: ResultView, style: StyleView)
    ensures
        widens(result_lines(r, style, false), result_lines(r, style, true)),
{
    reveal(result_lines);
    let head = head_line(r, style);
    lemma_line_end(
        "  "@ + mark_color(r.status, style) + mark(r.status) + style.reset + " "@ + r.name
            + http_part(r, style) + checks_part(r.assertions, style),
    );
    lemma_widens_same(head);
    let error = error_line(r, style);
    if let Some(e) = r.error {
        lemma_line_end("        "@ + style.red + e + style.reset);
    }
    lemma_widens_same(error);
    lemma_widens_add(head, head, error, error);
    let n = r.assertions.len();
    let short = assertion_lines(r.assertions, style, false, n);
    let long = assertion_lines(r.assertions, style, true, n);
    lemma_assertion_lines_widen(r.assertions, style, n);
    lemma_widens_add(head + error, head + error, short, long);
    let logs = dim_lines(r.logs, "log: "@, style, r.logs.len());
    lemma_dim_lines_whole(r.logs, "log: "@, style, r.logs.len());
    lemma_widens_same(logs);
    lemma_widens_add(head + error + short, head + error + long, logs, logs);
    let some = rendered_lines(r, style, true);
    if let Some(t) = r.rendered {
        let lines = text::lines(t, 0);
        lemma_dim_lines_whole(lines, "| "@, style, lines.len());
    }
    let none = rendered_lines(r, style, false);
    assert(text::lines(none, 0) =~= seq![]);
    lemma_widens_add(
        head + error + short + logs,
        head + error + long + logs,
        none,
        some,
    );
}

proof fn lemma_results_lines_widen(results: Seq<ResultView>, style: StyleView, n: nat)
    ensures
        widens(
            results_lines(results, style, false, n),
            results_lines(results, style, true, n),
        ),
    decreases n,
{
    if n != 0 && n <= results.len() {
        let m = (n - 1) as nat;
        lemma_results_lines_widen(results, style, m);
        lemma_result_lines_widen(results[n - 1], style);
        lemma_widens_add(
            results_lines(results, style, false, m),
            results_lines(results, style, true, m),
            result_lines(results[n - 1], style, false),
            result_lines(results[n - 1], style, true),
        );
    }
}

proof fn lemma_files_lines_widen(files: Seq<FileResultView>, style: StyleView, n: nat)
    ensures
        widens(files_lines(files, style, false, n), files_lines(files, style, true, n)),
    decreases n,
{
    if n != 0 && n <= files.len() {
        let file = files[n - 1];
        let m = (n - 1) as nat;
        let k = file.results.len();
        lemma_files_lines_widen(files, style, m);
        lemma_results_lines_widen(file.results, style, k);
        let short = files_lines(files, style, false, m);
        let long = files_lines(files, style, true, m);
        let head = style.bold + file.path + style.reset + "\n"@;
        lemma_line_end(style.bold + file.path + style.reset);
        lemma_widens_same(head);
        lemma_widens_add(short, long, head, head);
        assert(short + head =~= short + style.bold + file.path + style.reset + "\n"@);
        assert(long + head =~= long + style.bold + file.path + style.reset + "\n"@);
        lemma_widens_add(
            short + head,
            long + head,
            results_lines(file.results, style, false, k),
            results_lines(file.results, style, true, k),
        );
    }
}

/// Verbose output only adds lines: every line of the short report stands in
/// the long one, in the same order, and both end with the summary.
pub proof fn law_verbose_only_adds_lines(files: Seq<FileResultView>, style: StyleView)
    ensures
        among(
            text::lines(console_text(files, style, false), 0),
            text::lines(console_text(files, style, true), 0),
        ),
        text::ends(console_text(files, style, false), summary_line(files, style)),
        text::ends(console_text(files, style, true), summary_line(files, style)),
{
    let n = files.len();
    let short = files_lines(files, style, false, n);
    let long = files_lines(files, style, true, n);
    let line = summary_line(files, style);
    lemma_files_lines_widen(files, style, n);
    lemma_lines_add(short, line);
    lemma_lines_add(long, line);
    lemma_among_same(text::lines(line, 0));
    lemma_among_add(
        text::lines(short, 0),
        text::lines(long, 0),
        text::lines(line, 0),
        text::lines(line, 0),
    );
    assert((short + line).skip(short.len() as int) =~= line);
    assert((long + line).skip(long.len() as int) =~= line);
}

} // verus!
