//! Command-line interface: argument parsing and the mapping of outcomes to
//! exit codes.
//!
//! Exit codes: `0` everything passed, `1` at least one request failed or
//! errored, `2` usage / parse / environment problems.

use crate::duration::Duration;
use crate::number;
use crate::report;
use crate::report::Style;
use crate::runner;
use crate::runner::{
    FileResult, FileResultView, Options, OptionsView, RequestResult, ResultView, Status,
};
use crate::text;
use vstd::prelude::*;
use vstd::slice::slice_subrange;

verus! {

/// The version of the program.
pub const VERSION: &'static str = "0.1.0";

pub const USAGE: &'static str = "\
reqrun — run JetBrains-style .http request files with assertions

USAGE:
    reqrun [OPTIONS] <FILE>...

ARGS:
    <FILE>...             one or more .http files, run in order

OPTIONS:
    -e, --env <NAME>      environment from http-client.env.json (+ private file)
        --env-file <PATH> explicit env file (default: next to each .http file)
        --var <K=V>       set/override a variable (repeatable)
    -r, --request <NAME>  run only the named request(s) (repeatable)
        --timeout <DUR>   per-request timeout, e.g. 5s, 500ms, 2m (default 30s)
        --strict          fail requests without assertions when status >= 400
        --fail-fast       stop at the first failure; remaining requests skip
        --dry-run         resolve variables and print requests, send nothing
    -l, --list            list request names and methods without running
        --report <PATH>   write a JUnit XML report
    -v, --verbose         show response heads and passing checks
        --no-color        disable ANSI colors (also honors NO_COLOR)
    -h, --help            print this help
    -V, --version         print version

EXIT CODES:
    0 all requests passed    1 failures or errors    2 usage/parse/env error
";

#[derive(Debug)]
pub struct Cli {
    pub files: Vec<String>,
    pub options: Options,
    pub list: bool,
    pub report_path: Option<String>,
    pub verbose: bool,
    pub no_color: bool,
}

/// What a command line holds.
#[verifier::ext_equal]
pub struct CliView {
    pub files: Seq<Seq<char>>,
    pub options: OptionsView,
    pub list: bool,
    pub report_path: Option<Seq<char>>,
    pub verbose: bool,
    pub no_color: bool,
}

impl View for Cli {
    type V = CliView;

    open spec fn view(&self) -> CliView {
        CliView {
            files: text::texts(self.files@),
            options: self.options@,
            list: self.list,
            report_path: text::opt_text(self.report_path),
            verbose: self.verbose,
            no_color: self.no_color,
        }
    }
}

/// What the argument parser decided.
#[derive(Debug)]
pub enum Parsed {
    Run(Box<Cli>),
    Help,
    Version,
}

/// What a decision stands for.
pub enum ParsedView {
    Run(CliView),
    Help,
    Version,
}

impl View for Parsed {
    type V = ParsedView;

    open spec fn view(&self) -> ParsedView {
        match self {
            Parsed::Run(cli) => ParsedView::Run(cli@),
            Parsed::Help => ParsedView::Help,
            Parsed::Version => ParsedView::Version,
        }
    }
}

// ---------------------------------------------------------- durations ----

/// The number and the unit of a duration; a bare number means seconds.
pub open spec fn duration_parts(t: Seq<char>) -> (Seq<char>, Seq<char>) {
    let k = number::digit_run(t, 0);
    if k < t.len() {
        (t.take(k), t.skip(k))
    } else {
        (t, "s"@)
    }
}

/// The duration that a text stands for.
pub open spec fn duration_of(s: Seq<char>) -> Result<Duration, Seq<char>> {
    let t = text::trimmed(s);
    let (digits, unit) = duration_parts(t);
    match text::unsigned(digits, 10, u64::MAX as nat) {
        None => Err("invalid duration '"@ + t + "'"@),
        Some(n) => if unit == "ms"@ {
            Ok(Duration { secs: (n / 1000) as u64, nanos: (n % 1000 * 1_000_000) as u32 })
        } else if unit == "s"@ {
            Ok(Duration { secs: n as u64, nanos: 0 })
        } else if unit == "m"@ {
            Ok(Duration { secs: (n * 60) as u64, nanos: 0 })
        } else {
            Err("invalid duration unit '"@ + unit + "' (use ms, s or m)"@)
        },
    }
}

/// A duration in minutes must be countable in seconds.
pub open spec fn duration_fits(s: Seq<char>) -> bool {
    let (digits, unit) = duration_parts(text::trimmed(s));
    unit == "m"@ ==> (text::unsigned(digits, 10, u64::MAX as nat) matches Some(n) ==> n * 60
        <= u64::MAX)
}

fn split_duration<'a>(t: &'a [char]) -> (r: (&'a [char], String))
    ensures
        (r.0@, r.1@) == duration_parts(t@),
{
    let mut k: usize = 0;
    while k < t.len() && text::is_ascii_digit(t[k])
        invariant
            k <= t.len(),
            number::digit_run(t@, 0) == number::digit_run(t@, k as int),
        decreases t.len() - k,
    {
        k += 1;
    }
    if k < t.len() {
        (slice_subrange(t, 0, k), text::string(slice_subrange(t, k, t.len())))
    } else {
        (t, text::owned("s"))
    }
}

/// Whether a duration in minutes is countable in seconds.
pub fn duration_in_range(s: &str) -> (r: bool)
    ensures
        r == duration_fits(s@),
{
    let chars: Vec<char> = text::chars(s);
    let (digits, unit): (&[char], String) = split_duration(text::trim(chars.as_slice()));
    if !text::same_str(unit.as_str(), "m") {
        return true;
    }
    match text::parse_unsigned(digits, 10, u64::MAX) {
        Some(n) => n <= u64::MAX / 60,
        None => true,
    }
}

/// What the result of parsing a duration holds.
pub open spec fn duration_result(r: Result<Duration, String>) -> Result<Duration, Seq<char>> {
    match r {
        Ok(d) => Ok(d),
        Err(e) => Err(e@),
    }
}

/// Durations like `500ms`, `5s`, `2m`; a bare number means seconds.
pub fn parse_duration(s: &str) -> (r: Result<Duration, String>)
    requires
        duration_fits(s@),
    ensures
        duration_result(r) == duration_of(s@),
{
    let chars: Vec<char> = text::chars(s);
    let t: &[char] = text::trim(chars.as_slice());
    let (digits, unit): (&[char], String) = split_duration(t);
    let n: u64 = match text::parse_unsigned(digits, 10, u64::MAX) {
        Some(n) => n,
        None => {
            let t: String = text::string(t);
            return Err(text::concat3("invalid duration '", t.as_str(), "'"));
        },
    };
    if text::same_str(unit.as_str(), "ms") {
        Ok(Duration::from_millis(n))
    } else if text::same_str(unit.as_str(), "s") {
        Ok(Duration::from_secs(n))
    } else if text::same_str(unit.as_str(), "m") {
        Ok(Duration::from_secs(n * 60))
    } else {
        Err(text::concat3("invalid duration unit '", unit.as_str(), "' (use ms, s or m)"))
    }
}

// ---------------------------------------------------------- arguments ----

/// The options that take the next argument as their value.
pub open spec fn takes_value(arg: Seq<char>) -> bool {
    ||| arg == "-e"@
    ||| arg == "--env"@
    ||| arg == "--env-file"@
    ||| arg == "--var"@
    ||| arg == "-r"@
    ||| arg == "--request"@
    ||| arg == "--timeout"@
    ||| arg == "--report"@
}

/// The options that stand alone.
pub open spec fn is_switch(arg: Seq<char>) -> bool {
    ||| arg == "--strict"@
    ||| arg == "--fail-fast"@
    ||| arg == "--dry-run"@
    ||| arg == "-l"@
    ||| arg == "--list"@
    ||| arg == "-v"@
    ||| arg == "--verbose"@
    ||| arg == "--no-color"@
}

/// What ends the parsing at argument `i`, if anything does.
pub open spec fn stop_at(args: Seq<Seq<char>>, i: int) -> Option<Result<ParsedView, Seq<char>>> {
    let arg = args[i];
    if arg == "-h"@ || arg == "--help"@ {
        Some(Ok(ParsedView::Help))
    } else if arg == "-V"@ || arg == "--version"@ {
        Some(Ok(ParsedView::Version))
    } else if takes_value(arg) {
        if i + 1 >= args.len() {
            Some(Err(arg + " needs a value"@))
        } else if arg == "--var"@ && text::split_once_at(args[i + 1], "="@) is None {
            Some(Err("--var needs name=value, got '"@ + args[i + 1] + "'"@))
        } else if arg == "--timeout"@ {
            match duration_of(args[i + 1]) {
                Err(e) => Some(Err(e)),
                Ok(_) => None,
            }
        } else {
            None
        }
    } else if !is_switch(arg) && text::starts(arg, "-"@) {
        Some(Err("unknown option '"@ + arg + "' (see --help)"@))
    } else {
        None
    }
}

/// The command line after argument `i` took effect.
pub open spec fn applied(args: Seq<Seq<char>>, i: int, cli: CliView) -> CliView {
    let arg = args[i];
    let value = args[i + 1];
    let options = cli.options;
    if arg == "-e"@ || arg == "--env"@ {
        CliView { options: OptionsView { env: Some(value), ..options }, ..cli }
    } else if arg == "--env-file"@ {
        CliView { options: OptionsView { env_file: Some(value), ..options }, ..cli }
    } else if arg == "--var"@ {
        let (k, v) = text::split_once_at(value, "="@)->0;
        CliView {
            options: OptionsView {
                overrides: options.overrides.push((text::trimmed(k), v)),
                ..options
            },
            ..cli
        }
    } else if arg == "-r"@ || arg == "--request"@ {
        CliView { options: OptionsView { filter: options.filter.push(value), ..options }, ..cli }
    } else if arg == "--timeout"@ {
        CliView {
            options: OptionsView { timeout: duration_of(value)->Ok_0, ..options },
            ..cli
        }
    } else if arg == "--report"@ {
        CliView { report_path: Some(value), ..cli }
    } else if arg == "--strict"@ {
        CliView { options: OptionsView { strict: true, ..options }, ..cli }
    } else if arg == "--fail-fast"@ {
        CliView { options: OptionsView { fail_fast: true, ..options }, ..cli }
    } else if arg == "--dry-run"@ {
        CliView { options: OptionsView { dry_run: true, ..options }, ..cli }
    } else if arg == "-l"@ || arg == "--list"@ {
        CliView { list: true, ..cli }
    } else if arg == "-v"@ || arg == "--verbose"@ {
        CliView { verbose: true, ..cli }
    } else if arg == "--no-color"@ {
        CliView { no_color: true, ..cli }
    } else {
        CliView { files: cli.files.push(arg), ..cli }
    }
}

/// The argument after argument `i` and its value.
pub open spec fn next_arg(args: Seq<Seq<char>>, i: int) -> int {
    if takes_value(args[i]) {
        i + 2
    } else {
        i + 1
    }
}

/// What the arguments from `i` on lead to.
pub open spec fn args_from(args: Seq<Seq<char>>, i: int, cli: CliView) -> Result<
    ParsedView,
    Seq<char>,
>
    decreases args.len() - i,
{
    if i < 0 || i >= args.len() {
        if cli.files.len() == 0 {
            Err("no .http files given (see --help)"@)
        } else {
            Ok(ParsedView::Run(cli))
        }
    } else {
        match stop_at(args, i) {
            Some(r) => r,
            None => args_from(args, next_arg(args, i), applied(args, i, cli)),
        }
    }
}

/// The timeout at argument `i`, if there is one, is countable in seconds.
pub open spec fn timeout_fits(args: Seq<Seq<char>>, i: int) -> bool {
    args[i] == "--timeout"@ && i + 1 < args.len() ==> duration_fits(args[i + 1])
}

/// Every timeout that the parser reaches from `i` on is countable in seconds.
pub open spec fn timeouts_fit(args: Seq<Seq<char>>, i: int) -> bool
    decreases args.len() - i,
{
    if i < 0 || i >= args.len() {
        true
    } else {
        timeout_fits(args, i) && (stop_at(args, i) is None ==> timeouts_fit(
            args,
            next_arg(args, i),
        ))
    }
}

/// The command line before any argument.
pub open spec fn no_args() -> CliView {
    CliView {
        files: seq![],
        options: runner::default_options(),
        list: false,
        report_path: None,
        verbose: false,
        no_color: false,
    }
}

fn one_of(arg: &str, a: &str, b: &str) -> (r: bool)
    ensures
        r == (arg@ == a@ || arg@ == b@),
{
    text::same_str(arg, a) || text::same_str(arg, b)
}

fn wants_value(arg: &str) -> (r: bool)
    ensures
        r == takes_value(arg@),
{
    one_of(arg, "-e", "--env") || text::same_str(arg, "--env-file") || text::same_str(arg, "--var")
        || one_of(arg, "-r", "--request") || text::same_str(arg, "--timeout") || text::same_str(
        arg,
        "--report",
    )
}

fn switch(arg: &str) -> (r: bool)
    ensures
        r == is_switch(arg@),
{
    text::same_str(arg, "--strict") || text::same_str(arg, "--fail-fast") || text::same_str(
        arg,
        "--dry-run",
    ) || one_of(arg, "-l", "--list") || one_of(arg, "-v", "--verbose") || text::same_str(
        arg,
        "--no-color",
    )
}

/// What an early end of parsing stands for.
spec fn stop_result(r: Option<Result<Parsed, String>>) -> Option<Result<ParsedView, Seq<char>>> {
    match r {
        None => None,
        Some(Ok(p)) => Some(Ok(p@)),
        Some(Err(e)) => Some(Err(e@)),
    }
}

fn check_arg(args: &[String], i: usize) -> (r: Option<Result<Parsed, String>>)
    requires
        i < args@.len(),
        timeout_fits(text::texts(args@), i as int),
    ensures
        stop_result(r) == stop_at(text::texts(args@), i as int),
{
    let ghost all = text::texts(args@);
    assert(all[i as int] == args@[i as int]@);
    let arg: &str = args[i].as_str();
    if one_of(arg, "-h", "--help") {
        return Some(Ok(Parsed::Help));
    }
    if one_of(arg, "-V", "--version") {
        return Some(Ok(Parsed::Version));
    }
    if wants_value(arg) {
        if args.len() - i <= 1 {
            return Some(Err(text::concat2(arg, " needs a value")));
        }
        assert(all[i + 1] == args@[i + 1]@);
        let value: &str = args[i + 1].as_str();
        if text::same_str(arg, "--var") {
            let chars: Vec<char> = text::chars(value);
            if text::split_once(chars.as_slice(), "=").is_none() {
                return Some(Err(text::concat3("--var needs name=value, got '", value, "'")));
            }
        }
        if text::same_str(arg, "--timeout") {
            if let Err(e) = parse_duration(value) {
                return Some(Err(e));
            }
        }
        return None;
    }
    let chars: Vec<char> = text::chars(arg);
    if !switch(arg) && text::starts_with(chars.as_slice(), "-") {
        return Some(Err(text::concat3("unknown option '", arg, "' (see --help)")));
    }
    None
}

fn split_pair(value: &str) -> (r: (String, String))
    requires
        text::split_once_at(value@, "="@) is Some,
    ensures
        ({
            let (k, v) = text::split_once_at(value@, "="@)->0;
            r.0@ == text::trimmed(k) && r.1@ == v
        }),
{
    let chars: Vec<char> = text::chars(value);
    let (k, v): (&[char], &[char]) = text::split_once(chars.as_slice(), "=").unwrap();
    (text::string(text::trim(k)), text::string(v))
}

fn apply_value(args: &[String], i: usize, cli: &mut Cli)
    requires
        i + 1 < args@.len(),
        takes_value(args@[i as int]@),
        stop_at(text::texts(args@), i as int) is None,
        timeout_fits(text::texts(args@), i as int),
    ensures
        final(cli)@ == applied(text::texts(args@), i as int, old(cli)@),
{
    assert(args.len() == args@.len());
    let ghost all = text::texts(args@);
    assert(all[i as int] == args@[i as int]@);
    assert(all[i + 1] == args@[i + 1]@);
    let ghost before = cli@;
    let arg: &str = args[i].as_str();
    let value: String = text::owned(args[i + 1].as_str());
    if one_of(arg, "-e", "--env") {
        cli.options.env = Some(value);
    } else if text::same_str(arg, "--env-file") {
        cli.options.env_file = Some(value);
    } else if text::same_str(arg, "--var") {
        let (k, v): (String, String) = split_pair(value.as_str());
        cli.options.overrides.push((k, v));
        assert(text::pairs(cli.options.overrides@) =~= before.options.overrides.push((k@, v@)));
    } else if one_of(arg, "-r", "--request") {
        cli.options.filter.push(value);
        assert(text::texts(cli.options.filter@) =~= before.options.filter.push(value@));
    } else if text::same_str(arg, "--timeout") {
        if let Ok(d) = parse_duration(value.as_str()) {
            cli.options.timeout = d;
        }
    } else {
        cli.report_path = Some(value);
    }
    assert(cli@ =~= applied(all, i as int, before));
}

fn apply_plain(args: &[String], i: usize, cli: &mut Cli)
    requires
        i < args@.len(),
        !takes_value(args@[i as int]@),
    ensures
        final(cli)@ == applied(text::texts(args@), i as int, old(cli)@),
{
    let ghost all = text::texts(args@);
    assert(all[i as int] == args@[i as int]@);
    let ghost before = cli@;
    let arg: &str = args[i].as_str();
    if text::same_str(arg, "--strict") {
        cli.options.strict = true;
    } else if text::same_str(arg, "--fail-fast") {
        cli.options.fail_fast = true;
    } else if text::same_str(arg, "--dry-run") {
        cli.options.dry_run = true;
    } else if one_of(arg, "-l", "--list") {
        cli.list = true;
    } else if one_of(arg, "-v", "--verbose") {
        cli.verbose = true;
    } else if text::same_str(arg, "--no-color") {
        cli.no_color = true;
    } else {
        let file: String = text::owned(arg);
        cli.files.push(file);
        assert(text::texts(cli.files@) =~= before.files.push(file@));
    }
    assert(cli@ =~= applied(all, i as int, before));
}

/// Whether every timeout that the parser reaches is countable in seconds.
pub fn timeouts_in_range(args: &[String]) -> (r: bool)
    ensures
        r == timeouts_fit(text::texts(args@), 0),
{
    let ghost all = text::texts(args@);
    let mut i: usize = 0;
    while i < args.len()
        invariant
            i <= args.len(),
            all == text::texts(args@),
            timeouts_fit(all, 0) == timeouts_fit(all, i as int),
        decreases args.len() - i,
    {
        assert(all[i as int] == args@[i as int]@);
        let arg: &str = args[i].as_str();
        if text::same_str(arg, "--timeout") && args.len() - i > 1 {
            assert(all[i + 1] == args@[i + 1]@);
            if !duration_in_range(args[i + 1].as_str()) {
                return false;
            }
        }
        if check_arg(args, i).is_some() {
            return true;
        }
        if wants_value(arg) {
            i += 2;
        } else {
            i += 1;
        }
    }
    true
}

/// What the result of parsing arguments holds.
pub open spec fn parsed_result(r: Result<Parsed, String>) -> Result<ParsedView, Seq<char>> {
    match r {
        Ok(p) => Ok(p@),
        Err(e) => Err(e@),
    }
}

/// Parse `argv[1..]`. Errors are usage errors (exit 2).
pub fn parse_args(args: &[String]) -> (r: Result<Parsed, String>)
    requires
        timeouts_fit(text::texts(args@), 0),
    ensures
        parsed_result(r) == args_from(text::texts(args@), 0, no_args()),
{
    let ghost all = text::texts(args@);
    let mut cli: Cli = Cli {
        files: Vec::new(),
        options: Options::default(),
        list: false,
        report_path: None,
        verbose: false,
        no_color: false,
    };
    assert(cli@ =~= no_args());
    let mut i: usize = 0;
    while i < args.len()
        invariant
            i <= args.len(),
            all == text::texts(args@),
            timeouts_fit(all, i as int),
            args_from(all, 0, no_args()) == args_from(all, i as int, cli@),
        decreases args.len() - i,
    {
        assert(all[i as int] == args@[i as int]@);
        match check_arg(args, i) {
            Some(r) => {
                return r;
            },
            None => {},
        }
        if wants_value(args[i].as_str()) {
            apply_value(args, i, &mut cli);
            i += 2;
        } else {
            apply_plain(args, i, &mut cli);
            i += 1;
        }
    }
    if cli.files.len() == 0 {
        return Err(text::owned("no .http files given (see --help)"));
    }
    Ok(Parsed::Run(Box::new(cli)))
}

// ------------------------------------------------------------- output ----

/// Some result failed or errored.
pub open spec fn any_bad(files: Seq<FileResultView>) -> bool {
    exists|i: int, k: int|
        0 <= i < files.len() && 0 <= k < files[i].results.len() && bad(
            #[trigger] files[i].results[k],
        )
}

/// The result failed or errored.
pub open spec fn bad(r: ResultView) -> bool {
    r.status == Status::Failed || r.status == Status::Error
}

fn file_is_bad(file: &FileResult) -> (r: bool)
    ensures
        r == exists|k: int| 0 <= k < file@.results.len() && bad(#[trigger] file@.results[k]),
{
    let ghost all = file@.results;
    let mut k: usize = 0;
    while k < file.results.len()
        invariant
            k <= file.results.len(),
            all == file@.results,
            forall|j: int| 0 <= j < k ==> !bad(#[trigger] all[j]),
        decreases file.results.len() - k,
    {
        assert(all[k as int] == file.results@[k as int]@);
        if file.results[k].status == Status::Failed || file.results[k].status == Status::Error {
            assert(bad(all[k as int]));
            return true;
        }
        k += 1;
    }
    false
}

/// The exit code of a run: `1` if some request failed or errored, else `0`.
pub fn exit_code(results: &[FileResult]) -> (r: i32)
    ensures
        r == if any_bad(runner::file_views(results@)) {
            1i32
        } else {
            0i32
        },
{
    let ghost all = runner::file_views(results@);
    let mut i: usize = 0;
    while i < results.len()
        invariant
            i <= results.len(),
            all == runner::file_views(results@),
            forall|j: int, k: int|
                0 <= j < i && 0 <= k < all[j].results.len() ==> !bad(
                    #[trigger] all[j].results[k],
                ),
        decreases results.len() - i,
    {
        assert(all[i as int] == results@[i as int]@);
        if file_is_bad(&results[i]) {
            return 1;
        }
        i += 1;
    }
    0
}

/// What a dry run prints of one request.
pub open spec fn dry_entry(path: Seq<char>, r: ResultView) -> Seq<char> {
    let title = "### "@ + r.name + " ("@ + path + ")\n"@;
    match (r.rendered, r.error) {
        (Some(t), _) => title + t + "\n\n"@,
        (None, Some(e)) => title + "ERROR: "@ + e + "\n\n"@,
        (None, None) => seq![],
    }
}

/// What a dry run prints of the first `n` requests of a file.
pub open spec fn dry_entries(path: Seq<char>, results: Seq<ResultView>, n: nat) -> Seq<char>
    decreases n,
{
    if n == 0 || n > results.len() {
        seq![]
    } else {
        dry_entries(path, results, (n - 1) as nat) + dry_entry(path, results[n - 1])
    }
}

/// What a dry run prints of the first `n` files.
pub open spec fn dry_files(files: Seq<FileResultView>, n: nat) -> Seq<char>
    decreases n,
{
    if n == 0 || n > files.len() {
        seq![]
    } else {
        dry_files(files, (n - 1) as nat) + dry_entries(
            files[n - 1].path,
            files[n - 1].results,
            files[n - 1].results.len(),
        )
    }
}

fn append_dry(out: &mut String, path: &str, r: &RequestResult)
    ensures
        final(out)@ == old(out)@ + dry_entry(path@, r@),
{
    let ghost start = out@;
    if r.rendered.is_none() && r.error.is_none() {
        assert(out@ =~= start + dry_entry(path@, r@));
        return;
    }
    out.append("### ");
    out.append(r.name.as_str());
    out.append(" (");
    out.append(path);
    out.append(")\n");
    match &r.rendered {
        Some(t) => out.append(t.as_str()),
        None => {
            out.append("ERROR: ");
            if let Some(e) = &r.error {
                out.append(e.as_str());
            }
        },
    }
    out.append("\n\n");
    assert(out@ =~= start + dry_entry(path@, r@));
}

fn append_dry_file(out: &mut String, file: &FileResult)
    ensures
        final(out)@ == old(out)@ + dry_entries(
            file@.path,
            file@.results,
            file@.results.len(),
        ),
{
    let ghost start = out@;
    let ghost all = file@.results;
    let mut k: usize = 0;
    assert(start + dry_entries(file@.path, all, 0) =~= start);
    while k < file.results.len()
        invariant
            k <= file.results.len(),
            all == file@.results,
            out@ == start + dry_entries(file@.path, all, k as nat),
        decreases file.results.len() - k,
    {
        assert(all[k as int] == file.results@[k as int]@);
        append_dry(out, file.path.as_str(), &file.results[k]);
        k += 1;
        assert(out@ =~= start + dry_entries(file@.path, all, k as nat));
    }
}

/// What `--dry-run` prints.
pub fn dry_run_text(results: &[FileResult]) -> (r: String)
    ensures
        r@ == dry_files(runner::file_views(results@), results@.len()),
{
    let ghost all = runner::file_views(results@);
    let mut out: String = String::new();
    let mut i: usize = 0;
    assert(out@ =~= dry_files(all, 0));
    while i < results.len()
        invariant
            i <= results.len(),
            all == runner::file_views(results@),
            out@ == dry_files(all, i as nat),
        decreases results.len() - i,
    {
        assert(all[i as int] == results@[i as int]@);
        append_dry_file(&mut out, &results[i]);
        i += 1;
    }
    out
}

/// The first `n` names as indented lines.
pub open spec fn name_lines(names: Seq<Seq<char>>, n: nat) -> Seq<char>
    decreases n,
{
    if n == 0 || n > names.len() {
        seq![]
    } else {
        name_lines(names, (n - 1) as nat) + "  "@ + names[n - 1] + "\n"@
    }
}

/// The first `n` files of a listing.
pub open spec fn listing_lines(listing: Seq<(Seq<char>, Seq<Seq<char>>)>, n: nat) -> Seq<char>
    decreases n,
{
    if n == 0 || n > listing.len() {
        seq![]
    } else {
        listing_lines(listing, (n - 1) as nat) + listing[n - 1].0 + "\n"@ + name_lines(
            listing[n - 1].1,
            listing[n - 1].1.len(),
        )
    }
}

fn append_names(out: &mut String, names: &Vec<String>)
    ensures
        final(out)@ == old(out)@ + name_lines(text::texts(names@), names@.len()),
{
    let ghost start = out@;
    let ghost all = text::texts(names@);
    let mut k: usize = 0;
    assert(start + name_lines(all, 0) =~= start);
    while k < names.len()
        invariant
            k <= names.len(),
            all == text::texts(names@),
            out@ == start + name_lines(all, k as nat),
        decreases names.len() - k,
    {
        out.append("  ");
        out.append(names[k].as_str());
        out.append("\n");
        k += 1;
        assert(out@ =~= start + name_lines(all, k as nat));
    }
}

/// What `--list` prints.
pub fn listing_text(listing: &Vec<(String, Vec<String>)>) -> (r: String)
    ensures
        r@ == listing_lines(runner::listing_views(listing@), listing@.len()),
{
    let ghost all = runner::listing_views(listing@);
    let mut out: String = String::new();
    let mut i: usize = 0;
    assert(out@ =~= listing_lines(all, 0));
    while i < listing.len()
        invariant
            i <= listing.len(),
            all == runner::listing_views(listing@),
            out@ == listing_lines(all, i as nat),
        decreases listing.len() - i,
    {
        assert(all[i as int] == (listing@[i as int].0@, text::texts(listing@[i as int].1@)));
        out.append(listing[i].0.as_str());
        out.append("\n");
        append_names(&mut out, &listing[i].1);
        i += 1;
        assert(out@ =~= listing_lines(all, i as nat));
    }
    out
}

// ------------------------------------------------------------ answers ----

/// What the program says and how it ends.
#[derive(Debug)]
pub struct Answer {
    pub stdout: String,
    pub stderr: String,
    pub code: i32,
}

/// What an answer holds.
#[verifier::ext_equal]
pub struct AnswerView {
    pub stdout: Seq<char>,
    pub stderr: Seq<char>,
    pub code: i32,
}

impl View for Answer {
    type V = AnswerView;

    open spec fn view(&self) -> AnswerView {
        AnswerView { stdout: self.stdout@, stderr: self.stderr@, code: self.code }
    }
}

/// The answer to a usage, parse or environment problem.
pub open spec fn refused(message: Seq<char>) -> AnswerView {
    AnswerView { stdout: seq![], stderr: "reqrun: "@ + message + "\n"@, code: 2 }
}

/// The answer that prints a text and ends well.
pub open spec fn told(text: Seq<char>) -> AnswerView {
    AnswerView { stdout: text, stderr: seq![], code: 0 }
}

/// Answer a problem that keeps the run from being set up.
pub fn refuse(message: &str) -> (r: Answer)
    ensures
        r@ == refused(message@),
{
    let r: Answer = Answer {
        stdout: String::new(),
        stderr: text::concat3("reqrun: ", message, "\n"),
        code: 2,
    };
    assert(r@ =~= refused(message@));
    r
}

fn tell(text: String) -> (r: Answer)
    ensures
        r@ == told(text@),
{
    let r: Answer = Answer { stdout: text, stderr: String::new(), code: 0 };
    assert(r@ =~= told(text@));
    r
}

/// What the arguments ask for.
#[derive(Debug)]
pub enum Opening {
    /// Nothing but this answer.
    Say(Answer),
    /// The requests of the files, listed.
    List(Box<Cli>),
    /// The files, run.
    Run(Box<Cli>),
}

/// What an opening stands for.
pub enum OpeningView {
    Say(AnswerView),
    List(CliView),
    Run(CliView),
}

impl View for Opening {
    type V = OpeningView;

    open spec fn view(&self) -> OpeningView {
        match self {
            Opening::Say(a) => OpeningView::Say(a@),
            Opening::List(cli) => OpeningView::List(cli@),
            Opening::Run(cli) => OpeningView::Run(cli@),
        }
    }
}

/// What follows from the parsed arguments.
pub open spec fn opening(parsed: Result<ParsedView, Seq<char>>) -> OpeningView {
    match parsed {
        Err(e) => OpeningView::Say(refused(e)),
        Ok(ParsedView::Help) => OpeningView::Say(told(USAGE@)),
        Ok(ParsedView::Version) => OpeningView::Say(told("reqrun "@ + VERSION@ + "\n"@)),
        Ok(ParsedView::Run(cli)) => if cli.list {
            OpeningView::List(cli)
        } else {
            OpeningView::Run(cli)
        },
    }
}

/// Decide what the arguments ask for.
pub fn begin(args: &[String]) -> (r: Opening)
    requires
        timeouts_fit(text::texts(args@), 0),
    ensures
        r@ == opening(args_from(text::texts(args@), 0, no_args())),
{
    match parse_args(args) {
        Err(e) => Opening::Say(refuse(e.as_str())),
        Ok(Parsed::Help) => Opening::Say(tell(text::owned(USAGE))),
        Ok(Parsed::Version) => Opening::Say(tell(text::concat3("reqrun ", VERSION, "\n"))),
        Ok(Parsed::Run(cli)) => if cli.list {
            Opening::List(cli)
        } else {
            Opening::Run(cli)
        },
    }
}

/// The answer to `--list`.
pub fn list_answer(listing: Result<Vec<(String, Vec<String>)>, String>) -> (r: Answer)
    ensures
        r@ == match listing {
            Ok(l) => told(listing_lines(runner::listing_views(l@), l@.len())),
            Err(e) => refused(e@),
        },
{
    match listing {
        Ok(l) => tell(listing_text(&l)),
        Err(e) => refuse(e.as_str()),
    }
}

/// Whether the report is colored.
pub fn wants_color(no_color: bool, no_color_set: bool, terminal: bool) -> (r: bool)
    ensures
        r == (!no_color && !no_color_set && terminal),
{
    !no_color && !no_color_set && terminal
}

/// What a run prints, and its exit code.
pub open spec fn run_told(files: Seq<FileResultView>, cli: CliView, color: bool) -> AnswerView {
    AnswerView {
        stdout: if cli.options.dry_run {
            dry_files(files, files.len())
        } else {
            report::files_lines(files, report::palette(color), cli.verbose, files.len())
                + report::summary_line(files, report::palette(color))
        },
        stderr: seq![],
        code: if any_bad(files) {
            1
        } else {
            0
        },
    }
}

/// The answer to a run that could be set up.
pub fn run_answer(results: &[FileResult], cli: &Cli, color: bool) -> (r: Answer)
    requires
        !cli.options.dry_run ==> report::countable(runner::file_views(results@)),
    ensures
        r@ == run_told(runner::file_views(results@), cli@, color),
{
    let stdout: String = if cli.options.dry_run {
        dry_run_text(results)
    } else {
        let style: Style = Style::colored(color);
        report::console(results, &style, cli.verbose)
    };
    let r: Answer = Answer { stdout, stderr: String::new(), code: exit_code(results) };
    assert(r@ =~= run_told(runner::file_views(results@), cli@, color));
    r
}

/// The answer when the report of a run cannot be written, after the run was
/// printed.
pub fn report_answer(path: &str, detail: &str) -> (r: Answer)
    ensures
        r@ == refused("cannot write report "@ + path@ + ": "@ + detail@),
{
    let message: String = text::concat4("cannot write report ", path, ": ", detail);
    refuse(message.as_str())
}

/// The exit code of a run is `0` exactly when no request failed or errored,
/// and otherwise `1`; `2` is left to problems outside the requests.
pub proof fn law_exit_codes(files: Seq<FileResultView>, cli: CliView, color: bool, message: Seq<char>)
    ensures
        run_told(files, cli, color).code == 0 <==> forall|i: int, k: int|
            0 <= i < files.len() && 0 <= k < files[i].results.len() ==> !bad(
                #[trigger] files[i].results[k],
            ),
        run_told(files, cli, color).code != 0 ==> run_told(files, cli, color).code == 1,
        refused(message).code == 2,
{
}

} // verus!
