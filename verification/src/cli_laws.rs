//! What each option of the command line does.

use crate::cli;
use crate::cli::{CliView, OpeningView, ParsedView};
use crate::duration::Duration;
use crate::number;
use crate::runner::{FileResultView, OptionsView, ResultView};
use crate::text;
use crate::text_laws;
use vstd::prelude::*;

verus! {

// ------------------------------------------------------------- options ----

/// All the options differ, and each begins with a dash.
#[verifier::spinoff_prover]
#[verifier::rlimit(80)]
proof fn lemma_options()
    ensures
        "-h"@ != "-V"@,
        "-h"@ != "-e"@,
        "-h"@ != "-r"@,
        "-h"@ != "-l"@,
        "-h"@ != "-v"@,
        "--help"@ != "--list"@,
        "-V"@ != "-e"@,
        "-V"@ != "-r"@,
        "-V"@ != "-l"@,
        "-V"@ != "-v"@,
        "--version"@ != "--request"@,
        "--version"@ != "--timeout"@,
        "--version"@ != "--dry-run"@,
        "--version"@ != "--verbose"@,
        "-e"@ != "-r"@,
        "-e"@ != "-l"@,
        "-e"@ != "-v"@,
        "--env"@ != "--var"@,
        "--env-file"@ != "--no-color"@,
        "-r"@ != "-l"@,
        "-r"@ != "-v"@,
        "--request"@ != "--timeout"@,
        "--request"@ != "--dry-run"@,
        "--request"@ != "--verbose"@,
        "--timeout"@ != "--dry-run"@,
        "--timeout"@ != "--verbose"@,
        "--report"@ != "--strict"@,
        "--dry-run"@ != "--verbose"@,
        "-l"@ != "-v"@,
        "-h"@.len() == 2,
        "--help"@.len() == 6,
        "-V"@.len() == 2,
        "--version"@.len() == 9,
        "-e"@.len() == 2,
        "--env"@.len() == 5,
        "--env-file"@.len() == 10,
        "--var"@.len() == 5,
        "-r"@.len() == 2,
        "--request"@.len() == 9,
        "--timeout"@.len() == 9,
        "--report"@.len() == 8,
        "--strict"@.len() == 8,
        "--fail-fast"@.len() == 11,
        "--dry-run"@.len() == 9,
        "-l"@.len() == 2,
        "--list"@.len() == 6,
        "-v"@.len() == 2,
        "--verbose"@.len() == 9,
        "--no-color"@.len() == 10,
{
    reveal_strlit("-h");
    reveal_strlit("--help");
    reveal_strlit("-V");
    reveal_strlit("--version");
    reveal_strlit("-e");
    reveal_strlit("--env");
    reveal_strlit("--env-file");
    reveal_strlit("--var");
    reveal_strlit("-r");
    reveal_strlit("--request");
    reveal_strlit("--timeout");
    reveal_strlit("--report");
    reveal_strlit("--strict");
    reveal_strlit("--fail-fast");
    reveal_strlit("--dry-run");
    reveal_strlit("-l");
    reveal_strlit("--list");
    reveal_strlit("-v");
    reveal_strlit("--verbose");
    reveal_strlit("--no-color");
    assert("-h"@[1] != "-V"@[1]);
    assert("-h"@[1] != "-e"@[1]);
    assert("-h"@[1] != "-r"@[1]);
    assert("-h"@[1] != "-l"@[1]);
    assert("-h"@[1] != "-v"@[1]);
    assert("--help"@[2] != "--list"@[2]);
    assert("-V"@[1] != "-e"@[1]);
    assert("-V"@[1] != "-r"@[1]);
    assert("-V"@[1] != "-l"@[1]);
    assert("-V"@[1] != "-v"@[1]);
    assert("--version"@[2] != "--request"@[2]);
    assert("--version"@[2] != "--timeout"@[2]);
    assert("--version"@[2] != "--dry-run"@[2]);
    assert("--version"@[5] != "--verbose"@[5]);
    assert("-e"@[1] != "-r"@[1]);
    assert("-e"@[1] != "-l"@[1]);
    assert("-e"@[1] != "-v"@[1]);
    assert("--env"@[2] != "--var"@[2]);
    assert("--env-file"@[2] != "--no-color"@[2]);
    assert("-r"@[1] != "-l"@[1]);
    assert("-r"@[1] != "-v"@[1]);
    assert("--request"@[2] != "--timeout"@[2]);
    assert("--request"@[2] != "--dry-run"@[2]);
    assert("--request"@[2] != "--verbose"@[2]);
    assert("--timeout"@[2] != "--dry-run"@[2]);
    assert("--timeout"@[2] != "--verbose"@[2]);
    assert("--report"@[2] != "--strict"@[2]);
    assert("--dry-run"@[2] != "--verbose"@[2]);
    assert("-l"@[1] != "-v"@[1]);
}

/// The options that there are.
pub open spec fn known(arg: Seq<char>) -> bool {
    ||| arg == "-h"@
    ||| arg == "--help"@
    ||| arg == "-V"@
    ||| arg == "--version"@
    ||| arg == "-e"@
    ||| arg == "--env"@
    ||| arg == "--env-file"@
    ||| arg == "--var"@
    ||| arg == "-r"@
    ||| arg == "--request"@
    ||| arg == "--timeout"@
    ||| arg == "--report"@
    ||| arg == "--strict"@
    ||| arg == "--fail-fast"@
    ||| arg == "--dry-run"@
    ||| arg == "-l"@
    ||| arg == "--list"@
    ||| arg == "-v"@
    ||| arg == "--verbose"@
    ||| arg == "--no-color"@
}

/// The value of a command line without arguments.
pub proof fn law_defaults()
    ensures
        ({
            let c = cli::no_args();
            &&& c.files.len() == 0 && !c.list && c.report_path is None && !c.verbose && !c.no_color
            &&& c.options.env is None && c.options.env_file is None
            &&& c.options.overrides.len() == 0 && c.options.filter.len() == 0
            &&& c.options.timeout == (Duration { secs: 30, nanos: 0 })
            &&& !c.options.fail_fast && !c.options.strict && !c.options.dry_run
        }),
{
}

/// Each option sets what it names, and nothing else; the arguments behind it
/// are read on.
#[verifier::spinoff_prover]
#[verifier::rlimit(80)]
pub proof fn law_options(args: Seq<Seq<char>>, i: int, cli: CliView)
    requires
        0 <= i < args.len(),
    ensures
        (args[i] == "-e"@ || args[i] == "--env"@) && i + 1 < args.len() ==> cli::args_from(
            args,
            i,
            cli,
        ) == cli::args_from(
            args,
            i + 2,
            CliView { options: OptionsView { env: Some(args[i + 1]), ..cli.options }, ..cli },
        ),
        args[i] == "--env-file"@ && i + 1 < args.len() ==> cli::args_from(
            args,
            i,
            cli,
        ) == cli::args_from(
            args,
            i + 2,
            CliView { options: OptionsView { env_file: Some(args[i + 1]), ..cli.options }, ..cli },
        ),
        (args[i] == "-r"@ || args[i] == "--request"@) && i + 1 < args.len() ==> cli::args_from(
            args,
            i,
            cli,
        ) == cli::args_from(
            args,
            i + 2,
            CliView {
                options: OptionsView {
                    filter: cli.options.filter.push(args[i + 1]),
                    ..cli.options
                },
                ..cli
            },
        ),
        args[i] == "--report"@ && i + 1 < args.len() ==> cli::args_from(
            args,
            i,
            cli,
        ) == cli::args_from(
            args,
            i + 2,
            CliView { report_path: Some(args[i + 1]), ..cli },
        ),
        args[i] == "--strict"@ ==> cli::args_from(
            args,
            i,
            cli,
        ) == cli::args_from(
            args,
            i + 1,
            CliView { options: OptionsView { strict: true, ..cli.options }, ..cli },
        ),
        args[i] == "--fail-fast"@ ==> cli::args_from(
            args,
            i,
            cli,
        ) == cli::args_from(
            args,
            i + 1,
            CliView { options: OptionsView { fail_fast: true, ..cli.options }, ..cli },
        ),
        args[i] == "--dry-run"@ ==> cli::args_from(
            args,
            i,
            cli,
        ) == cli::args_from(
            args,
            i + 1,
            CliView { options: OptionsView { dry_run: true, ..cli.options }, ..cli },
        ),
        (args[i] == "-l"@ || args[i] == "--list"@) ==> cli::args_from(
            args,
            i,
            cli,
        ) == cli::args_from(
            args,
            i + 1,
            CliView { list: true, ..cli },
        ),
        (args[i] == "-v"@ || args[i] == "--verbose"@) ==> cli::args_from(
            args,
            i,
            cli,
        ) == cli::args_from(
            args,
            i + 1,
            CliView { verbose: true, ..cli },
        ),
        args[i] == "--no-color"@ ==> cli::args_from(
            args,
            i,
            cli,
        ) == cli::args_from(
            args,
            i + 1,
            CliView { no_color: true, ..cli },
        ),
{
    lemma_options();
}

/// `--var name=value` sets a variable after those set before: the name is
/// trimmed, the value is all that follows the first `=`.
pub proof fn law_var(
    args: Seq<Seq<char>>,
    i: int,
    cli: CliView,
    left: Seq<char>,
    name: Seq<char>,
    right: Seq<char>,
    value: Seq<char>,
)
    requires
        0 <= i,
        i + 1 < args.len(),
        args[i] == "--var"@,
        text_laws::white(left),
        text_laws::white(right),
        text_laws::flush(name),
        !(left + name + right).contains('='),
        args[i + 1] == left + name + right + seq!['='] + value,
    ensures
        cli::args_from(args, i, cli) == cli::args_from(
            args,
            i + 2,
            CliView {
                options: OptionsView {
                    overrides: cli.options.overrides.push((name, value)),
                    ..cli.options
                },
                ..cli
            },
        ),
{
    lemma_options();
    reveal_strlit("=");
    assert("="@ =~= seq!['=']);
    text::lemma_split_once(left + name + right, '=', value);
    text_laws::law_trimmed(left, name, right);
}

/// `--timeout` sets the duration that its value stands for, or is refused as
/// that value is.
pub proof fn law_timeout(args: Seq<Seq<char>>, i: int, cli: CliView)
    requires
        0 <= i,
        i + 1 < args.len(),
        args[i] == "--timeout"@,
    ensures
        cli::duration_of(args[i + 1]) matches Ok(d) ==> cli::args_from(args, i, cli)
            == cli::args_from(
            args,
            i + 2,
            CliView { options: OptionsView { timeout: d, ..cli.options }, ..cli },
        ),
        cli::duration_of(args[i + 1]) matches Err(e) ==> cli::args_from(args, i, cli) == Err::<
            ParsedView,
            Seq<char>,
        >(e),
{
    lemma_options();
}

/// A `--var` without `=` is refused, and so is an option without its value or
/// one that is not known; any other argument is a file.
pub proof fn law_refused_arguments(args: Seq<Seq<char>>, i: int, cli: CliView, rest: Seq<char>)
    requires
        0 <= i < args.len(),
    ensures
        args[i] == "--var"@ && i + 1 < args.len() && !args[i + 1].contains('=') ==> cli::args_from(
            args,
            i,
            cli,
        ) == Err::<ParsedView, Seq<char>>(
            "--var needs name=value, got '"@ + args[i + 1] + "'"@,
        ),
        i + 1 == args.len() && (args[i] == "-e"@ || args[i] == "--env"@ || args[i] == "--env-file"@
            || args[i] == "--var"@ || args[i] == "-r"@ || args[i] == "--request"@ || args[i]
            == "--timeout"@ || args[i] == "--report"@) ==> cli::args_from(args, i, cli) == Err::<
            ParsedView,
            Seq<char>,
        >(args[i] + " needs a value"@),
        args[i] == seq!['-'] + rest && !known(args[i]) ==> cli::args_from(args, i, cli) == Err::<
            ParsedView,
            Seq<char>,
        >(
            "unknown option '"@ + args[i] + "' (see --help)"@,
        ),
        args[i].len() == 0 || args[i][0] != '-' ==> cli::args_from(
            args,
            i,
            cli,
        ) == cli::args_from(
            args,
            i + 1,
            CliView { files: cli.files.push(args[i]), ..cli },
        ),
{
    lemma_options();
    lemma_dashes();
    reveal_strlit("=");
    reveal_strlit("-");
    assert("-"@ =~= seq!['-']);
    assert("="@ =~= seq!['=']);
    if i + 1 < args.len() && !args[i + 1].contains('=') {
        let s = args[i + 1];
        assert forall|k: int| 0 <= k implies !#[trigger] text_laws::occurs(s, "="@, k) by {
            if text_laws::occurs(s, "="@, k) {
                assert("="@[0] == s[k + 0]);
                assert(s.contains('='));
            }
        }
        text_laws::lemma_find_none(s, "="@, 0);
    }
    if args[i] == seq!['-'] + rest {
        assert(args[i].take(1) =~= "-"@);
    }
    if text::starts(args[i], "-"@) {
        assert(args[i].take(1)[0] == '-');
    }
}

proof fn lemma_dashes()
    ensures
        "-h"@[0] == '-',
        "--help"@[0] == '-',
        "-V"@[0] == '-',
        "--version"@[0] == '-',
        "-e"@[0] == '-',
        "--env"@[0] == '-',
        "--env-file"@[0] == '-',
        "--var"@[0] == '-',
        "-r"@[0] == '-',
        "--request"@[0] == '-',
        "--timeout"@[0] == '-',
        "--report"@[0] == '-',
        "--strict"@[0] == '-',
        "--fail-fast"@[0] == '-',
        "--dry-run"@[0] == '-',
        "-l"@[0] == '-',
        "--list"@[0] == '-',
        "-v"@[0] == '-',
        "--verbose"@[0] == '-',
        "--no-color"@[0] == '-',
{
    reveal_strlit("-h");
    reveal_strlit("--help");
    reveal_strlit("-V");
    reveal_strlit("--version");
    reveal_strlit("-e");
    reveal_strlit("--env");
    reveal_strlit("--env-file");
    reveal_strlit("--var");
    reveal_strlit("-r");
    reveal_strlit("--request");
    reveal_strlit("--timeout");
    reveal_strlit("--report");
    reveal_strlit("--strict");
    reveal_strlit("--fail-fast");
    reveal_strlit("--dry-run");
    reveal_strlit("-l");
    reveal_strlit("--list");
    reveal_strlit("-v");
    reveal_strlit("--verbose");
    reveal_strlit("--no-color");
}

/// Help and version win over everything behind them.
pub proof fn law_help_and_version(args: Seq<Seq<char>>, i: int, cli: CliView)
    requires
        0 <= i < args.len(),
    ensures
        args[i] == "-h"@ || args[i] == "--help"@ ==> cli::args_from(args, i, cli) == Ok::<
            ParsedView,
            Seq<char>,
        >(ParsedView::Help),
        args[i] == "-V"@ || args[i] == "--version"@ ==> cli::args_from(args, i, cli) == Ok::<
            ParsedView,
            Seq<char>,
        >(ParsedView::Version),
{
    lemma_options();
}

/// At the end there has to be a file.
pub proof fn law_end_of_arguments(args: Seq<Seq<char>>, cli: CliView)
    ensures
        cli.files.len() == 0 ==> cli::args_from(args, args.len() as int, cli) == Err::<
            ParsedView,
            Seq<char>,
        >("no .http files given (see --help)"@),
        cli.files.len() > 0 ==> cli::args_from(args, args.len() as int, cli) == Ok::<
            ParsedView,
            Seq<char>,
        >(ParsedView::Run(cli)),
{
}

/// What was asked for is done: a refusal says why and ends with 2, help and
/// version end well, and only a listing does not run.
pub proof fn law_opening(cli: CliView, e: Seq<char>)
    ensures
        cli::opening(Err(e)) matches OpeningView::Say(a) && a.code == 2 && a.stdout.len() == 0
            && a.stderr == "reqrun: "@ + e + "\n"@,
        cli::opening(Ok(ParsedView::Help)) matches OpeningView::Say(a) && a.code == 0
            && a.stderr.len() == 0 && a.stdout == cli::USAGE@,
        cli::opening(Ok(ParsedView::Version)) matches OpeningView::Say(a) && a.code == 0
            && a.stderr.len() == 0,
        cli.list ==> cli::opening(Ok(ParsedView::Run(cli))) == OpeningView::List(cli),
        !cli.list ==> cli::opening(Ok(ParsedView::Run(cli))) == OpeningView::Run(cli),
{
}

// ----------------------------------------------------------- durations ----

proof fn lemma_digit_run(s: Seq<char>, i: int, n: int)
    requires
        0 <= i <= n <= s.len(),
        forall|k: int| i <= k < n ==> text::ascii_digit(#[trigger] s[k]),
        n < s.len() ==> !text::ascii_digit(s[n]),
    ensures
        number::digit_run(s, i) == n,
    decreases n - i,
{
    if i < n {
        lemma_digit_run(s, i + 1, n);
    }
}

proof fn lemma_duration_parts(left: Seq<char>, n: nat, unit: Seq<char>, right: Seq<char>)
    requires
        text_laws::white(left),
        text_laws::white(right),
        unit.len() > 0 ==> !text::ascii_digit(unit[0]) && !text::whitespace(unit.last()),
    ensures
        text::trimmed(left + (text::decimal(n) + unit) + right) == text::decimal(n) + unit,
        cli::duration_parts(text::decimal(n) + unit) == (
            text::decimal(n),
            if unit.len() > 0 {
                unit
            } else {
                "s"@
            },
        ),
{
    let d = text::decimal(n);
    let s = d + unit;
    text::lemma_decimal(n);
    assert(text::ascii_digit(d[0]) && text::ascii_digit(d[d.len() - 1]));
    assert(s[0] == d[0]);
    assert(s.last() == if unit.len() > 0 {
        unit.last()
    } else {
        d.last()
    });
    text_laws::law_trimmed(left, s, right);
    assert forall|k: int| 0 <= k < d.len() implies text::ascii_digit(#[trigger] s[k]) by {
        assert(s[k] == d[k]);
    }
    lemma_digit_run(s, 0, d.len() as int);
    assert(s.take(d.len() as int) =~= d);
    assert(s.skip(d.len() as int) =~= unit);
    if unit.len() == 0 {
        assert(s =~= d);
    }
}

/// A number with `ms`, `s` or `m` behind it is so many milliseconds, seconds
/// or minutes, and without a unit so many seconds; any other unit is refused.
pub proof fn law_durations(left: Seq<char>, n: nat, right: Seq<char>, unit: Seq<char>)
    requires
        text_laws::white(left),
        text_laws::white(right),
        n <= u64::MAX,
        unit.len() > 0,
        !text::ascii_digit(unit[0]),
        !text::whitespace(unit.last()),
    ensures
        cli::duration_of(left + (text::decimal(n) + seq!['m', 's']) + right) matches Ok(d)
            && d.millis() == n && d.nanos < 1_000_000_000,
        cli::duration_of(left + (text::decimal(n) + seq!['s']) + right) == Ok::<
            Duration,
            Seq<char>,
        >(Duration { secs: n as u64, nanos: 0 }),
        cli::duration_of(left + text::decimal(n) + right) == Ok::<Duration, Seq<char>>(
            Duration { secs: n as u64, nanos: 0 },
        ),
        n * 60 <= u64::MAX ==> cli::duration_of(left + (text::decimal(n) + seq!['m']) + right)
            == Ok::<Duration, Seq<char>>(Duration { secs: (n * 60) as u64, nanos: 0 }),
        unit != seq!['m', 's'] && unit != seq!['s'] && unit != seq!['m'] ==> cli::duration_of(
            left + (text::decimal(n) + unit) + right,
        ) == Err::<Duration, Seq<char>>(
            "invalid duration unit '"@ + unit + "' (use ms, s or m)"@,
        ),
{
    reveal_strlit("ms");
    reveal_strlit("s");
    reveal_strlit("m");
    assert("ms"@ =~= seq!['m', 's'] && "s"@ =~= seq!['s'] && "m"@ =~= seq!['m']);
    assert(seq!['m', 's'].len() == 2 && seq!['s'].len() == 1 && seq!['m'].len() == 1);
    assert(seq!['s'][0] != seq!['m'][0]);
    text_laws::law_unsigned_decimal(n, u64::MAX as nat, seq!['x'], 0);
    lemma_duration_parts(left, n, seq!['m', 's'], right);
    lemma_duration_parts(left, n, seq!['s'], right);
    lemma_duration_parts(left, n, seq!['m'], right);
    let e = Seq::<char>::empty();
    lemma_duration_parts(left, n, e, right);
    assert(text::decimal(n) + e =~= text::decimal(n));
    lemma_duration_parts(left, n, unit, right);
}

// ------------------------------------------------------------- listing ----

/// A listing shows each file in a line of its own, and below it each name in
/// an indented line.
pub proof fn law_listing(
    listing: Seq<(Seq<char>, Seq<Seq<char>>)>,
    path: Seq<char>,
    names: Seq<Seq<char>>,
    name: Seq<char>,
)
    ensures
        ({
            let all = listing.push((path, names));
            cli::listing_lines(all, all.len()) == cli::listing_lines(listing, listing.len()) + path
                + seq!['\n'] + cli::name_lines(names, names.len())
        }),
        ({
            let all = names.push(name);
            cli::name_lines(all, all.len()) == cli::name_lines(names, names.len()) + seq![' ', ' ']
                + name + seq!['\n']
        }),
{
    reveal_strlit("\n");
    reveal_strlit("  ");
    assert("\n"@ =~= seq!['\n'] && "  "@ =~= seq![' ', ' ']);
    lemma_listing_prefix(listing, (path, names), listing.len());
    lemma_names_prefix(names, name, names.len());
}

proof fn lemma_listing_prefix(
    listing: Seq<(Seq<char>, Seq<Seq<char>>)>,
    last: (Seq<char>, Seq<Seq<char>>),
    n: nat,
)
    requires
        n <= listing.len(),
    ensures
        cli::listing_lines(listing.push(last), n) == cli::listing_lines(listing, n),
    decreases n,
{
    if n > 0 {
        lemma_listing_prefix(listing, last, (n - 1) as nat);
        assert(listing.push(last)[n - 1] == listing[n - 1]);
    }
}

proof fn lemma_names_prefix(names: Seq<Seq<char>>, last: Seq<char>, n: nat)
    requires
        n <= names.len(),
    ensures
        cli::name_lines(names.push(last), n) == cli::name_lines(names, n),
    decreases n,
{
    if n > 0 {
        lemma_names_prefix(names, last, (n - 1) as nat);
        assert(names.push(last)[n - 1] == names[n - 1]);
    }
}

// -------------------------------------------------------------- dry run ----

/// A dry run prints each request under a title with its name and its file: as
/// it would be sent, or else the error that keeps it from being sent.
pub proof fn law_dry_run_text(
    path: Seq<char>,
    results: Seq<ResultView>,
    r: ResultView,
    e: Seq<char>,
)
    ensures
        ({
            let title = "### "@ + r.name + " ("@ + path + ")\n"@;
            let all = results.push(r);
            let before = cli::dry_entries(path, results, results.len());
            let text = cli::dry_entries(path, all, all.len());
            &&& r.rendered matches Some(t) ==> text == before + (title + t + "\n\n"@)
            &&& r.rendered is None && r.error == Some(e) ==> text == before + (title + "ERROR: "@ + e
                + "\n\n"@)
        }),
{
    lemma_dry_prefix(path, results, r, results.len());
}

proof fn lemma_dry_prefix(path: Seq<char>, results: Seq<ResultView>, r: ResultView, n: nat)
    requires
        n <= results.len(),
    ensures
        cli::dry_entries(path, results.push(r), n) == cli::dry_entries(path, results, n),
    decreases n,
{
    if n > 0 {
        lemma_dry_prefix(path, results, r, (n - 1) as nat);
        assert(results.push(r)[n - 1] == results[n - 1]);
    }
}

/// Files follow each other in the output of a dry run.
pub proof fn law_dry_run_files(files: Seq<FileResultView>, f: FileResultView)
    ensures
        cli::dry_files(seq![], 0).len() == 0,
        cli::dry_files(files.push(f), files.len() + 1) == cli::dry_files(files, files.len())
            + cli::dry_entries(f.path, f.results, f.results.len()),
{
    lemma_dry_files(files, f, files.len());
}

proof fn lemma_dry_files(files: Seq<FileResultView>, f: FileResultView, n: nat)
    requires
        n <= files.len(),
    ensures
        cli::dry_files(files.push(f), n) == cli::dry_files(files, n),
    decreases n,
{
    if n > 0 {
        lemma_dry_files(files, f, (n - 1) as nat);
        assert(files.push(f)[n - 1] == files[n - 1]);
    }
}

} // verus!
