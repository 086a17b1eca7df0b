//! Running parsed `.http` files: resolving variables, deciding which requests
//! run, judging responses and collecting per-request results.
//!
//! The network and the file system are outside. A request moves through
//! stages, each of which says what it needs next: the bytes of a body file, a
//! response, or a saved body. The caller provides it and goes on.

use crate::duration::Duration;
use crate::files;
use crate::files::{FileView, TextFile};
use crate::http;
use crate::http::{HttpResponse, ResponseView};
use crate::parser;
use crate::parser::{Body, BodyView, Handler, HttpFile, Request, RequestView};
use crate::script;
use crate::script::{Assertion, AssertionView};
use crate::text;
use crate::url;
use crate::url::{Url, UrlView};
use crate::vars;
use crate::vars::{Draw, Table, Vars, VarsView};
use vstd::prelude::*;
use vstd::utf8::*;

verus! {

/// Options assembled by the CLI layer.
#[derive(Debug, Clone)]
pub struct Options {
    /// Environment name from http-client.env.json (`--env`).
    pub env: Option<String>,
    /// Explicit env file path (`--env-file`); default is discovered next to
    /// each `.http` file.
    pub env_file: Option<String>,
    /// `--var name=value` overrides.
    pub overrides: Vec<(String, String)>,
    /// `--request` name filters (empty = run everything).
    pub filter: Vec<String>,
    pub timeout: Duration,
    pub fail_fast: bool,
    /// `--strict`: a request without assertions fails on status >= 400.
    pub strict: bool,
    /// `--dry-run`: resolve and render, but do not connect.
    pub dry_run: bool,
}

/// What the options hold.
#[verifier::ext_equal]
pub struct OptionsView {
    pub env: Option<Seq<char>>,
    pub env_file: Option<Seq<char>>,
    pub overrides: Seq<(Seq<char>, Seq<char>)>,
    pub filter: Seq<Seq<char>>,
    pub timeout: Duration,
    pub fail_fast: bool,
    pub strict: bool,
    pub dry_run: bool,
}

impl View for Options {
    type V = OptionsView;

    open spec fn view(&self) -> OptionsView {
        OptionsView {
            env: text::opt_text(self.env),
            env_file: text::opt_text(self.env_file),
            overrides: text::pairs(self.overrides@),
            filter: text::texts(self.filter@),
            timeout: self.timeout,
            fail_fast: self.fail_fast,
            strict: self.strict,
            dry_run: self.dry_run,
        }
    }
}

/// Run everything in the plain way, with half a minute per request.
pub open spec fn default_options() -> OptionsView {
    OptionsView {
        env: None,
        env_file: None,
        overrides: seq![],
        filter: seq![],
        timeout: Duration { secs: 30, nanos: 0 },
        fail_fast: false,
        strict: false,
        dry_run: false,
    }
}

impl Default for Options {
    fn default() -> (r: Options)
        ensures
            r@ == default_options(),
    {
        let r: Options = Options {
            env: None,
            env_file: None,
            overrides: Vec::new(),
            filter: Vec::new(),
            timeout: Duration::from_secs(30),
            fail_fast: false,
            strict: false,
            dry_run: false,
        };
        assert(r@ =~= default_options());
        r
    }
}

/// Outcome of one request.
#[derive(Debug, Clone, Copy, PartialEq, Eq, Structural)]
pub enum Status {
    Passed,
    Failed,
    /// Could not even exchange HTTP (connect error, bad URL, script error...).
    Error,
    /// Not run: filtered out earlier by `--fail-fast`.
    Skipped,
}

#[derive(Debug)]
pub struct RequestResult {
    pub name: String,
    pub method: String,
    pub url: String,
    pub status: Status,
    pub http_status: Option<u16>,
    pub http_reason: String,
    pub duration: Duration,
    pub assertions: Vec<Assertion>,
    /// Error text when `status == Error`.
    pub error: Option<String>,
    pub logs: Vec<String>,
    /// Rendered wire request (dry-run) or response head (verbose).
    pub rendered: Option<String>,
}

/// What the result of a request holds.
#[verifier::ext_equal]
pub struct ResultView {
    pub name: Seq<char>,
    pub method: Seq<char>,
    pub url: Seq<char>,
    pub status: Status,
    pub http_status: Option<u16>,
    pub http_reason: Seq<char>,
    pub duration: Duration,
    pub assertions: Seq<AssertionView>,
    pub error: Option<Seq<char>>,
    pub logs: Seq<Seq<char>>,
    pub rendered: Option<Seq<char>>,
}

impl View for RequestResult {
    type V = ResultView;

    open spec fn view(&self) -> ResultView {
        ResultView {
            name: self.name@,
            method: self.method@,
            url: self.url@,
            status: self.status,
            http_status: self.http_status,
            http_reason: self.http_reason@,
            duration: self.duration,
            assertions: script::assertion_views(self.assertions@),
            error: text::opt_text(self.error),
            logs: text::texts(self.logs@),
            rendered: text::opt_text(self.rendered),
        }
    }
}

/// What a list of results holds.
pub open spec fn result_views(v: Seq<RequestResult>) -> Seq<ResultView> {
    Seq::new(v.len(), |i: int| v[i]@)
}

#[derive(Debug)]
pub struct FileResult {
    pub path: String,
    pub results: Vec<RequestResult>,
}

/// What the results of a file hold.
#[verifier::ext_equal]
pub struct FileResultView {
    pub path: Seq<char>,
    pub results: Seq<ResultView>,
}

impl View for FileResult {
    type V = FileResultView;

    open spec fn view(&self) -> FileResultView {
        FileResultView { path: self.path@, results: result_views(self.results@) }
    }
}

/// What the results of several files hold.
pub open spec fn file_views(v: Seq<FileResult>) -> Seq<FileResultView> {
    Seq::new(v.len(), |i: int| v[i]@)
}

/// How many results have the status.
pub open spec fn count(results: Seq<ResultView>, status: Status) -> nat
    decreases results.len(),
{
    if results.len() == 0 {
        0
    } else {
        count(results.drop_last(), status) + if results.last().status == status {
            1nat
        } else {
            0nat
        }
    }
}

impl FileResult {
    /// Passed, failed, errored and skipped requests.
    pub fn counts(&self) -> (r: (usize, usize, usize, usize))
        ensures
            r.0 == count(self@.results, Status::Passed),
            r.1 == count(self@.results, Status::Failed),
            r.2 == count(self@.results, Status::Error),
            r.3 == count(self@.results, Status::Skipped),
            r.0 + r.1 + r.2 + r.3 == self@.results.len(),
    {
        let ghost all = self@.results;
        let mut passed: usize = 0;
        let mut failed: usize = 0;
        let mut errored: usize = 0;
        let mut skipped: usize = 0;
        let mut i: usize = 0;
        while i < self.results.len()
            invariant
                i <= self.results.len(),
                all == self@.results,
                passed == count(all.take(i as int), Status::Passed),
                failed == count(all.take(i as int), Status::Failed),
                errored == count(all.take(i as int), Status::Error),
                skipped == count(all.take(i as int), Status::Skipped),
                passed + failed + errored + skipped == i,
            decreases self.results.len() - i,
        {
            assert(all.take(i + 1).drop_last() =~= all.take(i as int));
            assert(all.take(i + 1).last() == self.results@[i as int]@);
            match self.results[i].status {
                Status::Passed => {
                    passed += 1;
                },
                Status::Failed => {
                    failed += 1;
                },
                Status::Error => {
                    errored += 1;
                },
                Status::Skipped => {
                    skipped += 1;
                },
            }
            i += 1;
        }
        assert(all.take(all.len() as int) =~= all);
        (passed, failed, errored, skipped)
    }
}

// -------------------------------------------------------------- names ----

/// The name a request is shown under.
pub open spec fn shown_name(request: RequestView, index: int) -> Seq<char> {
    match request.name {
        Some(name) => name,
        None => "request #"@ + text::decimal((index + 1) as nat),
    }
}

fn display_name(request: &Request, index: usize) -> (r: String)
    requires
        index < usize::MAX,
    ensures
        r@ == shown_name(request@, index as int),
{
    match &request.name {
        Some(name) => text::owned(name.as_str()),
        None => {
            let number: String = text::decimal_string(index as u64 + 1);
            text::concat2("request #", number.as_str())
        },
    }
}

/// The names and methods of the requests from `i` on.
pub open spec fn names_from(requests: Seq<RequestView>, i: int) -> Seq<Seq<char>>
    decreases requests.len() - i,
{
    if i < 0 || i >= requests.len() {
        seq![]
    } else {
        seq![shown_name(requests[i], i) + " "@ + requests[i].method] + names_from(requests, i + 1)
    }
}

/// The listing of one file.
pub open spec fn file_listing(file: FileView) -> Result<
    (Seq<char>, Seq<Seq<char>>),
    Seq<char>,
> {
    match file.content {
        Err(e) => Err(files::unreadable(file.path, e)),
        Ok(content) => match parser::parsed(content) {
            Err(e) => Err(parse_failure(file.path, e)),
            Ok(parsed) => Ok((file.path, names_from(parsed.requests, 0))),
        },
    }
}

/// The failure about a file that does not parse.
pub open spec fn parse_failure(path: Seq<char>, e: parser::ErrorView) -> Seq<char> {
    path + ": "@ + ("line "@ + text::decimal(e.line as nat) + ": "@ + e.message)
}

/// The listings of the files from `i` on, after `acc`.
pub open spec fn listings_from(
    sources: Seq<FileView>,
    i: int,
    acc: Seq<(Seq<char>, Seq<Seq<char>>)>,
) -> Result<Seq<(Seq<char>, Seq<Seq<char>>)>, Seq<char>>
    decreases sources.len() - i,
{
    if i < 0 || i >= sources.len() {
        Ok(acc)
    } else {
        match file_listing(sources[i]) {
            Err(e) => Err(e),
            Ok(entry) => listings_from(sources, i + 1, acc.push(entry)),
        }
    }
}

/// What a listing holds.
pub open spec fn listing_views(v: Seq<(String, Vec<String>)>) -> Seq<(Seq<char>, Seq<Seq<char>>)> {
    Seq::new(v.len(), |i: int| (v[i].0@, text::texts(v[i].1@)))
}

fn request_names(requests: &Vec<Request>) -> (r: Vec<String>)
    ensures
        text::texts(r@) == names_from(parser::request_views(requests@), 0),
{
    let ghost all = parser::request_views(requests@);
    let mut out: Vec<String> = Vec::new();
    let mut i: usize = 0;
    assert(text::texts(out@) + names_from(all, 0) =~= names_from(all, 0));
    while i < requests.len()
        invariant
            i <= requests.len(),
            all == parser::request_views(requests@),
            text::texts(out@) + names_from(all, i as int) == names_from(all, 0),
        decreases requests.len() - i,
    {
        let ghost before = text::texts(out@);
        let name: String = display_name(&requests[i], i);
        let entry: String = text::concat3(name.as_str(), " ", requests[i].method.as_str());
        out.push(entry);
        assert(text::texts(out@) =~= before.push(entry@));
        assert(before + (seq![entry@] + names_from(all, i + 1)) =~= before.push(entry@)
            + names_from(all, i + 1));
        i += 1;
    }
    assert(text::texts(out@) + names_from(all, i as int) =~= text::texts(out@));
    out
}

fn parse_source(file: &TextFile) -> (r: Result<HttpFile, String>)
    ensures
        match file@.content {
            Err(e) => r matches Err(m) && m@ == files::unreadable(file.path@, e),
            Ok(content) => match parser::parsed(content) {
                Err(e) => r matches Err(m) && m@ == parse_failure(file.path@, e),
                Ok(parsed) => r matches Ok(f) && f@ == parsed,
            },
        },
{
    let content: &str = match file.text() {
        Ok(content) => content,
        Err(e) => {
            return Err(e);
        },
    };
    match parser::parse(content) {
        Ok(parsed) => Ok(parsed),
        Err(e) => {
            let detail: String = e.to_text();
            Err(text::concat3(file.path.as_str(), ": ", detail.as_str()))
        },
    }
}

/// List request names without running anything (`--list`).
pub fn list_requests(sources: &[TextFile]) -> (r: Result<Vec<(String, Vec<String>)>, String>)
    ensures
        match r {
            Ok(listing) => listings_from(files::views(sources@), 0, seq![]) == Ok::<
                _,
                Seq<char>,
            >(listing_views(listing@)),
            Err(e) => listings_from(files::views(sources@), 0, seq![]) == Err::<
                Seq<(Seq<char>, Seq<Seq<char>>)>,
                _,
            >(e@),
        },
{
    let ghost all = files::views(sources@);
    let mut out: Vec<(String, Vec<String>)> = Vec::new();
    let mut i: usize = 0;
    assert(listing_views(out@) =~= Seq::<(Seq<char>, Seq<Seq<char>>)>::empty());
    while i < sources.len()
        invariant
            i <= sources.len(),
            all == files::views(sources@),
            listings_from(all, 0, seq![]) == listings_from(all, i as int, listing_views(out@)),
        decreases sources.len() - i,
    {
        let ghost before = listing_views(out@);
        assert(all[i as int] == sources@[i as int]@);
        match parse_source(&sources[i]) {
            Err(e) => {
                return Err(e);
            },
            Ok(file) => {
                let names: Vec<String> = request_names(&file.requests);
                let path: String = text::owned(sources[i].path.as_str());
                out.push((path, names));
                assert(listing_views(out@) =~= before.push((path@, text::texts(names@))));
            },
        }
        i += 1;
    }
    Ok(out)
}

// -------------------------------------------------------------- files ----

/// The environment files that belong to a run.
#[derive(Debug)]
pub struct EnvFiles {
    pub public: TextFile,
    pub private: Option<TextFile>,
}

/// What the environment files hold.
pub struct EnvFilesView {
    pub public: FileView,
    pub private: Option<FileView>,
}

impl View for EnvFiles {
    type V = EnvFilesView;

    open spec fn view(&self) -> EnvFilesView {
        EnvFilesView { public: self.public@, private: files::opt_view(self.private) }
    }
}

/// What optional environment files hold.
pub open spec fn opt_env(env: Option<EnvFiles>) -> Option<EnvFilesView> {
    match env {
        Some(e) => Some(e@),
        None => None,
    }
}

/// Where the environment of a run is read from.
#[derive(Debug)]
pub enum EnvChoice {
    /// No environment is asked for, or there is no file to read it from.
    Nothing,
    /// The file that `--env-file` names.
    Given(String),
    /// The file next to the `.http` file.
    Sibling,
}

/// What the choice stands for.
pub enum EnvChoiceView {
    Nothing,
    Given(Seq<char>),
    Sibling,
}

impl View for EnvChoice {
    type V = EnvChoiceView;

    open spec fn view(&self) -> EnvChoiceView {
        match self {
            EnvChoice::Nothing => EnvChoiceView::Nothing,
            EnvChoice::Given(path) => EnvChoiceView::Given(path@),
            EnvChoice::Sibling => EnvChoiceView::Sibling,
        }
    }
}

/// The file that is given, or else the one next to the `.http` file, if it is
/// there.
pub open spec fn env_chosen(options: OptionsView, sibling: bool) -> EnvChoiceView {
    if options.env is None {
        EnvChoiceView::Nothing
    } else {
        match options.env_file {
            Some(path) => EnvChoiceView::Given(path),
            None => if sibling {
                EnvChoiceView::Sibling
            } else {
                EnvChoiceView::Nothing
            },
        }
    }
}

/// Decide where the environment is read from; `sibling` says whether there is
/// an environment file next to the `.http` file.
pub fn choose_env(options: &Options, sibling: bool) -> (r: EnvChoice)
    ensures
        r@ == env_chosen(options@, sibling),
{
    if options.env.is_none() {
        return EnvChoice::Nothing;
    }
    match &options.env_file {
        Some(path) => EnvChoice::Given(text::owned(path.as_str())),
        None => if sibling {
            EnvChoice::Sibling
        } else {
            EnvChoice::Nothing
        },
    }
}

/// Whether the private file next to an environment file is read too: it is
/// there, and it is not that file itself.
pub fn private_applies(same: bool, is_file: bool) -> (r: bool)
    ensures
        r == (!same && is_file),
{
    !same && is_file
}

/// The table with the pairs from `i` on set.
pub open spec fn with_pairs(
    table: Map<Seq<char>, Seq<char>>,
    pairs: Seq<(Seq<char>, Seq<char>)>,
    i: int,
) -> Map<Seq<char>, Seq<char>>
    decreases pairs.len() - i,
{
    if i < 0 || i >= pairs.len() {
        table
    } else {
        with_pairs(table.insert(pairs[i].0, pairs[i].1), pairs, i + 1)
    }
}

/// The environment variables of a run.
pub open spec fn run_env(
    table: Map<Seq<char>, Seq<char>>,
    path: Seq<char>,
    env: Option<EnvFilesView>,
    options: OptionsView,
) -> Result<Map<Seq<char>, Seq<char>>, Seq<char>> {
    match options.env {
        None => Ok(table),
        Some(name) => match env {
            None => Err(
                "--env "@ + name + ": no http-client.env.json next to "@ + path
                    + " (or pass --env-file)"@,
            ),
            Some(e) => match vars::env_loaded(table, e.public, e.private, name) {
                (Some(message), _) => Err(message),
                (None, loaded) => Ok(loaded),
            },
        },
    }
}

/// The variables of a run before the file variables are declared.
pub open spec fn run_vars(
    v: VarsView,
    env_vars: Map<Seq<char>, Seq<char>>,
    options: OptionsView,
    globals: Map<Seq<char>, Seq<char>>,
) -> VarsView {
    VarsView {
        env_vars,
        globals: v.globals.union_prefer_right(globals),
        overrides: with_pairs(v.overrides, options.overrides, 0),
        ..v
    }
}

/// What a file begins with: its requests and the variables they see, starting
/// from the variables `v` and the globals of the files before it.
pub open spec fn opened(
    file: FileView,
    env: Option<EnvFilesView>,
    options: OptionsView,
    globals: Map<Seq<char>, Seq<char>>,
    v: VarsView,
    clock: Seq<u64>,
) -> Result<(parser::FileView, VarsView), Seq<char>> {
    match file.content {
        Err(e) => Err(files::unreadable(file.path, e)),
        Ok(content) => match parser::parsed(content) {
            Err(e) => Err(parse_failure(file.path, e)),
            Ok(parsed) => if parsed.requests.len() == 0 {
                Err(file.path + ": no requests found"@)
            } else {
                match run_env(v.env_vars, file.path, env, options) {
                    Err(e) => Err(e),
                    Ok(env_vars) => {
                        let start = run_vars(v, env_vars, options, globals);
                        match vars::file_vars_from(start, parsed.variables, 0, clock) {
                            (Some(e), _) => Err(file.path + ": "@ + e),
                            (None, w) => Ok((parsed, w)),
                        }
                    },
                }
            },
        },
    }
}

fn set_overrides(vars: &mut Vars, pairs: &Vec<(String, String)>)
    ensures
        final(vars)@ == (VarsView {
            overrides: with_pairs(old(vars)@.overrides, text::pairs(pairs@), 0),
            ..old(vars)@
        }),
{
    let ghost start = vars@;
    let ghost all = text::pairs(pairs@);
    let mut i: usize = 0;
    while i < pairs.len()
        invariant
            i <= pairs.len(),
            start == old(vars)@,
            all == text::pairs(pairs@),
            vars@ == (VarsView { overrides: vars@.overrides, ..start }),
            with_pairs(start.overrides, all, 0) == with_pairs(vars@.overrides, all, i as int),
        decreases pairs.len() - i,
    {
        assert(all[i as int] == (pairs@[i as int].0@, pairs@[i as int].1@));
        vars.set_override(pairs[i].0.as_str(), pairs[i].1.as_str());
        i += 1;
    }
}

fn load_env(path: &str, env: &Option<EnvFiles>, options: &Options, vars: &mut Vars) -> (r: Result<
    (),
    String,
>)
    ensures
        match run_env(old(vars)@.env_vars, path@, opt_env(*env), options@) {
            Err(e) => vars::failure_of(r) == Some(e),
            Ok(env_vars) => r is Ok && final(vars)@ == (VarsView { env_vars, ..old(vars)@ }),
        },
{
    match &options.env {
        None => Ok(()),
        Some(name) => match env {
            None => Err(
                text::concat5(
                    "--env ",
                    name.as_str(),
                    ": no http-client.env.json next to ",
                    path,
                    " (or pass --env-file)",
                ),
            ),
            Some(e) => vars::load_environment(&e.public, &e.private, name.as_str(), vars),
        },
    }
}

/// What the result of opening a file holds.
pub open spec fn opened_result(r: Result<(HttpFile, Vars), String>) -> Result<
    (parser::FileView, VarsView),
    Seq<char>,
> {
    match r {
        Ok((file, vars)) => Ok((file@, vars@)),
        Err(e) => Err(e@),
    }
}

/// Parse a file and set up the variables its requests see: the environment,
/// the globals of the files before it, the overrides and its own variables.
pub fn open_file(
    file: &TextFile,
    env: &Option<EnvFiles>,
    options: &Options,
    globals: &Table,
    vars: Vars,
) -> (r: Result<(HttpFile, Vars), String>)
    ensures
        exists|w: VarsView| #[trigger]
            vars::timed(vars@, w) && opened_result(r) == opened(
                file@,
                opt_env(*env),
                options@,
                globals@,
                vars@,
                w.readings,
            ) && (r matches Ok((_, after)) ==> after@.readings == w.readings),
{
    let ghost given = vars@;
    let mut vars: Vars = vars;
    assert(vars::timed(given, given));
    let parsed: HttpFile = match parse_source(file) {
        Ok(parsed) => parsed,
        Err(e) => {
            return Err(e);
        },
    };
    if parsed.requests.len() == 0 {
        return Err(text::concat2(file.path.as_str(), ": no requests found"));
    }
    match load_env(file.path.as_str(), env, options, &mut vars) {
        Ok(_) => {},
        Err(e) => {
            return Err(e);
        },
    }
    vars.set_globals(globals);
    set_overrides(&mut vars, &options.overrides);
    let done: Result<(), String> = vars.set_file_vars(parsed.variables.as_slice());
    assert(vars::timed(given, vars@));
    match done {
        Ok(_) => Ok((parsed, vars)),
        Err(e) => Err(text::concat3(file.path.as_str(), ": ", e.as_str())),
    }
}

// ---------------------------------------------------------- selection ----

/// A result that says nothing yet.
pub open spec fn blank_result(name: Seq<char>, request: RequestView, status: Status) -> ResultView {
    ResultView {
        name,
        method: request.method,
        url: request.url,
        status,
        http_status: None,
        http_reason: seq![],
        duration: Duration { secs: 0, nanos: 0 },
        assertions: seq![],
        error: None,
        logs: seq![],
        rendered: None,
    }
}

fn new_result(name: String, request: &Request, status: Status) -> (r: RequestResult)
    ensures
        r@ == blank_result(name@, request@, status),
{
    let r: RequestResult = RequestResult {
        name,
        method: text::owned(request.method.as_str()),
        url: text::owned(request.url.as_str()),
        status,
        http_status: None,
        http_reason: String::new(),
        duration: Duration::zero(),
        assertions: Vec::new(),
        error: None,
        logs: Vec::new(),
        rendered: None,
    };
    assert(r@ =~= blank_result(name@, request@, status));
    r
}

/// What happens to a request of a file.
#[derive(Debug)]
pub enum Plan {
    /// Not selected by `--request`.
    Leave,
    /// Skipped by `--fail-fast`.
    Skip(RequestResult),
    /// To be run, under this name.
    Run(String),
}

/// What a plan stands for.
pub enum PlanView {
    Leave,
    Skip(ResultView),
    Run(Seq<char>),
}

impl View for Plan {
    type V = PlanView;

    open spec fn view(&self) -> PlanView {
        match self {
            Plan::Leave => PlanView::Leave,
            Plan::Skip(r) => PlanView::Skip(r@),
            Plan::Run(name) => PlanView::Run(name@),
        }
    }
}

/// The plan for the request with the given index, once `abort` says whether a
/// failure stopped the run.
pub open spec fn planned(
    request: RequestView,
    index: int,
    options: OptionsView,
    abort: bool,
) -> PlanView {
    let name = shown_name(request, index);
    if options.filter.len() > 0 && !options.filter.contains(name) {
        PlanView::Leave
    } else if abort {
        PlanView::Skip(blank_result(name, request, Status::Skipped))
    } else {
        PlanView::Run(name)
    }
}

fn listed(names: &Vec<String>, name: &str) -> (r: bool)
    ensures
        r == text::texts(names@).contains(name@),
{
    let ghost all = text::texts(names@);
    let mut i: usize = 0;
    while i < names.len()
        invariant
            i <= names.len(),
            all == text::texts(names@),
            forall|k: int| 0 <= k < i ==> all[k] != name@,
        decreases names.len() - i,
    {
        if text::same_str(names[i].as_str(), name) {
            assert(all[i as int] == name@);
            return true;
        }
        i += 1;
    }
    false
}

/// Decide whether a request runs.
fn plan_request(request: &Request, index: usize, options: &Options, abort: bool) -> (r: Plan)
    requires
        index < usize::MAX,
    ensures
        r@ == planned(request@, index as int, options@, abort),
{
    let name: String = display_name(request, index);
    if options.filter.len() > 0 && !listed(&options.filter, name.as_str()) {
        return Plan::Leave;
    }
    if abort {
        return Plan::Skip(new_result(name, request, Status::Skipped));
    }
    Plan::Run(name)
}

/// The run stops after a result with this status.
pub open spec fn stops(status: Status, fail_fast: bool) -> bool {
    fail_fast && (status == Status::Failed || status == Status::Error)
}

/// Whether the run is stopped after a result.
fn abort_after(abort: bool, result: &RequestResult, options: &Options) -> (r: bool)
    ensures
        r == (abort || stops(result@.status, options@.fail_fast)),
{
    abort || (options.fail_fast && (result.status == Status::Failed || result.status
        == Status::Error))
}

/// The results of a file, unless `--request` selected none of its requests.
pub open spec fn finished(path: Seq<char>, results: Seq<ResultView>, options: OptionsView) -> Result<
    FileResultView,
    Seq<char>,
> {
    if options.filter.len() > 0 && results.len() == 0 {
        Err(path + ": no request matches --request "@ + text::joined(options.filter, ", "@))
    } else {
        Ok(FileResultView { path, results })
    }
}

/// Close a file once all its requests have been planned.
pub fn finish_file(path: &str, results: Vec<RequestResult>, options: &Options) -> (r: Result<
    FileResult,
    String,
>)
    ensures
        match r {
            Ok(f) => finished(path@, result_views(results@), options@) == Ok::<_, Seq<char>>(f@),
            Err(e) => finished(path@, result_views(results@), options@) == Err::<
                FileResultView,
                _,
            >(e@),
        },
{
    if options.filter.len() > 0 && results.len() == 0 {
        let names: String = text::join(&options.filter, ", ");
        return Err(text::concat3(path, ": no request matches --request ", names.as_str()));
    }
    Ok(FileResult { path: text::owned(path), results })
}

/// How far the requests of a file have come.
#[derive(Debug)]
pub struct FileRun {
    /// The next request to look at.
    pub index: usize,
    /// A failure stopped the run.
    pub abort: bool,
    pub results: Vec<RequestResult>,
}

/// What a run of a file holds.
#[verifier::ext_equal]
pub struct RunView {
    pub index: int,
    pub abort: bool,
    pub results: Seq<ResultView>,
}

impl View for FileRun {
    type V = RunView;

    open spec fn view(&self) -> RunView {
        RunView {
            index: self.index as int,
            abort: self.abort,
            results: result_views(self.results@),
        }
    }
}

/// The name of the next request that has to run, and the run when it stands
/// at that request: requests on the way are left out or skipped. No name when
/// every request has been looked at.
pub open spec fn advanced(
    run: RunView,
    requests: Seq<RequestView>,
    options: OptionsView,
) -> (Option<Seq<char>>, RunView)
    decreases requests.len() - run.index,
{
    if run.index < 0 || run.index >= requests.len() {
        (None, run)
    } else {
        let index = run.index + 1;
        match planned(requests[run.index], run.index, options, run.abort) {
            PlanView::Leave => advanced(RunView { index, ..run }, requests, options),
            PlanView::Skip(r) => advanced(
                RunView { index, results: run.results.push(r), ..run },
                requests,
                options,
            ),
            PlanView::Run(name) => (Some(name), run),
        }
    }
}

/// The run after the request that it stands at gave a result.
pub open spec fn run_after(run: RunView, result: ResultView, options: OptionsView) -> RunView {
    RunView {
        index: run.index + 1,
        abort: run.abort || stops(result.status, options.fail_fast),
        results: run.results.push(result),
    }
}

impl FileRun {
    /// Begin with the first request of a file; `abort` says whether an earlier
    /// file stopped the run.
    pub fn new(abort: bool) -> (r: FileRun)
        ensures
            r@ == (RunView { index: 0, abort, results: seq![] }),
    {
        let r: FileRun = FileRun { index: 0, abort, results: Vec::new() };
        assert(r@ =~= (RunView { index: 0, abort, results: seq![] }));
        r
    }

    /// Go on to the next request that has to run, and give its name.
    pub fn advance(&mut self, requests: &Vec<Request>, options: &Options) -> (r: Option<String>)
        ensures
            (text::opt_text(r), final(self)@) == advanced(
                old(self)@,
                parser::request_views(requests@),
                options@,
            ),
            r is Some ==> final(self).index < requests@.len(),
    {
        let ghost all = parser::request_views(requests@);
        let ghost start = self@;
        while self.index < requests.len()
            invariant
                start == old(self)@,
                all == parser::request_views(requests@),
                advanced(start, all, options@) == advanced(self@, all, options@),
            decreases requests.len() - self.index,
        {
            let ghost before = self@;
            assert(all[before.index] == requests@[before.index]@);
            match plan_request(&requests[self.index], self.index, options, self.abort) {
                Plan::Leave => {},
                Plan::Skip(result) => {
                    self.results.push(result);
                    assert(result_views(self.results@) =~= before.results.push(result@));
                },
                Plan::Run(name) => {
                    return Some(name);
                },
            }
            self.index += 1;
        }
        None
    }

    /// Take the result of the request that the run stands at.
    pub fn record(&mut self, result: RequestResult, options: &Options)
        requires
            old(self).index < usize::MAX,
        ensures
            final(self)@ == run_after(old(self)@, result@, options@),
    {
        let ghost before = self@;
        self.abort = abort_after(self.abort, &result, options);
        self.results.push(result);
        assert(result_views(self.results@) =~= before.results.push(result@));
        self.index += 1;
    }
}

/// Once a failure stopped the run under `--fail-fast`, no request of the file
/// runs any more; without `--request` filters each of those left is reported
/// as skipped.
pub proof fn law_fail_fast_skips_the_rest(
    run: RunView,
    requests: Seq<RequestView>,
    options: OptionsView,
)
    requires
        run.abort,
        0 <= run.index <= requests.len(),
    ensures
        ({
            let (name, after) = advanced(run, requests, options);
            &&& name is None
            &&& after.abort
            &&& after.results.len() >= run.results.len()
            &&& forall|k: int|
                run.results.len() <= k < after.results.len() ==> (#[trigger] after.results[k]).status
                    == Status::Skipped
            &&& options.filter.len() == 0 ==> after.results.len() == run.results.len() + (
            requests.len() - run.index)
        }),
    decreases requests.len() - run.index,
{
    if run.index < requests.len() {
        let index = run.index + 1;
        match planned(requests[run.index], run.index, options, run.abort) {
            PlanView::Leave => {
                law_fail_fast_skips_the_rest(RunView { index, ..run }, requests, options);
            },
            PlanView::Skip(r) => {
                let next = RunView { index, results: run.results.push(r), ..run };
                law_fail_fast_skips_the_rest(next, requests, options);
                let after = advanced(next, requests, options).1;
                lemma_results_are_kept(next, requests, options);
                let k = run.results.len() as int;
                assert(after.results[k] == next.results[k]);
            },
            PlanView::Run(_) => {},
        }
    }
}

proof fn lemma_results_are_kept(
    run: RunView,
    requests: Seq<RequestView>,
    options: OptionsView,
)
    ensures
        ({
            let after = advanced(run, requests, options).1;
            &&& run.results.len() <= after.results.len()
            &&& after.results.take(run.results.len() as int) == run.results
            &&& forall|k: int|
                0 <= k < run.results.len() ==> #[trigger] after.results[k] == run.results[k]
        }),
    decreases requests.len() - run.index,
{
    if 0 <= run.index < requests.len() {
        let index = run.index + 1;
        match planned(requests[run.index], run.index, options, run.abort) {
            PlanView::Leave => {
                lemma_results_are_kept(RunView { index, ..run }, requests, options);
            },
            PlanView::Skip(r) => {
                let next = RunView { index, results: run.results.push(r), ..run };
                lemma_results_are_kept(next, requests, options);
                assert forall|k: int| 0 <= k < run.results.len() implies #[trigger] advanced(
                    run,
                    requests,
                    options,
                ).1.results[k] == run.results[k] by {
                    assert(next.results[k] == run.results[k]);
                }
            },
            PlanView::Run(_) => {},
        }
    }
    let after = advanced(run, requests, options).1;
    assert(after.results.take(run.results.len() as int) =~= run.results);
}

/// As long as no failure stopped the run, and without `--request` filters, the
/// requests run in the order of the file, and none is passed over.
pub proof fn law_requests_run_in_order(
    run: RunView,
    requests: Seq<RequestView>,
    options: OptionsView,
)
    requires
        !run.abort,
        options.filter.len() == 0,
        0 <= run.index < requests.len(),
    ensures
        advanced(run, requests, options) == (
            Some(shown_name(requests[run.index], run.index)),
            run,
        ),
{
}

/// Only `--fail-fast` stops a run, and then exactly on a failure or an error.
pub proof fn law_only_failures_stop_a_run(run: RunView, result: ResultView, options: OptionsView)
    requires
        !run.abort,
    ensures
        run_after(run, result, options).abort <==> options.fail_fast && (result.status
            == Status::Failed || result.status == Status::Error),
{
}

/// Every result is counted exactly once.
pub proof fn law_counts_are_complete(results: Seq<ResultView>)
    ensures
        count(results, Status::Passed) + count(results, Status::Failed) + count(
            results,
            Status::Error,
        ) + count(results, Status::Skipped) == results.len(),
    decreases results.len(),
{
    if results.len() > 0 {
        law_counts_are_complete(results.drop_last());
    }
}

// ------------------------------------------------------------- stages ----

/// A request whose URL and headers are resolved.
#[derive(Debug)]
pub struct Prepared {
    pub result: RequestResult,
    pub target: Url,
    pub headers: Vec<(String, String)>,
}

/// What a prepared request holds.
#[verifier::ext_equal]
pub struct PreparedView {
    pub result: ResultView,
    pub target: UrlView,
    pub headers: Seq<(Seq<char>, Seq<char>)>,
}

impl View for Prepared {
    type V = PreparedView;

    open spec fn view(&self) -> PreparedView {
        PreparedView {
            result: self.result@,
            target: self.target@,
            headers: text::pairs(self.headers@),
        }
    }
}

/// What a request needs next.
#[derive(Debug)]
pub enum Stage {
    /// The bytes of the body file at `path`, which is relative to the
    /// `.http` file.
    NeedBody { at: Prepared, path: String, substitute: bool },
    /// The response to the request.
    NeedResponse { at: Prepared, body: Vec<u8> },
    /// The response body written to `path`, which is relative to the
    /// `.http` file.
    NeedSave { result: RequestResult, response: HttpResponse, path: String, force: bool },
    Done(RequestResult),
}

/// What a stage stands for.
pub enum StageView {
    NeedBody { at: PreparedView, path: Seq<char>, substitute: bool },
    NeedResponse { at: PreparedView, body: Seq<u8> },
    NeedSave { result: ResultView, response: ResponseView, path: Seq<char>, force: bool },
    Done(ResultView),
}

impl View for Stage {
    type V = StageView;

    open spec fn view(&self) -> StageView {
        match self {
            Stage::NeedBody { at, path, substitute } => StageView::NeedBody {
                at: at@,
                path: path@,
                substitute: *substitute,
            },
            Stage::NeedResponse { at, body } => StageView::NeedResponse { at: at@, body: body@ },
            Stage::NeedSave { result, response, path, force } => StageView::NeedSave {
                result: result@,
                response: response@,
                path: path@,
                force: *force,
            },
            Stage::Done(result) => StageView::Done(result@),
        }
    }
}

/// The result of a request that could not be carried out.
pub open spec fn errored(result: ResultView, error: Seq<char>) -> ResultView {
    ResultView { status: Status::Error, error: Some(error), ..result }
}

fn with_error(result: RequestResult, error: String) -> (r: RequestResult)
    ensures
        r@ == errored(result@, error@),
{
    RequestResult { status: Status::Error, error: Some(error), ..result }
}

/// The header values from `i` on resolved, after `acc`, and the variables
/// afterwards.
pub open spec fn headers_resolved(
    v: VarsView,
    headers: Seq<(Seq<char>, Seq<char>)>,
    i: int,
    acc: Seq<(Seq<char>, Seq<char>)>,
    lenient: bool,
    clock: Seq<u64>,
) -> (Result<Seq<(Seq<char>, Seq<char>)>, Seq<char>>, VarsView)
    decreases headers.len() - i,
{
    if i < 0 || i >= headers.len() {
        (Ok(acc), v)
    } else {
        let value = vars::replaced(v, headers[i].1, lenient, clock);
        match value.result {
            Err(e) => (Err(e), value.vars),
            Ok(t) => headers_resolved(
                value.vars,
                headers,
                i + 1,
                acc.push((headers[i].0, t)),
                lenient,
                clock,
            ),
        }
    }
}

/// What follows once the body is known: a dry run renders the request, any
/// other run sends it.
pub open spec fn with_body(
    at: PreparedView,
    request: RequestView,
    body: Seq<u8>,
    options: OptionsView,
) -> StageView {
    if options.dry_run {
        StageView::Done(
            ResultView {
                status: Status::Passed,
                rendered: Some(
                    text::utf8_lossy(
                        encode_utf8(
                            http::request_head(
                                request.method,
                                at.target,
                                at.headers,
                                body.len(),
                            ),
                        ) + body,
                    ),
                ),
                ..at.result
            },
        )
    } else {
        StageView::NeedResponse { at, body }
    }
}

/// What follows once URL and headers are resolved.
pub open spec fn body_stage(
    at: PreparedView,
    request: RequestView,
    v: VarsView,
    options: OptionsView,
    clock: Seq<u64>,
) -> (StageView, VarsView) {
    match request.body {
        None => (with_body(at, request, seq![], options), v),
        Some(BodyView::Inline(t)) => {
            let body = vars::replaced(v, t, options.dry_run, clock);
            match body.result {
                Err(e) => (StageView::Done(errored(at.result, e)), body.vars),
                Ok(t) => (with_body(at, request, encode_utf8(t), options), body.vars),
            }
        },
        Some(BodyView::FromFile { path, substitute }) => {
            let path = vars::replaced(v, path, options.dry_run, clock);
            match path.result {
                Err(e) => (StageView::Done(errored(at.result, e)), path.vars),
                Ok(p) => (StageView::NeedBody { at, path: p, substitute }, path.vars),
            }
        },
    }
}

/// The first stage of a request. In a dry run unknown variables render
/// literally, since values that a handler would capture cannot exist yet.
pub open spec fn started(
    request: RequestView,
    name: Seq<char>,
    v: VarsView,
    options: OptionsView,
    clock: Seq<u64>,
) -> (StageView, VarsView) {
    let blank = blank_result(name, request, Status::Error);
    let raw = vars::replaced(v, request.url, options.dry_run, clock);
    match raw.result {
        Err(e) => (StageView::Done(errored(blank, e)), raw.vars),
        Ok(u) => {
            let result = ResultView { url: u, ..blank };
            match url::parsed(u) {
                Err(e) => (StageView::Done(errored(result, e)), raw.vars),
                Ok(target) => match headers_resolved(
                    raw.vars,
                    request.headers,
                    0,
                    seq![],
                    options.dry_run,
                    clock,
                ) {
                    (Err(e), w) => (StageView::Done(errored(result, e)), w),
                    (Ok(headers), w) => body_stage(
                        PreparedView { result, target, headers },
                        request,
                        w,
                        options,
                        clock,
                    ),
                },
            }
        },
    }
}

/// What a result of pairs holds.
pub open spec fn pairs_result(r: Result<Vec<(String, String)>, String>) -> Result<
    Seq<(Seq<char>, Seq<char>)>,
    Seq<char>,
> {
    match r {
        Ok(pairs) => Ok(text::pairs(pairs@)),
        Err(e) => Err(e@),
    }
}

fn resolve_headers(vars: &mut Vars, headers: &Vec<(String, String)>, lenient: bool) -> (r: Result<
    Vec<(String, String)>,
    String,
>)
    ensures
        vars::timed(old(vars)@, final(vars)@),
        forall|clock: Seq<u64>|
            vars::begins(clock, final(vars)@.readings) ==> (pairs_result(r), final(vars)@)
                == #[trigger] headers_resolved(
                old(vars)@,
                text::pairs(headers@),
                0,
                seq![],
                lenient,
                clock,
            ),
{
    let ghost start = vars@;
    let ghost all = text::pairs(headers@);
    let mut out: Vec<(String, String)> = Vec::new();
    let mut i: usize = 0;
    assert(text::pairs(out@) =~= Seq::<(Seq<char>, Seq<char>)>::empty());
    while i < headers.len()
        invariant
            i <= headers.len(),
            start == old(vars)@,
            all == text::pairs(headers@),
            vars::timed(start, vars@),
            forall|clock: Seq<u64>|
                vars::begins(clock, vars@.readings) ==> #[trigger] headers_resolved(
                    start,
                    all,
                    0,
                    seq![],
                    lenient,
                    clock,
                ) == headers_resolved(vars@, all, i as int, text::pairs(out@), lenient, clock),
        decreases headers.len() - i,
    {
        let ghost before = vars@;
        let ghost done = text::pairs(out@);
        assert(all[i as int] == (headers@[i as int].0@, headers@[i as int].1@));
        let value: Result<String, String> = vars.substitute_with(headers[i].1.as_str(), lenient);
        proof {
            vars::lemma_timed(start, before, vars@);
            assert forall|clock: Seq<u64>| vars::begins(clock, vars@.readings) implies vars::begins(
                clock,
                before.readings,
            ) && vars::replaced(before, all[i as int].1, lenient, clock) == (Draw {
                result: text::text_result(value),
                vars: vars@,
            }) && #[trigger] headers_resolved(start, all, 0, seq![], lenient, clock)
                == headers_resolved(before, all, i as int, done, lenient, clock) by {
                vars::lemma_begins(clock, vars@.readings, before.readings);
            }
        }
        match value {
            Ok(value) => {
                let name: String = text::owned(headers[i].0.as_str());
                out.push((name, value));
                assert(text::pairs(out@) =~= done.push((name@, value@)));
            },
            Err(e) => {
                return Err(e);
            },
        }
        i += 1;
    }
    Ok(out)
}

fn body_known(at: Prepared, request: &Request, body: Vec<u8>, options: &Options) -> (r: Stage)
    ensures
        r@ == with_body(at@, request@, body@, options@),
{
    if options.dry_run {
        let wire: Vec<u8> = http::build_request(
            request.method.as_str(),
            &at.target,
            at.headers.as_slice(),
            body.as_slice(),
        );
        let rendered: Option<String> = Some(text::decode_lossy(wire.as_slice()));
        return Stage::Done(RequestResult { status: Status::Passed, rendered, ..at.result });
    }
    Stage::NeedResponse { at, body }
}

/// Resolve the variables of a request everywhere they may appear.
pub fn start_request(
    request: &Request,
    name: String,
    vars: &mut Vars,
    options: &Options,
) -> (r: Stage)
    ensures
        vars::timed(old(vars)@, final(vars)@),
        (r@, final(vars)@) == started(
            request@,
            name@,
            old(vars)@,
            options@,
            final(vars)@.readings,
        ),
{
    let result: RequestResult = new_result(name, request, Status::Error);
    let raw: String = match vars.substitute_with(request.url.as_str(), options.dry_run) {
        Ok(raw) => raw,
        Err(e) => {
            return Stage::Done(with_error(result, e));
        },
    };
    let ghost first = vars@;
    let result: RequestResult = RequestResult { url: text::owned(raw.as_str()), ..result };
    let target: Url = match url::parse(raw.as_str()) {
        Ok(target) => target,
        Err(e) => {
            return Stage::Done(with_error(result, e));
        },
    };
    let headers: Result<Vec<(String, String)>, String> = resolve_headers(
        vars,
        &request.headers,
        options.dry_run,
    );
    let ghost second = vars@;
    proof {
        vars::lemma_timed(old(vars)@, first, second);
    }
    let headers: Vec<(String, String)> = match headers {
        Ok(headers) => headers,
        Err(e) => {
            return Stage::Done(with_error(result, e));
        },
    };
    let at: Prepared = Prepared { result, target, headers };
    match &request.body {
        None => {
            let none: Vec<u8> = Vec::new();
            assert(none@ =~= Seq::<u8>::empty());
            body_known(at, request, none, options)
        },
        Some(Body::Inline(t)) => {
            let t: Result<String, String> = vars.substitute_with(t.as_str(), options.dry_run);
            proof {
                vars::lemma_timed(old(vars)@, second, vars@);
                vars::lemma_begins(vars@.readings, second.readings, first.readings);
            }
            match t {
                Ok(t) => body_known(at, request, text::utf8_bytes(t.as_str()), options),
                Err(e) => Stage::Done(with_error(at.result, e)),
            }
        },
        Some(Body::FromFile { path, substitute }) => {
            let path: Result<String, String> = vars.substitute_with(
                path.as_str(),
                options.dry_run,
            );
            proof {
                vars::lemma_timed(old(vars)@, second, vars@);
                vars::lemma_begins(vars@.readings, second.readings, first.readings);
            }
            match path {
                Ok(path) => Stage::NeedBody { at, path, substitute: *substitute },
                Err(e) => Stage::Done(with_error(at.result, e)),
            }
        },
    }
}

/// What follows the bytes of a body file, which is shown as `full`.
pub open spec fn body_arrived(
    at: PreparedView,
    substitute: bool,
    request: RequestView,
    full: Seq<char>,
    content: Result<Seq<u8>, Seq<char>>,
    v: VarsView,
    options: OptionsView,
    clock: Seq<u64>,
) -> (StageView, VarsView) {
    match content {
        Err(e) => (
            StageView::Done(errored(at.result, "cannot read body file "@ + full + ": "@ + e)),
            v,
        ),
        Ok(bytes) => if !substitute {
            (with_body(at, request, bytes, options), v)
        } else if !valid_utf8(bytes) {
            (
                StageView::Done(
                    errored(
                        at.result,
                        "body file "@ + full + " is not UTF-8; use '<' instead of '<@'"@,
                    ),
                ),
                v,
            )
        } else {
            let body = vars::replaced(v, decode_utf8(bytes), options.dry_run, clock);
            match body.result {
                Err(e) => (StageView::Done(errored(at.result, e)), body.vars),
                Ok(t) => (with_body(at, request, encode_utf8(t), options), body.vars),
            }
        },
    }
}

/// What a result of bytes holds.
pub open spec fn bytes_result(r: Result<Vec<u8>, String>) -> Result<Seq<u8>, Seq<char>> {
    match r {
        Ok(b) => Ok(b@),
        Err(e) => Err(e@),
    }
}

/// Go on with the bytes of the body file, or why it could not be read.
pub fn with_body_file(
    at: Prepared,
    substitute: bool,
    request: &Request,
    full: &str,
    content: Result<Vec<u8>, String>,
    vars: &mut Vars,
    options: &Options,
) -> (r: Stage)
    ensures
        vars::timed(old(vars)@, final(vars)@),
        (r@, final(vars)@) == body_arrived(
            at@,
            substitute,
            request@,
            full@,
            bytes_result(content),
            old(vars)@,
            options@,
            final(vars)@.readings,
        ),
{
    let bytes: Vec<u8> = match content {
        Ok(bytes) => bytes,
        Err(e) => {
            let message: String = text::concat4("cannot read body file ", full, ": ", e.as_str());
            return Stage::Done(with_error(at.result, message));
        },
    };
    if !substitute {
        return body_known(at, request, bytes, options);
    }
    let content: String = match text::from_utf8(bytes.as_slice()) {
        Some(content) => content,
        None => {
            let message: String = text::concat3(
                "body file ",
                full,
                " is not UTF-8; use '<' instead of '<@'",
            );
            return Stage::Done(with_error(at.result, message));
        },
    };
    match vars.substitute_with(content.as_str(), options.dry_run) {
        Ok(t) => body_known(at, request, text::utf8_bytes(t.as_str()), options),
        Err(e) => Stage::Done(with_error(at.result, e)),
    }
}

/// The header lines of a response head.
pub open spec fn head_lines(headers: Seq<(Seq<char>, Seq<char>)>) -> Seq<Seq<char>> {
    Seq::new(headers.len(), |i: int| headers[i].0 + ": "@ + headers[i].1)
}

/// The result with the response noted.
pub open spec fn recorded(result: ResultView, response: ResponseView, elapsed: Duration) -> ResultView {
    ResultView {
        duration: elapsed,
        http_status: Some(response.status),
        http_reason: response.reason,
        rendered: Some(
            "HTTP/1.1 "@ + text::decimal(response.status as nat) + " "@ + response.reason + "\n"@
                + text::joined(head_lines(response.headers), "\n"@),
        ),
        ..result
    }
}

fn record(result: RequestResult, response: &HttpResponse, elapsed: Duration) -> (r: RequestResult)
    ensures
        r@ == recorded(result@, response@, elapsed),
{
    let ghost all = text::pairs(response.headers@);
    let mut lines: Vec<String> = Vec::new();
    let mut i: usize = 0;
    while i < response.headers.len()
        invariant
            i <= response.headers.len(),
            all == text::pairs(response.headers@),
            lines@.len() == i,
            forall|k: int|
                0 <= k < i ==> (#[trigger] lines@[k])@ == all[k].0 + ": "@ + all[k].1,
        decreases response.headers.len() - i,
    {
        let line: String = text::concat3(
            response.headers[i].0.as_str(),
            ": ",
            response.headers[i].1.as_str(),
        );
        assert(all[i as int] == (response.headers@[i as int].0@, response.headers@[i as int].1@));
        lines.push(line);
        i += 1;
    }
    assert(text::texts(lines@) =~= head_lines(all));
    let code: String = text::decimal_string(response.status as u64);
    let mut rendered: String = text::concat5(
        "HTTP/1.1 ",
        code.as_str(),
        " ",
        response.reason.as_str(),
        "\n",
    );
    let tail: String = text::join(&lines, "\n");
    rendered.append(tail.as_str());
    RequestResult {
        duration: elapsed,
        http_status: Some(response.status),
        http_reason: text::owned(response.reason.as_str()),
        rendered: Some(rendered),
        ..result
    }
}

/// A result, the variables and the globals of the whole run afterwards.
#[verifier::ext_equal]
pub struct Verdict {
    pub result: ResultView,
    pub vars: VarsView,
    pub globals: Map<Seq<char>, Seq<char>>,
}

/// Strict mode: a request without assertions fails on a status of 400 or
/// more.
pub open spec fn strictly(
    result: ResultView,
    response: ResponseView,
    options: OptionsView,
) -> ResultView {
    if options.strict && response.status >= 400 && result.assertions.len() == 0 {
        ResultView {
            status: Status::Failed,
            assertions: seq![
                AssertionView {
                    test: None,
                    passed: false,
                    message: "strict mode: expected status < 400, got "@ + text::decimal(
                        response.status as nat,
                    ) + " "@ + response.reason,
                },
            ],
            ..result
        }
    } else {
        result
    }
}

/// The verdict on a response: by the handler if there is one, and by the
/// status in strict mode.
pub open spec fn judged(
    result: ResultView,
    request: RequestView,
    response: ResponseView,
    options: OptionsView,
    v: VarsView,
    globals: Map<Seq<char>, Seq<char>>,
) -> Verdict {
    match request.handler {
        Some(handler) => match script::executed(handler.script, response) {
            Err(e) => Verdict {
                result: errored(
                    result,
                    "response handler (line "@ + text::decimal(handler.line as nat) + "): "@ + e,
                ),
                vars: v,
                globals,
            },
            Ok(out) => Verdict {
                result: strictly(
                    ResultView {
                        status: if script::failures(out.assertions) > 0 {
                            Status::Failed
                        } else {
                            Status::Passed
                        },
                        logs: out.logs,
                        assertions: out.assertions,
                        ..result
                    },
                    response,
                    options,
                ),
                vars: VarsView { globals: with_pairs(v.globals, out.globals, 0), ..v },
                globals: with_pairs(globals, out.globals, 0),
            },
        },
        None => Verdict {
            result: strictly(
                ResultView { status: Status::Passed, ..result },
                response,
                options,
            ),
            vars: v,
            globals,
        },
    }
}

fn check_strictly(result: RequestResult, response: &HttpResponse, options: &Options) -> (r:
    RequestResult)
    ensures
        r@ == strictly(result@, response@, options@),
{
    if !options.strict || response.status < 400 || result.assertions.len() > 0 {
        return result;
    }
    let code: String = text::decimal_string(response.status as u64);
    let message: String = text::concat4(
        "strict mode: expected status < 400, got ",
        code.as_str(),
        " ",
        response.reason.as_str(),
    );
    let assertion: Assertion = Assertion { test: None, passed: false, message };
    let mut assertions: Vec<Assertion> = Vec::new();
    assertions.push(assertion);
    assert(script::assertion_views(assertions@) =~= seq![assertion@]);
    RequestResult { status: Status::Failed, assertions, ..result }
}

fn capture(vars: &mut Vars, globals: &mut Table, pairs: &Vec<(String, String)>)
    ensures
        final(vars)@ == (VarsView {
            globals: with_pairs(old(vars)@.globals, text::pairs(pairs@), 0),
            ..old(vars)@
        }),
        final(globals)@ == with_pairs(old(globals)@, text::pairs(pairs@), 0),
{
    let ghost start = vars@;
    let ghost table = globals@;
    let ghost all = text::pairs(pairs@);
    let mut i: usize = 0;
    while i < pairs.len()
        invariant
            i <= pairs.len(),
            start == old(vars)@,
            table == old(globals)@,
            all == text::pairs(pairs@),
            vars@ == (VarsView { globals: vars@.globals, ..start }),
            with_pairs(start.globals, all, 0) == with_pairs(vars@.globals, all, i as int),
            with_pairs(table, all, 0) == with_pairs(globals@, all, i as int),
        decreases pairs.len() - i,
    {
        assert(all[i as int] == (pairs@[i as int].0@, pairs@[i as int].1@));
        vars.set_global(pairs[i].0.as_str(), pairs[i].1.as_str());
        globals.set(pairs[i].0.as_str(), pairs[i].1.as_str());
        i += 1;
    }
}

/// Judge a response: run the handler if there is one, and look at the status
/// in strict mode. Captured globals go to the variables of the file and to the
/// globals of the run.
pub fn judge(
    result: RequestResult,
    request: &Request,
    response: &HttpResponse,
    options: &Options,
    vars: &mut Vars,
    globals: &mut Table,
) -> (r: RequestResult)
    ensures
        (Verdict { result: r@, vars: final(vars)@, globals: final(globals)@ }) == judged(
            result@,
            request@,
            response@,
            options@,
            old(vars)@,
            old(globals)@,
        ),
{
    let handler: &Handler = match &request.handler {
        Some(handler) => handler,
        None => {
            let result: RequestResult = RequestResult { status: Status::Passed, ..result };
            return check_strictly(result, response, options);
        },
    };
    match script::run(handler.script.as_str(), response) {
        Err(e) => {
            let line: String = text::decimal_string(handler.line as u64);
            let message: String = text::concat4(
                "response handler (line ",
                line.as_str(),
                "): ",
                e.as_str(),
            );
            with_error(result, message)
        },
        Ok(out) => {
            capture(vars, globals, &out.globals);
            let status: Status = if out.failed() > 0 {
                Status::Failed
            } else {
                Status::Passed
            };
            let result: RequestResult = RequestResult {
                status,
                logs: out.logs,
                assertions: out.assertions,
                ..result
            };
            check_strictly(result, response, options)
        },
    }
}

/// A stage, the variables and the globals of the whole run afterwards.
pub struct Turn {
    pub stage: StageView,
    pub vars: VarsView,
    pub globals: Map<Seq<char>, Seq<char>>,
}

/// The turn that ends a request with a verdict.
pub open spec fn closed_with(verdict: Verdict) -> Turn {
    Turn {
        stage: StageView::Done(verdict.result),
        vars: verdict.vars,
        globals: verdict.globals,
    }
}

/// What follows the reply to a request.
pub open spec fn reply_arrived(
    at: PreparedView,
    request: RequestView,
    reply: Result<ResponseView, Seq<char>>,
    elapsed: Duration,
    options: OptionsView,
    v: VarsView,
    globals: Map<Seq<char>, Seq<char>>,
    clock: Seq<u64>,
) -> Turn {
    match reply {
        Err(e) => Turn { stage: StageView::Done(errored(at.result, e)), vars: v, globals },
        Ok(response) => {
            let result = recorded(at.result, response, elapsed);
            match request.save_response {
                None => closed_with(judged(result, request, response, options, v, globals)),
                Some((save_path, force)) => {
                    let path = vars::replaced(v, save_path, false, clock);
                    match path.result {
                        Err(e) => Turn {
                            stage: StageView::Done(errored(result, e)),
                            vars: path.vars,
                            globals,
                        },
                        Ok(p) => Turn {
                            stage: StageView::NeedSave { result, response, path: p, force },
                            vars: path.vars,
                            globals,
                        },
                    }
                },
            }
        },
    }
}

/// What a reply holds.
pub open spec fn reply_view(r: Result<HttpResponse, String>) -> Result<ResponseView, Seq<char>> {
    match r {
        Ok(response) => Ok(response@),
        Err(e) => Err(e@),
    }
}

/// Go on with the response, or why there is none.
pub fn with_reply(
    at: Prepared,
    request: &Request,
    reply: Result<HttpResponse, String>,
    elapsed: Duration,
    options: &Options,
    vars: &mut Vars,
    globals: &mut Table,
) -> (r: Stage)
    ensures
        vars::timed(old(vars)@, final(vars)@),
        (Turn { stage: r@, vars: final(vars)@, globals: final(globals)@ }) == reply_arrived(
            at@,
            request@,
            reply_view(reply),
            elapsed,
            options@,
            old(vars)@,
            old(globals)@,
            final(vars)@.readings,
        ),
{
    let response: HttpResponse = match reply {
        Ok(response) => response,
        Err(e) => {
            return Stage::Done(with_error(at.result, e));
        },
    };
    let result: RequestResult = record(at.result, &response, elapsed);
    match &request.save_response {
        None => Stage::Done(judge(result, request, &response, options, vars, globals)),
        Some((save_path, force)) => match vars.substitute_with(save_path.as_str(), false) {
            Ok(path) => Stage::NeedSave { result, response, path, force: *force },
            Err(e) => Stage::Done(with_error(result, e)),
        },
    }
}

/// How saving a body went.
#[derive(Debug)]
pub enum Saved {
    Written,
    /// The file exists and may not be overwritten.
    Exists,
    /// The directory could not be made.
    NoDirectory { dir: String, detail: String },
    /// The file could not be written.
    NotWritten { detail: String },
}

/// Why a body was not saved; `full` is the file as shown.
pub open spec fn save_failure(saved: Saved, full: Seq<char>) -> Option<Seq<char>> {
    match saved {
        Saved::Written => None,
        Saved::Exists => Some("refusing to overwrite "@ + full + " (use '>>!' to force)"@),
        Saved::NoDirectory { dir, detail } => Some(
            "cannot create "@ + dir@ + ": "@ + detail@,
        ),
        Saved::NotWritten { detail } => Some("cannot write "@ + full + ": "@ + detail@),
    }
}

/// Whether a save must be refused.
pub fn refuses_save(exists: bool, force: bool) -> (r: bool)
    ensures
        r == (exists && !force),
{
    exists && !force
}

/// What follows the attempt to save the body.
pub open spec fn save_done(
    result: ResultView,
    request: RequestView,
    response: ResponseView,
    failure: Option<Seq<char>>,
    options: OptionsView,
    v: VarsView,
    globals: Map<Seq<char>, Seq<char>>,
) -> Verdict {
    match failure {
        Some(e) => Verdict { result: errored(result, e), vars: v, globals },
        None => judged(result, request, response, options, v, globals),
    }
}

/// Go on after the attempt to save the body.
pub fn with_saved(
    result: RequestResult,
    request: &Request,
    response: &HttpResponse,
    full: &str,
    saved: Saved,
    options: &Options,
    vars: &mut Vars,
    globals: &mut Table,
) -> (r: RequestResult)
    ensures
        (Verdict { result: r@, vars: final(vars)@, globals: final(globals)@ }) == save_done(
            result@,
            request@,
            response@,
            save_failure(saved, full@),
            options@,
            old(vars)@,
            old(globals)@,
        ),
{
    match saved {
        Saved::Written => judge(result, request, response, options, vars, globals),
        Saved::Exists => with_error(
            result,
            text::concat3("refusing to overwrite ", full, " (use '>>!' to force)"),
        ),
        Saved::NoDirectory { dir, detail } => with_error(
            result,
            text::concat4("cannot create ", dir.as_str(), ": ", detail.as_str()),
        ),
        Saved::NotWritten { detail } => with_error(
            result,
            text::concat4("cannot write ", full, ": ", detail.as_str()),
        ),
    }
}

// --------------------------------------------------------------- laws ----

/// A dry run never asks for a response: nothing is sent.
pub proof fn law_dry_run_sends_nothing(
    request: RequestView,
    name: Seq<char>,
    v: VarsView,
    options: OptionsView,
    clock: Seq<u64>,
)
    requires
        options.dry_run,
    ensures
        !(started(request, name, v, options, clock).0 is NeedResponse),
        forall|
            at: PreparedView,
            substitute: bool,
            full: Seq<char>,
            content: Result<Seq<u8>, Seq<char>>,
            w: VarsView,
        |
            !(#[trigger] body_arrived(at, substitute, request, full, content, w, options, clock).0
                is NeedResponse),
{
}

/// A request with an unknown variable or a bad URL ends in an error before
/// anything is sent.
pub proof fn law_unresolved_request_is_an_error(
    request: RequestView,
    name: Seq<char>,
    v: VarsView,
    options: OptionsView,
    clock: Seq<u64>,
)
    requires
        vars::replaced(v, request.url, options.dry_run, clock).result matches Ok(u)
            ==> url::parsed(u) is Err,
    ensures
        started(request, name, v, options, clock).0 matches StageView::Done(r) && r.status
            == Status::Error && r.error is Some && r.http_status is None,
{
}

/// What is sent is resolved: a request goes on only once its URL, all its
/// header values and its inline body have resolved.
pub proof fn law_only_resolved_requests_go_on(
    request: RequestView,
    name: Seq<char>,
    v: VarsView,
    options: OptionsView,
    clock: Seq<u64>,
)
    requires
        !(started(request, name, v, options, clock).0 is Done),
    ensures
        ({
            let raw = vars::replaced(v, request.url, options.dry_run, clock);
            let (headers, w) = headers_resolved(
                raw.vars,
                request.headers,
                0,
                seq![],
                options.dry_run,
                clock,
            );
            &&& raw.result matches Ok(u) && url::parsed(u) is Ok
            &&& headers is Ok
            &&& request.body matches Some(BodyView::Inline(t)) ==> vars::replaced(
                w,
                t,
                options.dry_run,
                clock,
            ).result is Ok
        }),
{
}

/// A check that did not run never reports green: a request passes only when its
/// handler, if it has one, ran to the end, and none of its assertions failed.
pub proof fn law_passed_has_no_failed_assertion(
    result: ResultView,
    request: RequestView,
    response: ResponseView,
    options: OptionsView,
    v: VarsView,
    globals: Map<Seq<char>, Seq<char>>,
)
    requires
        result.assertions.len() == 0,
        judged(result, request, response, options, v, globals).result.status == Status::Passed,
    ensures
        script::failures(
            judged(result, request, response, options, v, globals).result.assertions,
        ) == 0,
        request.handler matches Some(handler) ==> (script::executed(handler.script, response)
            matches Ok(out) && judged(
            result,
            request,
            response,
            options,
            v,
            globals,
        ).result.assertions == out.assertions),
{
}

/// In strict mode no request without assertions passes on a status of 400 or
/// more.
pub proof fn law_strict_needs_assertions(
    result: ResultView,
    request: RequestView,
    response: ResponseView,
    options: OptionsView,
    v: VarsView,
    globals: Map<Seq<char>, Seq<char>>,
)
    requires
        options.strict,
        response.status >= 400,
        judged(result, request, response, options, v, globals).result.status == Status::Passed,
    ensures
        judged(result, request, response, options, v, globals).result.assertions.len() > 0,
{
}

proof fn lemma_file_vars_keep_globals(
    v: VarsView,
    pairs: Seq<(Seq<char>, Seq<char>)>,
    i: int,
    clock: Seq<u64>,
)
    ensures
        vars::file_vars_from(v, pairs, i, clock).1.globals == v.globals,
        vars::file_vars_from(v, pairs, i, clock).1.overrides == v.overrides,
        vars::file_vars_from(v, pairs, i, clock).1.env_vars == v.env_vars,
    decreases pairs.len() - i,
{
    if 0 <= i < pairs.len() {
        vars::law_substitution_keeps_variables(v, pairs[i].1, false, clock);
        let value = vars::replaced(v, pairs[i].1, false, clock);
        if let Ok(t) = value.result {
            lemma_file_vars_keep_globals(
                VarsView {
                    file_vars: value.vars.file_vars.insert(pairs[i].0, t),
                    ..value.vars
                },
                pairs,
                i + 1,
                clock,
            );
        }
    }
}

/// A value captured by a handler is seen by the requests of every later file,
/// unless an override hides it.
pub proof fn law_globals_reach_later_files(
    file: FileView,
    env: Option<EnvFilesView>,
    options: OptionsView,
    globals: Map<Seq<char>, Seq<char>>,
    v: VarsView,
    clock: Seq<u64>,
    name: Seq<char>,
)
    requires
        globals.contains_key(name),
    ensures
        opened(file, env, options, globals, v, clock) matches Ok((_, w)) ==> (!w.overrides.contains_key(
            name,
        ) ==> w.lookup(name) == Some(globals[name])),
{
    if let Ok(content) = file.content {
        if let Ok(parsed) = parser::parsed(content) {
            if let Ok(env_vars) = run_env(v.env_vars, file.path, env, options) {
                lemma_file_vars_keep_globals(
                    run_vars(v, env_vars, options, globals),
                    parsed.variables,
                    0,
                    clock,
                );
            }
        }
    }
}

pub(crate) proof fn lemma_with_pairs(
    table: Map<Seq<char>, Seq<char>>,
    pairs: Seq<(Seq<char>, Seq<char>)>,
    i: int,
    k: int,
)
    requires
        0 <= i <= k <= pairs.len(),
        forall|j: int| k < j < pairs.len() ==> (#[trigger] pairs[j]).0 != pairs[k].0,
    ensures
        k < pairs.len() ==> with_pairs(table, pairs, i).get(pairs[k].0) == Some(pairs[k].1),
    decreases pairs.len() - i,
{
    if k < pairs.len() {
        let next = table.insert(pairs[i].0, pairs[i].1);
        if i < k {
            lemma_with_pairs(next, pairs, i + 1, k);
        } else {
            lemma_pairs_absent(next, pairs, i + 1, pairs[k].0);
        }
    }
}

pub(crate) proof fn lemma_pairs_absent(
    table: Map<Seq<char>, Seq<char>>,
    pairs: Seq<(Seq<char>, Seq<char>)>,
    i: int,
    name: Seq<char>,
)
    requires
        0 <= i <= pairs.len(),
        forall|j: int| i <= j < pairs.len() ==> (#[trigger] pairs[j]).0 != name,
    ensures
        with_pairs(table, pairs, i).get(name) == table.get(name),
    decreases pairs.len() - i,
{
    if i < pairs.len() {
        lemma_pairs_absent(table.insert(pairs[i].0, pairs[i].1), pairs, i + 1, name);
    }
}

/// What a handler captures under a name is what later requests see: the last
/// value it set, both in the variables of the file and in the globals of the
/// run.
pub proof fn law_captured_value_is_kept(
    result: ResultView,
    request: RequestView,
    response: ResponseView,
    options: OptionsView,
    v: VarsView,
    globals: Map<Seq<char>, Seq<char>>,
    k: int,
)
    requires
        request.handler is Some,
        script::executed(request.handler->0.script, response) matches Ok(out) && 0 <= k
            < out.globals.len() && forall|j: int|
            k < j < out.globals.len() ==> (#[trigger] out.globals[j]).0 != out.globals[k].0,
    ensures
        ({
            let pair = script::executed(request.handler->0.script, response)->Ok_0.globals[k];
            let verdict = judged(result, request, response, options, v, globals);
            verdict.globals.get(pair.0) == Some(pair.1) && verdict.vars.globals.get(pair.0)
                == Some(pair.1)
        }),
{
    let out = script::executed(request.handler->0.script, response)->Ok_0;
    lemma_with_pairs(v.globals, out.globals, 0, k);
    lemma_with_pairs(globals, out.globals, 0, k);
}

} // verus!
