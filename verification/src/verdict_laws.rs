//! What becomes of a request: what is sent, and how the answer is judged.

use crate::duration::Duration;
use crate::files;
use crate::http;
use crate::http::ResponseView;
use crate::parser;
use crate::parser::{BodyView, HandlerView, RequestView};
use crate::runner;
use crate::runner::{
    OptionsView,
    PlanView,
    PreparedView,
    ResultView,
    Saved,
    StageView,
    Status,
    Verdict,
};
use crate::script;
use crate::script::{AssertionView, OutcomeView};
use crate::text;
use crate::url;
use crate::url::UrlView;
use crate::vars;
use crate::vars::VarsView;
use vstd::prelude::*;
use vstd::utf8::*;

verus! {

// ------------------------------------------------------------- verdict ----

/// Some assertion did not pass.
pub open spec fn some_failed(assertions: Seq<AssertionView>) -> bool {
    exists|k: int| 0 <= k < assertions.len() && !(#[trigger] assertions[k]).passed
}

proof fn lemma_failures(assertions: Seq<AssertionView>)
    ensures
        script::failures(assertions) > 0 <==> some_failed(assertions),
    decreases assertions.len(),
{
    if assertions.len() > 0 {
        let before = assertions.drop_last();
        lemma_failures(before);
        if some_failed(before) {
            let k = choose|k: int| 0 <= k < before.len() && !(#[trigger] before[k]).passed;
            assert(!assertions[k].passed);
        }
        if some_failed(assertions) && assertions.last().passed {
            let k = choose|k: int|
                0 <= k < assertions.len() && !(#[trigger] assertions[k]).passed;
            assert(before[k] == assertions[k]);
        }
        if !assertions.last().passed {
            assert(!assertions[assertions.len() - 1].passed);
        }
    }
}

/// How many assertions did not pass.
pub open spec fn failed_count(assertions: Seq<AssertionView>) -> nat {
    assertions.filter(|a: AssertionView| !a.passed).len()
}

pub(crate) proof fn lemma_failed_count(assertions: Seq<AssertionView>)
    ensures
        script::failures(assertions) == failed_count(assertions),
    decreases assertions.len(),
{
    reveal(Seq::filter);
    if assertions.len() > 0 {
        lemma_failed_count(assertions.drop_last());
    }
}

/// The one assertion that strict mode adds.
pub open spec fn strict_assertion(response: ResponseView) -> AssertionView {
    AssertionView {
        test: None,
        passed: false,
        message: "strict mode: expected status < 400, got "@ + text::decimal(
            response.status as nat,
        ) + " "@ + response.reason,
    }
}

/// Without a handler a response passes, whatever its status is; only strict
/// mode fails it, from 400 on, with one assertion that says so. Nothing else
/// changes.
pub proof fn law_verdict_without_handler(
    result: ResultView,
    request: RequestView,
    response: ResponseView,
    options: OptionsView,
    v: VarsView,
    globals: Map<Seq<char>, Seq<char>>,
)
    requires
        request.handler is None,
        result.assertions.len() == 0,
    ensures
        ({
            let verdict = runner::judged(result, request, response, options, v, globals);
            let refused = options.strict && response.status >= 400;
            &&& verdict.vars == v
            &&& verdict.globals == globals
            &&& verdict.result == (ResultView {
                status: verdict.result.status,
                assertions: verdict.result.assertions,
                ..result
            })
            &&& refused ==> verdict.result.status == Status::Failed
                && verdict.result.assertions == seq![strict_assertion(response)]
            &&& !refused ==> verdict.result.status == Status::Passed
                && verdict.result.assertions.len() == 0
        }),
{
}

/// A handler that runs decides by its assertions: the request fails if and
/// only if one of them failed. All that it asserted and logged is kept, in
/// order. Strict mode adds to a handler without assertions what it adds where
/// there is none.
pub proof fn law_verdict_of_handler(
    result: ResultView,
    request: RequestView,
    response: ResponseView,
    options: OptionsView,
    v: VarsView,
    globals: Map<Seq<char>, Seq<char>>,
    handler: HandlerView,
    out: OutcomeView,
    name: Seq<char>,
)
    requires
        request.handler == Some(handler),
        script::executed(handler.script, response) == Ok::<OutcomeView, Seq<char>>(out),
    ensures
        ({
            let verdict = runner::judged(result, request, response, options, v, globals);
            let refused = options.strict && response.status >= 400 && out.assertions.len() == 0;
            &&& verdict.result.logs == out.logs
            &&& refused ==> verdict.result.assertions == seq![strict_assertion(response)]
            &&& !refused ==> verdict.result.assertions == out.assertions
            &&& verdict.result.status == Status::Failed <==> some_failed(out.assertions) || refused
            &&& verdict.result.status == Status::Passed <==> !some_failed(out.assertions)
                && !refused
            &&& verdict.result == (ResultView {
                status: verdict.result.status,
                assertions: verdict.result.assertions,
                logs: verdict.result.logs,
                ..result
            })
            &&& verdict.vars == (VarsView { globals: verdict.vars.globals, ..v })
            &&& (forall|k: int| 0 <= k < out.globals.len() ==> (#[trigger] out.globals[k]).0 != name)
                ==> verdict.globals.get(name) == globals.get(name) && verdict.vars.globals.get(name)
                == v.globals.get(name)
        }),
{
    lemma_failures(out.assertions);
    if forall|k: int| 0 <= k < out.globals.len() ==> (#[trigger] out.globals[k]).0 != name {
        runner::lemma_pairs_absent(globals, out.globals, 0, name);
        runner::lemma_pairs_absent(v.globals, out.globals, 0, name);
    }
}

/// A handler that does not run makes the request an error, which names the
/// line of the handler; nothing is captured.
pub proof fn law_verdict_of_broken_handler(
    result: ResultView,
    request: RequestView,
    response: ResponseView,
    options: OptionsView,
    v: VarsView,
    globals: Map<Seq<char>, Seq<char>>,
    handler: HandlerView,
    e: Seq<char>,
)
    requires
        request.handler == Some(handler),
        script::executed(handler.script, response) == Err::<OutcomeView, Seq<char>>(e),
    ensures
        runner::judged(result, request, response, options, v, globals) == (Verdict {
            result: ResultView {
                status: Status::Error,
                error: Some(
                    "response handler (line "@ + text::decimal(handler.line as nat) + "): "@ + e,
                ),
                ..result
            },
            vars: v,
            globals,
        }),
{
}

/// A reply is noted in the result, with its status, reason and duration; no
/// reply is an error that keeps the reason.
pub proof fn law_reply_is_noted(
    at: PreparedView,
    request: RequestView,
    response: ResponseView,
    e: Seq<char>,
    elapsed: Duration,
    options: OptionsView,
    v: VarsView,
    globals: Map<Seq<char>, Seq<char>>,
    clock: Seq<u64>,
)
    requires
        request.save_response is None,
    ensures
        runner::reply_arrived(at, request, Ok(response), elapsed, options, v, globals, clock).stage
            matches StageView::Done(r) && r.http_status == Some(response.status) && r.http_reason
            == response.reason && r.duration == elapsed && r.name == at.result.name && r.method
            == at.result.method && r.url == at.result.url,
        runner::reply_arrived(at, request, Err(e), elapsed, options, v, globals, clock).stage
            == StageView::Done(
            ResultView { status: Status::Error, error: Some(e), ..at.result },
        ),
        runner::reply_arrived(at, request, Err(e), elapsed, options, v, globals, clock).vars == v,
        runner::reply_arrived(at, request, Err(e), elapsed, options, v, globals, clock).globals
            == globals,
{
}

/// A response that is to be saved is handed out whole, with the path as it
/// resolves and whether it may overwrite.
pub proof fn law_response_is_saved(
    at: PreparedView,
    request: RequestView,
    response: ResponseView,
    path: Seq<char>,
    force: bool,
    elapsed: Duration,
    options: OptionsView,
    v: VarsView,
    globals: Map<Seq<char>, Seq<char>>,
    clock: Seq<u64>,
)
    requires
        request.save_response == Some((path, force)),
        !text::contains(path, "{{"@),
    ensures
        runner::reply_arrived(at, request, Ok(response), elapsed, options, v, globals, clock).stage
            matches StageView::NeedSave { result, response: r, path: p, force: f } && r == response
            && p == path && f == force && result.http_status == Some(response.status)
            && result.duration == elapsed && result.name == at.result.name,
{
    vars::law_plain_text_is_unchanged(v, path, false, clock);
}

/// Only a body that was written lets the request be judged; else it is an
/// error, whatever the handler says.
pub proof fn law_failed_save_is_an_error(
    result: ResultView,
    request: RequestView,
    response: ResponseView,
    saved: Saved,
    full: Seq<char>,
    options: OptionsView,
    v: VarsView,
    globals: Map<Seq<char>, Seq<char>>,
)
    ensures
        ({
            let verdict = runner::save_done(
                result,
                request,
                response,
                runner::save_failure(saved, full),
                options,
                v,
                globals,
            );
            &&& saved is Written ==> verdict == runner::judged(
                result,
                request,
                response,
                options,
                v,
                globals,
            )
            &&& !(saved is Written) ==> verdict.result.status == Status::Error
                && verdict.result.error is Some && verdict.vars == v && verdict.globals == globals
            &&& saved is Exists ==> verdict.result.error == Some(
                "refusing to overwrite "@ + full + " (use '>>!' to force)"@,
            )
        }),
{
}

// ---------------------------------------------------------------- sent ----

/// No header value holds a placeholder.
pub open spec fn plain_headers(headers: Seq<(Seq<char>, Seq<char>)>) -> bool {
    forall|k: int| 0 <= k < headers.len() ==> !text::contains((#[trigger] headers[k]).1, "{{"@)
}

proof fn lemma_plain_headers(
    v: VarsView,
    headers: Seq<(Seq<char>, Seq<char>)>,
    i: int,
    lenient: bool,
    clock: Seq<u64>,
)
    requires
        0 <= i <= headers.len(),
        plain_headers(headers),
    ensures
        runner::headers_resolved(v, headers, i, headers.take(i), lenient, clock) == (
            Ok::<Seq<(Seq<char>, Seq<char>)>, Seq<char>>(headers),
            v,
        ),
    decreases headers.len() - i,
{
    if i < headers.len() {
        assert(!text::contains(headers[i].1, "{{"@));
        vars::law_plain_text_is_unchanged(v, headers[i].1, lenient, clock);
        assert(headers.take(i).push((headers[i].0, headers[i].1)) =~= headers.take(i + 1));
        lemma_plain_headers(v, headers, i + 1, lenient, clock);
    } else {
        assert(headers.take(i) =~= headers);
    }
}

/// Headers keep their names and their order; each value is what it resolves
/// to with the variables of the file.
pub proof fn law_headers_resolve_in_order(
    v: VarsView,
    headers: Seq<(Seq<char>, Seq<char>)>,
    lenient: bool,
    clock: Seq<u64>,
    k: int,
)
    requires
        0 <= k < headers.len(),
    ensures
        runner::headers_resolved(v, headers, 0, seq![], lenient, clock).0 matches Ok(done)
            ==> done.len() == headers.len() && done[k].0 == headers[k].0 && exists|w: VarsView|
            w == (VarsView { rng: w.rng, readings: w.readings, ..v }) && (
            #[trigger] vars::replaced(w, headers[k].1, lenient, clock)).result == Ok::<
                Seq<char>,
                Seq<char>,
            >(done[k].1),
{
    let e = Seq::<(Seq<char>, Seq<char>)>::empty();
    lemma_headers_in_order(v, v, headers, 0, e, lenient, clock, k);
}

proof fn lemma_headers_in_order(
    v: VarsView,
    start: VarsView,
    headers: Seq<(Seq<char>, Seq<char>)>,
    i: int,
    acc: Seq<(Seq<char>, Seq<char>)>,
    lenient: bool,
    clock: Seq<u64>,
    k: int,
)
    requires
        0 <= i <= headers.len(),
        0 <= k < headers.len(),
        acc.len() == i,
        v == (VarsView { rng: v.rng, readings: v.readings, ..start }),
        k < i ==> acc[k].0 == headers[k].0 && exists|w: VarsView|
            w == (VarsView { rng: w.rng, readings: w.readings, ..start }) && (
            #[trigger] vars::replaced(w, headers[k].1, lenient, clock)).result == Ok::<
                Seq<char>,
                Seq<char>,
            >(acc[k].1),
    ensures
        runner::headers_resolved(v, headers, i, acc, lenient, clock).0 matches Ok(done)
            ==> done.len() == headers.len() && done[k].0 == headers[k].0 && exists|w: VarsView|
            w == (VarsView { rng: w.rng, readings: w.readings, ..start }) && (
            #[trigger] vars::replaced(w, headers[k].1, lenient, clock)).result == Ok::<
                Seq<char>,
                Seq<char>,
            >(done[k].1),
    decreases headers.len() - i,
{
    if i < headers.len() {
        let value = vars::replaced(v, headers[i].1, lenient, clock);
        vars::law_substitution_keeps_variables(v, headers[i].1, lenient, clock);
        if let Ok(t) = value.result {
            let next = acc.push((headers[i].0, t));
            if k < i {
                assert(next[k] == acc[k]);
            }
            lemma_headers_in_order(
                value.vars,
                start,
                headers,
                i + 1,
                next,
                lenient,
                clock,
                k,
            );
        }
    }
}

/// A request without placeholders is sent as it is written: to the place that
/// its URL names, with its headers, and with its text as the body.
pub proof fn law_plain_request_is_sent(
    request: RequestView,
    name: Seq<char>,
    v: VarsView,
    options: OptionsView,
    clock: Seq<u64>,
    target: UrlView,
    body: Seq<char>,
)
    requires
        !options.dry_run,
        !text::contains(request.url, "{{"@),
        url::parsed(request.url) == Ok::<UrlView, Seq<char>>(target),
        plain_headers(request.headers),
        !text::contains(body, "{{"@),
        request.body == (if body.len() == 0 {
            None
        } else {
            Some(BodyView::Inline(body))
        }),
    ensures
        runner::started(request, name, v, options, clock).1 == v,
        runner::started(request, name, v, options, clock).0 matches StageView::NeedResponse {
            at,
            body: bytes,
        } && at.target == target && at.headers == request.headers && bytes == encode_utf8(body)
            && at.result.name == name && at.result.method == request.method && at.result.url
            == request.url && at.result.http_status is None && at.result.assertions.len() == 0,
{
    vars::law_plain_text_is_unchanged(v, request.url, options.dry_run, clock);
    assert(request.headers.take(0) =~= seq![]);
    lemma_plain_headers(v, request.headers, 0, options.dry_run, clock);
    if body.len() > 0 {
        vars::law_plain_text_is_unchanged(v, body, options.dry_run, clock);
    } else {
        assert(body =~= seq![]);
        assert(encode_utf8(body) =~= seq![]) by {
            reveal_with_fuel(encode_utf8, 1);
        }
    }
}

/// The bytes of a body file are sent as they are; only a file that is read as
/// text resolves, and has to be UTF-8. One that cannot be read is an error.
pub proof fn law_body_file_is_sent(
    at: PreparedView,
    request: RequestView,
    full: Seq<char>,
    bytes: Seq<u8>,
    e: Seq<char>,
    v: VarsView,
    options: OptionsView,
    clock: Seq<u64>,
)
    requires
        !options.dry_run,
    ensures
        runner::body_arrived(at, false, request, full, Ok(bytes), v, options, clock) == (
            StageView::NeedResponse { at, body: bytes },
            v,
        ),
        valid_utf8(bytes) ==> ({
            let text = vars::replaced(v, decode_utf8(bytes), false, clock);
            let stage = runner::body_arrived(at, true, request, full, Ok(bytes), v, options, clock);
            &&& stage.1 == text.vars
            &&& text.result matches Ok(t) ==> stage.0 == StageView::NeedResponse {
                at,
                body: encode_utf8(t),
            }
            &&& text.result matches Err(e) ==> stage.0 == StageView::Done(
                ResultView { status: Status::Error, error: Some(e), ..at.result },
            )
        }),
        !valid_utf8(bytes) ==> (runner::body_arrived(
            at,
            true,
            request,
            full,
            Ok(bytes),
            v,
            options,
            clock,
        ).0 matches StageView::Done(r) && r.status == Status::Error && r.error == Some(
            "body file "@ + full + " is not UTF-8; use '<' instead of '<@'"@,
        )),
        forall|substitute: bool|
            (#[trigger] runner::body_arrived(
                at,
                substitute,
                request,
                full,
                Err(e),
                v,
                options,
                clock,
            )).0 matches StageView::Done(r) && r.status == Status::Error && r.error == Some(
                "cannot read body file "@ + full + ": "@ + e,
            ),
{
}

/// What a dry run renders is the request as it would be sent, and it passes.
pub proof fn law_dry_run_renders_the_request(
    at: PreparedView,
    request: RequestView,
    full: Seq<char>,
    bytes: Seq<u8>,
    v: VarsView,
    options: OptionsView,
    clock: Seq<u64>,
)
    requires
        options.dry_run,
    ensures
        runner::body_arrived(at, false, request, full, Ok(bytes), v, options, clock).0
            == StageView::Done(
            ResultView {
                status: Status::Passed,
                rendered: Some(
                    text::utf8_lossy(
                        encode_utf8(
                            http::request_head(
                                request.method,
                                at.target,
                                at.headers,
                                bytes.len(),
                            ),
                        ) + bytes,
                    ),
                ),
                ..at.result
            },
        ),
{
}

// ------------------------------------------------------------ selection ----

/// A request is shown under its name, or else under its number from 1 on.
pub proof fn law_shown_name(request: RequestView, index: nat, name: Seq<char>)
    ensures
        request.name == Some(name) ==> runner::shown_name(request, index as int) == name,
        request.name is None ==> runner::shown_name(request, index as int) == "request #"@
            + text::decimal(index + 1),
{
}

/// Without a filter every request is taken; with one, those whose name it
/// lists. What is taken runs, or is skipped once the run has stopped.
pub proof fn law_plan(
    request: RequestView,
    index: int,
    options: OptionsView,
    abort: bool,
    k: int,
)
    ensures
        ({
            let name = runner::shown_name(request, index);
            let plan = runner::planned(request, index, options, abort);
            let listed = 0 <= k < options.filter.len() && options.filter[k] == name;
            &&& options.filter.len() == 0 || listed ==> (if abort {
                plan matches PlanView::Skip(r) && r.status == Status::Skipped && r.name == name
                    && r.method == request.method && r.url == request.url && r.error is None
                    && r.assertions.len() == 0 && r.http_status is None
            } else {
                plan == PlanView::Run(name)
            })
            &&& plan is Leave ==> options.filter.len() > 0 && !listed
            &&& !(plan is Leave) && options.filter.len() > 0 ==> exists|j: int|
                0 <= j < options.filter.len() && #[trigger] options.filter[j] == name
        }),
{
    let name = runner::shown_name(request, index);
    if options.filter.contains(name) {
        let j = choose|j: int| 0 <= j < options.filter.len() && options.filter[j] == name;
        assert(options.filter[j] == name);
    }
}

/// A run without a single result is an error only where a filter was given,
/// and the error lists the filter.
pub proof fn law_filter_without_match(
    path: Seq<char>,
    results: Seq<ResultView>,
    options: OptionsView,
)
    ensures
        runner::finished(path, results, options) matches Ok(f) ==> f.path == path && f.results
            == results,
        runner::finished(path, results, options) is Err <==> options.filter.len() > 0
            && results.len() == 0,
        options.filter.len() == 1 && results.len() == 0 ==> runner::finished(
            path,
            results,
            options,
        ) == Err::<runner::FileResultView, Seq<char>>(
            path + ": no request matches --request "@ + options.filter[0],
        ),
{
    if options.filter.len() == 1 {
        assert(text::joined(options.filter, ", "@) == options.filter[0]);
    }
}

/// A value given on the command line is what a name means, the last one where
/// it is given twice.
pub proof fn law_last_override_wins(
    v: VarsView,
    env_vars: Map<Seq<char>, Seq<char>>,
    options: OptionsView,
    globals: Map<Seq<char>, Seq<char>>,
    k: int,
    name: Seq<char>,
)
    requires
        0 <= k < options.overrides.len(),
        forall|j: int|
            k < j < options.overrides.len() ==> (#[trigger] options.overrides[j]).0
                != options.overrides[k].0,
        forall|j: int|
            0 <= j < options.overrides.len() ==> (#[trigger] options.overrides[j]).0 != name,
        !v.overrides.contains_key(name),
    ensures
        ({
            let w = runner::run_vars(v, env_vars, options, globals);
            &&& w.lookup(options.overrides[k].0) == Some(options.overrides[k].1)
            &&& globals.contains_key(name) ==> w.lookup(name) == Some(globals[name])
            &&& !globals.contains_key(name) && v.globals.contains_key(name) ==> w.lookup(name)
                == Some(v.globals[name])
            &&& !globals.contains_key(name) && !v.globals.contains_key(name)
                && !v.file_vars.contains_key(name) && env_vars.contains_key(name) ==> w.lookup(name)
                == Some(env_vars[name])
        }),
{
    runner::lemma_with_pairs(v.overrides, options.overrides, 0, k);
    runner::lemma_pairs_absent(v.overrides, options.overrides, 0, name);
    let w = runner::run_vars(v, env_vars, options, globals);
    assert(w.overrides.get(options.overrides[k].0) is Some);
    assert(w.overrides.get(name) is None);
}

/// An environment is read where it was asked for: from the file that is given,
/// or else from the one next to the requests; and it has to be there.
pub proof fn law_environment_choice(options: OptionsView, path: Seq<char>, name: Seq<char>)
    ensures
        options.env is None ==> runner::env_chosen(options, true)
            == runner::EnvChoiceView::Nothing && runner::env_chosen(options, false)
            == runner::EnvChoiceView::Nothing,
        options.env is Some && options.env_file == Some(path) ==> runner::env_chosen(options, true)
            == runner::EnvChoiceView::Given(path) && runner::env_chosen(options, false)
            == runner::EnvChoiceView::Given(path),
        options.env is Some && options.env_file is None ==> runner::env_chosen(options, true)
            == runner::EnvChoiceView::Sibling && runner::env_chosen(options, false)
            == runner::EnvChoiceView::Nothing,
        options.env == Some(name) ==> runner::run_env(Map::empty(), path, None, options) == Err::<
            Map<Seq<char>, Seq<char>>,
            Seq<char>,
        >(
            "--env "@ + name + ": no http-client.env.json next to "@ + path
                + " (or pass --env-file)"@,
        ),
{
}

// ------------------------------------------------------------- listing ----

/// A listing shows the name and the method of every request, in file order.
pub proof fn law_listed_names(requests: Seq<RequestView>, k: int)
    requires
        0 <= k < requests.len(),
    ensures
        runner::names_from(requests, 0).len() == requests.len(),
        runner::names_from(requests, 0)[k] == runner::shown_name(requests[k], k) + seq![' ']
            + requests[k].method,
{
    reveal_strlit(" ");
    assert(" "@ =~= seq![' ']);
    lemma_listed_names(requests, 0, k);
}

proof fn lemma_listed_names(requests: Seq<RequestView>, i: int, k: int)
    requires
        0 <= i <= requests.len(),
        k < requests.len(),
    ensures
        runner::names_from(requests, i).len() == requests.len() - i,
        i <= k ==> runner::names_from(requests, i)[k - i] == runner::shown_name(requests[k], k)
            + " "@ + requests[k].method,
    decreases requests.len() - i,
{
    if i < requests.len() {
        lemma_listed_names(requests, i + 1, k);
    }
}

/// What is noted of a response shows its status line and all its headers, each
/// in a line of its own, in the order in which they came.
pub proof fn law_noted_head(
    result: ResultView,
    response: ResponseView,
    name: Seq<char>,
    value: Seq<char>,
    elapsed: Duration,
)
    ensures
        ({
            let line = "HTTP/1.1 "@ + text::decimal(response.status as nat) + " "@
                + response.reason;
            let shown = runner::recorded(result, response, elapsed).rendered;
            let more = ResponseView {
                headers: response.headers.push((name, value)),
                ..response
            };
            &&& shown is Some
            &&& response.headers.len() == 0 ==> shown->0 == line + seq!['\n']
            &&& response.headers.len() > 0 ==> runner::recorded(result, more, elapsed).rendered
                == Some(shown->0 + seq!['\n'] + (name + ": "@ + value))
            &&& response.headers.len() == 0 ==> runner::recorded(result, more, elapsed).rendered
                == Some(shown->0 + (name + ": "@ + value))
        }),
{
    reveal_strlit("\n");
    assert("\n"@ =~= seq!['\n']);
    let more = ResponseView { headers: response.headers.push((name, value)), ..response };
    let a = runner::head_lines(response.headers);
    let b = runner::head_lines(more.headers);
    let last = name + ": "@ + value;
    assert(b =~= a.push(last));
    assert(a.push(last).drop_last() =~= a);
    let line = "HTTP/1.1 "@ + text::decimal(response.status as nat) + " "@ + response.reason
        + "\n"@;
    if response.headers.len() == 0 {
        assert(text::joined(a, "\n"@) =~= seq![]);
        assert(text::joined(b, "\n"@) == last);
        assert(line + seq![] =~= line);
    } else {
        assert(text::joined(b, "\n"@) == text::joined(a, "\n"@) + "\n"@ + last);
        assert(line + (text::joined(a, "\n"@) + "\n"@ + last) =~= line + text::joined(a, "\n"@)
            + seq!['\n'] + last);
    }
}

/// A file that cannot be listed says why, with its path.
pub proof fn law_listing_failures(path: Seq<char>, content: Seq<char>, e: Seq<char>)
    ensures
        runner::file_listing(files::FileView { path, content: Err(e) }) is Err,
        parser::parsed(content) matches Err(x) ==> runner::file_listing(
            files::FileView { path, content: Ok(content) },
        ) == Err::<(Seq<char>, Seq<Seq<char>>), Seq<char>>(
            path + ": "@ + ("line "@ + text::decimal(x.line as nat) + ": "@ + x.message),
        ),
        parser::parsed(content) matches Ok(x) ==> runner::file_listing(
            files::FileView { path, content: Ok(content) },
        ) == Ok::<(Seq<char>, Seq<Seq<char>>), Seq<char>>(
            (path, runner::names_from(x.requests, 0)),
        ),
{
}

} // verus!
