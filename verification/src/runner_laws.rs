//! What holds of a whole walk through the requests of a file.

use crate::duration::Duration;
use crate::http::ResponseView;
use crate::parser::RequestView;
use crate::runner;
use crate::runner::{OptionsView, PlanView, PreparedView, ResultView, RunView, StageView, Status};
use crate::vars::VarsView;
use vstd::prelude::*;

verus! {

// -------------------------------------------------------------- names ----

/// The stage belongs to the request with the name, and a result that it holds
/// is not that of a request that was skipped.
pub open spec fn bears(stage: StageView, name: Seq<char>) -> bool {
    match stage {
        StageView::NeedBody { at, .. } => at.result.name == name,
        StageView::NeedResponse { at, .. } => at.result.name == name,
        StageView::NeedSave { result, .. } => result.name == name,
        StageView::Done(r) => r.name == name && r.status != Status::Skipped,
    }
}

/// A request that runs keeps its name through all stages, and ends with a
/// result that is not `Skipped`.
pub proof fn law_results_bear_their_name(
    request: RequestView,
    name: Seq<char>,
    v: VarsView,
    options: OptionsView,
    clock: Seq<u64>,
    at: PreparedView,
    substitute: bool,
    full: Seq<char>,
    content: Result<Seq<u8>, Seq<char>>,
    reply: Result<ResponseView, Seq<char>>,
    elapsed: Duration,
    globals: Map<Seq<char>, Seq<char>>,
    response: ResponseView,
    failure: Option<Seq<char>>,
)
    requires
        at.result.name == name,
    ensures
        bears(runner::started(request, name, v, options, clock).0, name),
        bears(
            runner::body_arrived(at, substitute, request, full, content, v, options, clock).0,
            name,
        ),
        bears(
            runner::reply_arrived(at, request, reply, elapsed, options, v, globals, clock).stage,
            name,
        ),
        bears(
            StageView::Done(
                runner::save_done(
                    at.result,
                    request,
                    response,
                    failure,
                    options,
                    v,
                    globals,
                ).result,
            ),
            name,
        ),
{
}

// --------------------------------------------------------------- walk ----

/// The request passes the `--request` filter.
pub open spec fn passes(request: RequestView, index: int, options: OptionsView) -> bool {
    options.filter.len() == 0 || options.filter.contains(runner::shown_name(request, index))
}

/// The requests among the first `n` that pass the filter, in file order.
pub open spec fn selected(requests: Seq<RequestView>, options: OptionsView, n: nat) -> Seq<int>
    decreases n,
{
    if n == 0 || n > requests.len() {
        seq![]
    } else {
        let before = selected(requests, options, (n - 1) as nat);
        if passes(requests[n - 1], n - 1, options) {
            before.push(n - 1)
        } else {
            before
        }
    }
}

/// A run goes forward, and gives a name only where it stands at a request.
pub proof fn lemma_advanced(run: RunView, requests: Seq<RequestView>, options: OptionsView)
    requires
        0 <= run.index <= requests.len(),
    ensures
        ({
            let (name, at) = runner::advanced(run, requests, options);
            &&& run.index <= at.index <= requests.len()
            &&& name is Some ==> at.index < requests.len()
            &&& name is None ==> at.index == requests.len()
        }),
    decreases requests.len() - run.index,
{
    if run.index < requests.len() {
        let index = run.index + 1;
        match runner::planned(requests[run.index], run.index, options, run.abort) {
            PlanView::Leave => lemma_advanced(RunView { index, ..run }, requests, options),
            PlanView::Skip(r) => lemma_advanced(
                RunView { index, results: run.results.push(r), ..run },
                requests,
                options,
            ),
            PlanView::Run(_) => {},
        }
    }
}

/// The run at its end, where the request with index `k` gives `answers[k]`
/// when it runs: the run goes on to the next request that has to run, takes
/// its result, and so on.
pub open spec fn walked(
    run: RunView,
    requests: Seq<RequestView>,
    options: OptionsView,
    answers: Seq<ResultView>,
) -> RunView
    decreases requests.len() - run.index,
{
    if 0 <= run.index <= requests.len() {
        match runner::advanced(run, requests, options) {
            (None, at) => at,
            (Some(_), at) => {
                proof {
                    lemma_advanced(run, requests, options);
                }
                walked(
                    runner::run_after(at, answers[at.index], options),
                    requests,
                    options,
                    answers,
                )
            },
        }
    } else {
        run
    }
}

/// A result that stops a run under `--fail-fast`.
pub open spec fn failing(r: ResultView) -> bool {
    r.status == Status::Failed || r.status == Status::Error
}

/// The answers are those of requests that ran under their shown names.
pub open spec fn answers_of(answers: Seq<ResultView>, requests: Seq<RequestView>) -> bool {
    &&& answers.len() == requests.len()
    &&& forall|k: int|
        0 <= k < answers.len() ==> (#[trigger] answers[k]).name == runner::shown_name(
            requests[k],
            k,
        ) && answers[k].status != Status::Skipped
}

/// The results belong to the requests with these indices, one for one: each
/// is what its request gave, or says that it was skipped.
pub open spec fn accounted(
    results: Seq<ResultView>,
    indices: Seq<int>,
    requests: Seq<RequestView>,
    answers: Seq<ResultView>,
) -> bool {
    &&& results.len() == indices.len()
    &&& forall|j: int|
        #![trigger results[j]]
        0 <= j < results.len() ==> 0 <= indices[j] < requests.len() && results[j].name
            == runner::shown_name(requests[indices[j]], indices[j]) && (results[j]
            == answers[indices[j]] || results[j] == runner::blank_result(
            results[j].name,
            requests[indices[j]],
            Status::Skipped,
        ))
}

/// Nothing before a failing result was skipped or failed, and everything after
/// it was skipped.
pub open spec fn cut_short(results: Seq<ResultView>) -> bool {
    forall|j: int, i: int|
        0 <= j < results.len() && 0 <= i < results.len() && failing(#[trigger] results[j]) && i
            != j ==> (#[trigger] results[i]).status == if i < j {
            Status::Passed
        } else {
            Status::Skipped
        }
}

/// What holds on the way: `abort` says whether an earlier file stopped the run.
spec fn on_track(
    run: RunView,
    requests: Seq<RequestView>,
    options: OptionsView,
    answers: Seq<ResultView>,
    abort: bool,
) -> bool {
    let r = run.results;
    &&& 0 <= run.index <= requests.len()
    &&& accounted(r, selected(requests, options, run.index as nat), requests, answers)
    &&& abort ==> run.abort && forall|j: int|
        0 <= j < r.len() ==> (#[trigger] r[j]).status == Status::Skipped
    &&& !run.abort ==> forall|j: int|
        0 <= j < r.len() ==> (#[trigger] r[j]).status != Status::Skipped
    &&& options.fail_fast && !run.abort ==> forall|j: int|
        0 <= j < r.len() ==> (#[trigger] r[j]).status == Status::Passed
    &&& !abort && run.abort ==> options.fail_fast && exists|j: int|
        0 <= j < r.len() && failing(#[trigger] r[j])
    &&& options.fail_fast ==> cut_short(r)
}

/// A result more, for the request that the run stands at.
proof fn lemma_step(
    run: RunView,
    r: ResultView,
    requests: Seq<RequestView>,
    options: OptionsView,
    answers: Seq<ResultView>,
    abort: bool,
)
    requires
        on_track(run, requests, options, answers, abort),
        answers_of(answers, requests),
        run.index < requests.len(),
        passes(requests[run.index], run.index, options),
        if run.abort {
            r == runner::blank_result(
                runner::shown_name(requests[run.index], run.index),
                requests[run.index],
                Status::Skipped,
            )
        } else {
            r == answers[run.index]
        },
    ensures
        on_track(runner::run_after(run, r, options), requests, options, answers, abort),
{
    let next = runner::run_after(run, r, options);
    let n = run.results.len() as int;
    let all = next.results;
    let before = selected(requests, options, run.index as nat);
    let after = selected(requests, options, next.index as nat);
    assert(after == before.push(run.index));
    assert(all[n] == r);
    assert(forall|j: int| 0 <= j < n ==> #[trigger] all[j] == run.results[j]);
    assert forall|j: int| #![trigger all[j]] 0 <= j < all.len() implies 0 <= after[j]
        < requests.len() && all[j].name == runner::shown_name(requests[after[j]], after[j]) && (
    all[j] == answers[after[j]] || all[j] == runner::blank_result(
        all[j].name,
        requests[after[j]],
        Status::Skipped,
    )) by {
        if j < n {
            assert(all[j] == run.results[j]);
            assert(after[j] == before[j]);
        }
    }
    if next.abort && !abort {
        if run.abort {
            let j = choose|j: int| 0 <= j < n && failing(#[trigger] run.results[j]);
            assert(failing(all[j]));
        } else {
            assert(failing(all[n]));
        }
    }
    if options.fail_fast {
        assert forall|j: int, i: int|
            0 <= j < all.len() && 0 <= i < all.len() && failing(#[trigger] all[j]) && i
                != j implies (#[trigger] all[i]).status == if i < j {
            Status::Passed
        } else {
            Status::Skipped
        } by {
            if j < n {
                assert(failing(run.results[j]));
            }
        }
    }
}

proof fn lemma_on_the_way(
    run: RunView,
    requests: Seq<RequestView>,
    options: OptionsView,
    answers: Seq<ResultView>,
    abort: bool,
)
    requires
        on_track(run, requests, options, answers, abort),
        answers_of(answers, requests),
    ensures
        ({
            let (name, at) = runner::advanced(run, requests, options);
            &&& on_track(at, requests, options, answers, abort)
            &&& name is Some ==> !at.abort && at.index < requests.len() && passes(
                requests[at.index],
                at.index,
                options,
            )
            &&& name is None ==> at.index == requests.len()
        }),
    decreases requests.len() - run.index,
{
    if run.index < requests.len() {
        let index = run.index + 1;
        match runner::planned(requests[run.index], run.index, options, run.abort) {
            PlanView::Leave => {
                lemma_on_the_way(
                    RunView { index, ..run },
                    requests,
                    options,
                    answers,
                    abort,
                );
            },
            PlanView::Skip(r) => {
                lemma_step(run, r, requests, options, answers, abort);
                let next = RunView { index, results: run.results.push(r), ..run };
                assert(next == runner::run_after(run, r, options));
                lemma_on_the_way(next, requests, options, answers, abort);
            },
            PlanView::Run(_) => {},
        }
    }
}

proof fn lemma_walk(
    run: RunView,
    requests: Seq<RequestView>,
    options: OptionsView,
    answers: Seq<ResultView>,
    abort: bool,
)
    requires
        on_track(run, requests, options, answers, abort),
        answers_of(answers, requests),
    ensures
        ({
            let end = walked(run, requests, options, answers);
            on_track(end, requests, options, answers, abort) && end.index == requests.len()
        }),
    decreases requests.len() - run.index,
{
    lemma_advanced(run, requests, options);
    lemma_on_the_way(run, requests, options, answers, abort);
    let (name, at) = runner::advanced(run, requests, options);
    if name is Some {
        lemma_step(at, answers[at.index], requests, options, answers, abort);
        lemma_walk(
            runner::run_after(at, answers[at.index], options),
            requests,
            options,
            answers,
            abort,
        );
    }
}

/// The results of a file are those of the requests that pass the filter, in
/// file order, each under its shown name. Under `--fail-fast` at most one of
/// them is `Failed` or `Error`; all before it passed, and all after it are
/// skipped. Without it nothing is skipped, and where an earlier file stopped
/// the run, everything is. A run stops exactly where one of its results fails
/// under `--fail-fast`.
pub proof fn law_whole_walk(
    requests: Seq<RequestView>,
    options: OptionsView,
    answers: Seq<ResultView>,
    abort: bool,
)
    requires
        answers_of(answers, requests),
    ensures
        ({
            let end = walked(
                RunView { index: 0, abort, results: seq![] },
                requests,
                options,
                answers,
            );
            let r = end.results;
            &&& end.index == requests.len()
            &&& accounted(r, selected(requests, options, requests.len()), requests, answers)
            &&& options.fail_fast ==> cut_short(r)
            &&& abort ==> forall|j: int|
                0 <= j < r.len() ==> (#[trigger] r[j]).status == Status::Skipped
            &&& !abort && !options.fail_fast ==> forall|j: int|
                0 <= j < r.len() ==> (#[trigger] r[j]).status != Status::Skipped
            &&& end.abort <==> abort || (options.fail_fast && exists|j: int|
                0 <= j < r.len() && failing(#[trigger] r[j]))
        }),
{
    let start = RunView { index: 0, abort, results: seq![] };
    lemma_walk(start, requests, options, answers, abort);
}

/// The requests that pass the filter are listed in file order, all of them and
/// none twice.
pub proof fn law_selected_in_order(requests: Seq<RequestView>, options: OptionsView, n: nat)
    requires
        n <= requests.len(),
    ensures
        ({
            let s = selected(requests, options, n);
            &&& forall|j: int|
                0 <= j < s.len() ==> 0 <= #[trigger] s[j] < n && passes(
                    requests[s[j]],
                    s[j],
                    options,
                )
            &&& forall|i: int, j: int|
                0 <= i < j < s.len() ==> #[trigger] s[i] < #[trigger] s[j]
            &&& forall|k: int|
                0 <= k < n && #[trigger] passes(requests[k], k, options) ==> s.contains(k)
        }),
    decreases n,
{
    if n > 0 {
        let m = (n - 1) as nat;
        law_selected_in_order(requests, options, m);
        let before = selected(requests, options, m);
        let s = selected(requests, options, n);
        if passes(requests[n - 1], n - 1, options) {
            assert(s == before.push(n - 1));
            assert(s[before.len() as int] == n - 1);
            assert forall|k: int| 0 <= k < n && #[trigger] passes(
                requests[k],
                k,
                options,
            ) implies s.contains(k) by {
                if k < m {
                    let i = choose|i: int| 0 <= i < before.len() && before[i] == k;
                    assert(before.contains(k));
                    assert(s[i] == k);
                }
            }
        }
    }
}

} // verus!
