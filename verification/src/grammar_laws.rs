//! What the expressions and statements of a handler mean.

use crate::json::ValueView;
use crate::lexer::{Punct, TokView};
use crate::number::Number;
use crate::script;
use crate::script::{AssertionView, Context, OperandView, OutcomeView, State};
use crate::text;
use vstd::prelude::*;

verus! {

// --------------------------------------------------------- expressions ----

/// `a || b` is `a` where that is true, else `b`; it binds weaker than all
/// other operators, and goes from left to right.
#[verifier::spinoff_prover]
#[verifier::rlimit(60)]
pub proof fn law_or(c: Context, pos: int, a: ValueView, p: int, b: ValueView, q: int)
    requires
        script::conjunction(c, pos) == Ok::<(ValueView, int), Seq<char>>((a, p)),
        pos < p <= c.tokens.len(),
    ensures
        !c.punct(p, Punct::Or) ==> script::expression(c, pos) == Ok::<
            (ValueView, int),
            Seq<char>,
        >((a, p)),
        c.punct(p, Punct::Or) && script::conjunction(c, p + 1) == Ok::<
            (ValueView, int),
            Seq<char>,
        >((b, q)) && p < q <= c.tokens.len() ==> ({
            &&& !c.punct(q, Punct::Or) ==> script::expression(c, pos) == Ok::<
                (ValueView, int),
                Seq<char>,
            >(
                (
                    if a.truth() {
                        a
                    } else {
                        b
                    },
                    q,
                ),
            )
            &&& script::expression(c, pos) == script::expression_rest(
                c,
                q,
                if a.truth() {
                    a
                } else {
                    b
                },
            )
        }),
{
    reveal(script::conjunction);
    reveal(script::expression);
    reveal(script::expression_rest);
}

/// `a && b` is `b` where `a` is true, else `a`; it binds stronger than `||`
/// and weaker than a comparison, and goes from left to right.
#[verifier::spinoff_prover]
#[verifier::rlimit(60)]
pub proof fn law_and(c: Context, pos: int, a: ValueView, p: int, b: ValueView, q: int)
    requires
        script::comparison(c, pos) == Ok::<(ValueView, int), Seq<char>>((a, p)),
        pos < p <= c.tokens.len(),
    ensures
        !c.punct(p, Punct::And) ==> script::conjunction(c, pos) == Ok::<
            (ValueView, int),
            Seq<char>,
        >((a, p)),
        c.punct(p, Punct::And) && script::comparison(c, p + 1) == Ok::<
            (ValueView, int),
            Seq<char>,
        >((b, q)) && p < q <= c.tokens.len() ==> ({
            &&& !c.punct(q, Punct::And) ==> script::conjunction(c, pos) == Ok::<
                (ValueView, int),
                Seq<char>,
            >(
                (
                    if a.truth() {
                        b
                    } else {
                        a
                    },
                    q,
                ),
            )
            &&& script::conjunction(c, pos) == script::conjunction_rest(
                c,
                q,
                if a.truth() {
                    b
                } else {
                    a
                },
            )
        }),
{
    reveal(script::comparison);
    reveal(script::conjunction);
    reveal(script::conjunction_rest);
}

/// The comparison operators, and those alone, compare what stands on their
/// left with what stands on their right.
#[verifier::spinoff_prover]
#[verifier::rlimit(60)]
pub proof fn law_comparison(
    c: Context,
    pos: int,
    a: ValueView,
    p: int,
    op: Punct,
    b: ValueView,
    q: int,
)
    requires
        script::additive(c, pos) == Ok::<(ValueView, int), Seq<char>>((a, p)),
        0 <= pos < p < c.tokens.len(),
        c.tokens[p].tok == TokView::Punct(op),
        script::additive(c, p + 1) == Ok::<(ValueView, int), Seq<char>>((b, q)),
    ensures
        op == Punct::StrictEq || op == Punct::StrictNe || op == Punct::LooseEq || op
            == Punct::LooseNe || op == Punct::Lt || op == Punct::Le || op == Punct::Gt || op
            == Punct::Ge ==> (script::compared(a, op, b) matches Ok(r) ==> script::comparison(
            c,
            pos,
        ) == Ok::<(ValueView, int), Seq<char>>((ValueView::Bool(r), q))),
        op == Punct::And || op == Punct::Or || op == Punct::RParen || op == Punct::RBracket || op
            == Punct::Comma || op == Punct::Semicolon || op == Punct::Assign || op == Punct::Arrow
            || op == Punct::Not || op == Punct::RBrace ==> script::comparison(c, pos) == Ok::<
            (ValueView, int),
            Seq<char>,
        >((a, p)),
{
    reveal(script::additive);
    reveal(script::comparison);
}

/// `a + b` adds from left to right, before anything is compared.
#[verifier::spinoff_prover]
#[verifier::rlimit(60)]
pub proof fn law_sum(
    c: Context,
    pos: int,
    a: ValueView,
    p: int,
    b: ValueView,
    q: int,
    v: ValueView,
)
    requires
        script::unary(c, pos) == Ok::<(ValueView, int), Seq<char>>((a, p)),
        pos < p <= c.tokens.len(),
    ensures
        !c.punct(p, Punct::Plus) ==> script::additive(c, pos) == Ok::<
            (ValueView, int),
            Seq<char>,
        >((a, p)),
        c.punct(p, Punct::Plus) && script::unary(c, p + 1) == Ok::<(ValueView, int), Seq<char>>(
            (b, q),
        ) && p < q <= c.tokens.len() && script::added(a, b) == Ok::<ValueView, Seq<char>>(v) ==> ({
            &&& !c.punct(q, Punct::Plus) ==> script::additive(c, pos) == Ok::<
                (ValueView, int),
                Seq<char>,
            >((v, q))
            &&& script::additive(c, pos) == script::additive_rest(c, q, v)
        }),
{
    reveal(script::unary);
    reveal(script::additive);
    reveal(script::additive_rest);
}

/// `!a` is false where `a` is true, and true where it is not; two of them give
/// the truth of `a`.
pub proof fn law_not(c: Context, pos: int, a: ValueView, p: int)
    requires
        c.punct(pos, Punct::Not),
        script::unary(c, pos + 1) == Ok::<(ValueView, int), Seq<char>>((a, p)),
    ensures
        script::unary(c, pos) == Ok::<(ValueView, int), Seq<char>>((ValueView::Bool(!a.truth()), p)),
        c.punct(pos - 1, Punct::Not) ==> script::unary(c, pos - 1) == Ok::<
            (ValueView, int),
            Seq<char>,
        >((ValueView::Bool(a.truth()), p)),
{
    reveal_with_fuel(script::unary, 2);
}

/// Strings, numbers, `true`, `false`, `null` and `undefined` stand for
/// themselves, and parentheses for what is in them.
#[verifier::spinoff_prover]
#[verifier::rlimit(60)]
pub proof fn law_operands(
    c: Context,
    pos: int,
    s: Seq<char>,
    n: Number,
    v: ValueView,
    q: int,
)
    requires
        0 <= pos < c.tokens.len(),
    ensures
        c.tokens[pos].tok == TokView::Str(s) ==> script::primary(c, pos) == Ok::<
            (OperandView, int),
            Seq<char>,
        >((OperandView::Value(ValueView::String(s)), pos + 1)),
        c.tokens[pos].tok == TokView::Num(n) ==> script::primary(c, pos) == Ok::<
            (OperandView, int),
            Seq<char>,
        >((OperandView::Value(ValueView::Number(n)), pos + 1)),
        c.tokens[pos].tok == TokView::Ident("true"@) ==> script::primary(c, pos) == Ok::<
            (OperandView, int),
            Seq<char>,
        >((OperandView::Value(ValueView::Bool(true)), pos + 1)),
        c.tokens[pos].tok == TokView::Ident("false"@) ==> script::primary(c, pos) == Ok::<
            (OperandView, int),
            Seq<char>,
        >((OperandView::Value(ValueView::Bool(false)), pos + 1)),
        c.tokens[pos].tok == TokView::Ident("null"@) || c.tokens[pos].tok == TokView::Ident(
            "undefined"@,
        ) ==> script::primary(c, pos) == Ok::<(OperandView, int), Seq<char>>(
            (OperandView::Value(ValueView::Null), pos + 1),
        ),
        c.tokens[pos].tok == TokView::Ident("response"@) ==> script::primary(c, pos) == Ok::<
            (OperandView, int),
            Seq<char>,
        >((OperandView::Response, pos + 1)),
        c.punct(pos, Punct::LParen) && script::expression(c, pos + 1) == Ok::<
            (ValueView, int),
            Seq<char>,
        >((v, q)) && c.punct(q, Punct::RParen) ==> script::primary(c, pos) == Ok::<
            (OperandView, int),
            Seq<char>,
        >((OperandView::Value(v), q + 1)),
{
    reveal(script::expression);
    reveal(script::primary);
    reveal_strlit("true");
    reveal_strlit("false");
    reveal_strlit("null");
    reveal_strlit("undefined");
    reveal_strlit("response");
    assert("true"@.len() == 4 && "false"@.len() == 5 && "null"@.len() == 4 && "undefined"@.len()
        == 9 && "response"@.len() == 8);
    assert("true"@[0] == 't' && "null"@[0] == 'n');
}

/// Other words mean nothing.
#[verifier::spinoff_prover]
#[verifier::rlimit(60)]
pub proof fn law_unknown_words(c: Context, pos: int, name: Seq<char>)
    requires
        0 <= pos < c.tokens.len(),
        c.tokens[pos].tok == TokView::Ident(name),
        name != "true"@ && name != "false"@ && name != "null"@ && name != "undefined"@ && name
            != "response"@,
    ensures
        script::primary(c, pos) is Err,
        script::postfix(c, pos) is Err,
{
    reveal(script::postfix_rest);
    reveal(script::primary);
    reveal(script::postfix);
}

/// An operand with nothing behind it is its value; with `.name` behind it, its
/// member; with `.name(..)`, the result of the method; with `[key]`, what the
/// key gives; and so on from left to right.
#[verifier::spinoff_prover]
#[verifier::rlimit(60)]
pub proof fn law_suffixes(
    c: Context,
    pos: int,
    o: OperandView,
    name: Seq<char>,
    args: Seq<ValueView>,
    key: ValueView,
    q: int,
)
    requires
        0 <= pos,
    ensures
        forall|v: ValueView|
            !c.punct(pos, Punct::Dot) && !c.punct(pos, Punct::LBracket) && script::materialized(
                c.response,
                o,
            ) == Ok::<ValueView, Seq<char>>(v) ==> #[trigger] script::postfix_rest(c, pos, o)
                == Ok::<(ValueView, int), Seq<char>>((v, pos)),
        c.punct(pos, Punct::Dot) && c.word(pos + 1, name) && !c.punct(pos + 2, Punct::LParen) ==> (
        script::member_of(c.response, o, name) matches Ok(m) ==> script::postfix_rest(c, pos, o)
            == script::postfix_rest(c, pos + 2, m)),
        c.punct(pos, Punct::Dot) && c.word(pos + 1, name) && c.punct(pos + 2, Punct::LParen)
            && script::argument_list(c, pos + 2) == Ok::<(Seq<ValueView>, int), Seq<char>>(
            (args, q),
        ) && pos < q <= c.tokens.len() ==> (script::method_result(c.response, o, name, args)
            matches Ok(v) ==> script::postfix_rest(c, pos, o) == script::postfix_rest(
            c,
            q,
            OperandView::Value(v),
        )),
        c.punct(pos, Punct::LBracket) && script::expression(c, pos + 1) == Ok::<
            (ValueView, int),
            Seq<char>,
        >((key, q)) && c.punct(q, Punct::RBracket) && pos < q ==> (script::materialized(
            c.response,
            o,
        ) matches Ok(v) ==> (script::indexed(v, key) matches Ok(w) ==> script::postfix_rest(
            c,
            pos,
            o,
        ) == script::postfix_rest(c, q + 1, OperandView::Value(w)))),
{
    reveal(script::argument_list);
    reveal(script::expression);
    reveal(script::postfix_rest);
}

/// The arguments of a call are its expressions, in order.
#[verifier::spinoff_prover]
#[verifier::rlimit(60)]
pub proof fn law_arguments(
    c: Context,
    pos: int,
    a: ValueView,
    p: int,
    b: ValueView,
    q: int,
)
    requires
        0 <= pos < c.tokens.len(),
    ensures
        c.punct(pos + 1, Punct::RParen) ==> script::argument_list(c, pos) == Ok::<
            (Seq<ValueView>, int),
            Seq<char>,
        >((seq![], pos + 2)),
        script::expression(c, pos + 1) == Ok::<(ValueView, int), Seq<char>>((a, p)) && !c.punct(
            pos + 1,
            Punct::RParen,
        ) && pos + 1 < p <= c.tokens.len() ==> ({
            &&& c.punct(p, Punct::RParen) ==> script::argument_list(c, pos) == Ok::<
                (Seq<ValueView>, int),
                Seq<char>,
            >((seq![a], p + 1))
            &&& c.punct(p, Punct::Comma) && script::expression(c, p + 1) == Ok::<
                (ValueView, int),
                Seq<char>,
            >((b, q)) && p + 1 < q <= c.tokens.len() && c.punct(q, Punct::RParen)
                ==> script::argument_list(c, pos) == Ok::<(Seq<ValueView>, int), Seq<char>>(
                (seq![a, b], q + 1),
            )
        }),
{
    reveal(script::expression);
    reveal(script::argument_list);
    reveal_with_fuel(script::arguments, 3);
    let e = Seq::<ValueView>::empty();
    assert(e.push(a) =~= seq![a]);
    assert(e.push(a).push(b) =~= seq![a, b]);
}

/// A token that stands alone as an expression: nothing behind it goes on with
/// it.
pub open spec fn stops(c: Context, pos: int) -> bool {
    c.punct(pos, Punct::RParen) || c.punct(pos, Punct::Comma) || c.punct(pos, Punct::RBracket)
        || c.punct(pos, Punct::Semicolon) || pos == c.tokens.len()
}

#[verifier::spinoff_prover]
#[verifier::rlimit(60)]
proof fn lemma_sum_of_one(c: Context, pos: int, v: ValueView)
    requires
        0 <= pos < c.tokens.len(),
        script::primary(c, pos) == Ok::<(OperandView, int), Seq<char>>(
            (OperandView::Value(v), pos + 1),
        ),
        !c.punct(pos, Punct::Not),
        !c.punct(pos + 1, Punct::Dot),
        !c.punct(pos + 1, Punct::LBracket),
        !c.punct(pos + 1, Punct::Plus),
    ensures
        script::additive(c, pos) == Ok::<(ValueView, int), Seq<char>>((v, pos + 1)),
{
    reveal(script::primary);
    reveal(script::additive);
    reveal(script::additive_rest);
    reveal(script::unary);
    reveal(script::postfix);
    reveal(script::postfix_rest);
}

/// The value of a literal token.
pub open spec fn literal_value(t: TokView) -> Option<ValueView> {
    match t {
        TokView::Str(s) => Some(ValueView::String(s)),
        TokView::Num(n) => Some(ValueView::Number(n)),
        _ => None,
    }
}

/// A literal alone is its value; two literals with an operator between them
/// are what the operator makes of them, the left one first.
#[verifier::spinoff_prover]
#[verifier::rlimit(60)]
pub proof fn law_literal_expressions(
    c: Context,
    pos: int,
    a: ValueView,
    op: Punct,
    b: ValueView,
)
    requires
        0 <= pos,
        pos + 2 < c.tokens.len(),
        literal_value(c.tokens[pos].tok) == Some(a),
    ensures
        stops(c, pos + 1) ==> script::expression(c, pos) == Ok::<(ValueView, int), Seq<char>>(
            (a, pos + 1),
        ),
        c.punct(pos + 1, op) && literal_value(c.tokens[pos + 2].tok) == Some(b) && stops(c, pos + 3)
            ==> ({
            &&& op == Punct::Or ==> script::expression(c, pos) == Ok::<
                (ValueView, int),
                Seq<char>,
            >(
                (
                    if a.truth() {
                        a
                    } else {
                        b
                    },
                    pos + 3,
                ),
            )
            &&& op == Punct::And ==> script::expression(c, pos) == Ok::<
                (ValueView, int),
                Seq<char>,
            >(
                (
                    if a.truth() {
                        b
                    } else {
                        a
                    },
                    pos + 3,
                ),
            )
            &&& op == Punct::StrictEq || op == Punct::StrictNe || op == Punct::LooseEq || op
                == Punct::LooseNe || op == Punct::Lt || op == Punct::Le || op == Punct::Gt || op
                == Punct::Ge ==> (script::compared(a, op, b) matches Ok(r) ==> script::expression(
                c,
                pos,
            ) == Ok::<(ValueView, int), Seq<char>>((ValueView::Bool(r), pos + 3)))
        }),
{
    reveal(script::additive);
    reveal(script::expression);
    reveal(script::expression_rest);
    reveal(script::conjunction);
    reveal(script::conjunction_rest);
    reveal(script::comparison);
    reveal(script::primary);
    if !c.punct(pos + 1, Punct::Dot) && !c.punct(pos + 1, Punct::LBracket) && !c.punct(
        pos + 1,
        Punct::Plus,
    ) {
        lemma_sum_of_one(c, pos, a);
    }
    if literal_value(c.tokens[pos + 2].tok) == Some(b) && stops(c, pos + 3) {
        lemma_sum_of_one(c, pos + 2, b);
    }
}

// ---------------------------------------------------------- statements ----

/// The tokens of `client.name`.
pub open spec fn client(c: Context, pos: int, name: Seq<char>) -> bool {
    c.word(pos, "client"@) && c.punct(pos + 1, Punct::Dot) && c.word(pos + 2, name)
}

proof fn lemma_names()
    ensures
        "test"@ != "assert"@,
        "test"@ != "global"@,
        "test"@ != "log"@,
        "assert"@ != "global"@,
        "assert"@ != "log"@,
        "global"@ != "log"@,
{
    reveal_strlit("test");
    reveal_strlit("assert");
    reveal_strlit("global");
    reveal_strlit("log");
    assert("test"@.len() == 4 && "assert"@.len() == 6 && "global"@.len() == 6 && "log"@.len() == 3);
    assert("assert"@[0] == 'a' && "global"@[0] == 'g');
}

/// `client.assert(condition)` notes whether the condition is true, with the
/// text of the condition; `client.assert(condition, message)` with the
/// message, to which a failure adds the text. Nothing else changes.
#[verifier::spinoff_prover]
#[verifier::rlimit(60)]
pub proof fn law_assert(
    c: Context,
    state: State,
    pos: int,
    test: Option<Seq<char>>,
    v: ValueView,
    p: int,
    m: ValueView,
    q: int,
)
    requires
        client(c, pos, "assert"@),
        c.punct(pos + 3, Punct::LParen),
        script::expression(c, pos + 4) == Ok::<(ValueView, int), Seq<char>>((v, p)),
        pos + 4 < p <= c.tokens.len(),
    ensures
        ({
            let source = text::trimmed(
                c.source.subrange(c.tokens[pos + 4].start, c.tokens[p - 1].end),
            );
            let step = script::client_call(c, state, pos, test);
            let added = step.state.out.assertions;
            &&& c.punct(p, Punct::RParen) ==> step.error is None && step.state.pos == p + 1
                && step.state.out.logs == state.out.logs && step.state.out.globals
                == state.out.globals && added == state.out.assertions.push(
                AssertionView {
                    test,
                    passed: v.truth(),
                    message: if v.truth() {
                        source
                    } else {
                        "assert failed: "@ + source
                    },
                },
            )
            &&& c.punct(p, Punct::Comma) && script::expression(c, p + 1) == Ok::<
                (ValueView, int),
                Seq<char>,
            >((m, q)) && c.punct(q, Punct::RParen) ==> step.error is None && step.state.pos == q + 1
                && step.state.out.logs == state.out.logs && step.state.out.globals
                == state.out.globals && added == state.out.assertions.push(
                AssertionView {
                    test,
                    passed: v.truth(),
                    message: if v.truth() {
                        m.shown()
                    } else {
                        m.shown() + " (assert: "@ + source + ")"@
                    },
                },
            )
        }),
{
    reveal(script::test_call);
    reveal(script::client_call);
    reveal(script::assert_call);
    lemma_names();
}

/// `client.global.set("name", value)` captures the value as it is shown, after
/// what was captured before.
#[verifier::spinoff_prover]
#[verifier::rlimit(60)]
pub proof fn law_global_set(
    c: Context,
    state: State,
    pos: int,
    test: Option<Seq<char>>,
    name: Seq<char>,
    v: ValueView,
    p: int,
)
    requires
        client(c, pos, "global"@),
        c.punct(pos + 3, Punct::Dot),
        c.word(pos + 4, "set"@),
        c.punct(pos + 5, Punct::LParen),
        pos + 6 < c.tokens.len(),
        c.tokens[pos + 6].tok == TokView::Str(name),
        c.punct(pos + 7, Punct::Comma),
        script::expression(c, pos + 8) == Ok::<(ValueView, int), Seq<char>>((v, p)),
        c.punct(p, Punct::RParen),
    ensures
        script::client_call(c, state, pos, test) == script::go(
            p + 1,
            OutcomeView {
                assertions: state.out.assertions,
                logs: state.out.logs,
                globals: state.out.globals.push((name, v.shown())),
            },
        ),
{
    reveal(script::test_call);
    reveal(script::client_call);
    reveal(script::set_call);
    lemma_names();
}

/// `client.log(value)` logs the value as it is shown.
#[verifier::spinoff_prover]
#[verifier::rlimit(60)]
pub proof fn law_log(
    c: Context,
    state: State,
    pos: int,
    test: Option<Seq<char>>,
    v: ValueView,
    p: int,
)
    requires
        client(c, pos, "log"@),
        c.punct(pos + 3, Punct::LParen),
        script::expression(c, pos + 4) == Ok::<(ValueView, int), Seq<char>>((v, p)),
        c.punct(p, Punct::RParen),
    ensures
        script::client_call(c, state, pos, test) == script::go(
            p + 1,
            OutcomeView {
                assertions: state.out.assertions,
                logs: state.out.logs.push(v.shown()),
                globals: state.out.globals,
            },
        ),
{
    reveal(script::test_call);
    reveal(script::client_call);
    reveal(script::log_call);
    lemma_names();
}

/// A test is written `client.test("name", function () {` or
/// `client.test("name", () => {`; the statements of its body come next.
pub proof fn law_test_head(c: Context, pos: int, name: Seq<char>)
    requires
        0 <= pos,
        c.punct(pos, Punct::LParen),
        pos + 1 < c.tokens.len(),
        c.tokens[pos + 1].tok == TokView::Str(name),
        c.punct(pos + 2, Punct::Comma),
    ensures
        c.word(pos + 3, "function"@) && c.punct(pos + 4, Punct::LParen) && c.punct(
            pos + 5,
            Punct::RParen,
        ) && c.punct(pos + 6, Punct::LBrace) ==> script::test_head(c, pos) == Ok::<
            (Seq<char>, int),
            Seq<char>,
        >((name, pos + 7)),
        c.punct(pos + 3, Punct::LParen) && c.punct(pos + 4, Punct::RParen) && c.punct(
            pos + 5,
            Punct::Arrow,
        ) && c.punct(pos + 6, Punct::LBrace) ==> script::test_head(c, pos) == Ok::<
            (Seq<char>, int),
            Seq<char>,
        >((name, pos + 7)),
{
    reveal(script::test_head);
    reveal_with_fuel(script::delimiters, 5);
    let a = seq![Punct::LParen, Punct::RParen, Punct::LBrace];
    assert(a.drop_first() =~= seq![Punct::RParen, Punct::LBrace]);
    assert(a.drop_first().drop_first() =~= seq![Punct::LBrace]);
    assert(a.drop_first().drop_first().drop_first() =~= seq![]);
    let b = seq![Punct::LParen, Punct::RParen, Punct::Arrow, Punct::LBrace];
    assert(b.drop_first() =~= seq![Punct::RParen, Punct::Arrow, Punct::LBrace]);
    assert(b.drop_first().drop_first() =~= seq![Punct::Arrow, Punct::LBrace]);
    assert(b.drop_first().drop_first().drop_first() =~= seq![Punct::LBrace]);
    assert(b.drop_first().drop_first().drop_first().drop_first() =~= seq![]);
}

/// The statements of a test run one after another up to its closing brace,
/// under its name. The first one that fails becomes a failed assertion of the
/// test, with the failure as its message, and ends the test.
#[verifier::spinoff_prover]
#[verifier::rlimit(60)]
pub proof fn law_test_body(c: Context, state: State, name: Seq<char>)
    requires
        0 <= state.pos < c.tokens.len(),
    ensures
        c.punct(state.pos, Punct::RBrace) ==> script::test_body(c, state, name) == state,
        !c.punct(state.pos, Punct::RBrace) ==> ({
            let step = script::statement(c, state, Some(name));
            &&& step.error is None && state.pos < step.state.pos <= c.tokens.len()
                ==> script::test_body(c, state, name) == script::test_body(c, step.state, name)
            &&& step.error matches Some(e) ==> ({
                let after = script::test_body(c, state, name).out;
                after.logs == step.state.out.logs && after.globals == step.state.out.globals
                    && after.assertions == step.state.out.assertions.push(
                    AssertionView { test: Some(name), passed: false, message: e },
                )
            })
        }),
{
    reveal(script::statement);
    reveal_with_fuel(script::test_body, 2);
}

/// A test gives the assertions of its body; one without any counts as a single
/// assertion that passed.
#[verifier::spinoff_prover]
#[verifier::rlimit(60)]
pub proof fn law_test(
    c: Context,
    state: State,
    pos: int,
    test: Option<Seq<char>>,
    name: Seq<char>,
    p: int,
    after: State,
)
    requires
        client(c, pos, "test"@),
        script::test_head(c, pos + 3) == Ok::<(Seq<char>, int), Seq<char>>((name, p)),
        pos + 3 < p <= c.tokens.len(),
        script::test_body(c, State { pos: p, out: state.out }, name) == after,
        c.punct(after.pos, Punct::RBrace),
        c.punct(after.pos + 1, Punct::RParen),
    ensures
        after.out.assertions.len() != state.out.assertions.len() ==> script::client_call(
            c,
            state,
            pos,
            test,
        ) == script::go(after.pos + 2, after.out),
        after.out.assertions.len() == state.out.assertions.len() ==> script::client_call(
            c,
            state,
            pos,
            test,
        ) == script::go(
            after.pos + 2,
            OutcomeView {
                assertions: after.out.assertions.push(
                    AssertionView {
                        test: Some(name),
                        passed: true,
                        message: "(no assertions)"@,
                    },
                ),
                logs: after.out.logs,
                globals: after.out.globals,
            },
        ),
{
    reveal(script::test_body);
    reveal(script::client_call);
    reveal(script::test_call);
}

/// Semicolons between statements mean nothing, and statements follow each
/// other until the tokens end.
#[verifier::spinoff_prover]
#[verifier::rlimit(60)]
pub proof fn law_statements_in_order(c: Context, state: State, p: int, out: OutcomeView)
    requires
        0 <= state.pos < c.tokens.len(),
    ensures
        c.punct(state.pos, Punct::Semicolon) ==> script::skip_semicolons(c, state.pos)
            == script::skip_semicolons(c, state.pos + 1),
        !c.punct(state.pos, Punct::Semicolon) && script::client_call(c, state, state.pos, None)
            == script::go(p, out) && state.pos < p && !c.punct(p, Punct::Semicolon) && p
            <= c.tokens.len() ==> script::statements(c, state) == (if p == c.tokens.len() {
            Ok::<OutcomeView, Seq<char>>(out)
        } else {
            script::statements(c, State { pos: p, out })
        }),
        !c.punct(state.pos, Punct::Semicolon) && script::client_call(c, state, state.pos, None)
            == script::go(p, out) && state.pos < p && c.punct(p, Punct::Semicolon) && !c.punct(
            p + 1,
            Punct::Semicolon,
        ) ==> script::statements(c, state) == (if p + 1 == c.tokens.len() {
            Ok::<OutcomeView, Seq<char>>(out)
        } else {
            script::statements(c, State { pos: p + 1, out })
        }),
{
    reveal(script::client_call);
    reveal(script::statement);
    reveal_with_fuel(script::skip_semicolons, 3);
    reveal_with_fuel(script::statements, 2);
}

} // verus!
