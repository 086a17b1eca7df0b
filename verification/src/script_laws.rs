//! What holds of every response-handler script: failures tell where they
//! happened.

use crate::http::ResponseView;
use crate::json;
use crate::json::ValueView;
use crate::lexer;
use crate::lexer::{Punct, TokView};
use crate::script;
use crate::script::{Context, OperandView, State, Step};
use crate::text;
use vstd::prelude::*;

verus! {

// ---------------------------------------------------------- positions ----

/// The failure names a line of the script.
pub open spec fn names_line(source: Seq<char>, e: Seq<char>) -> bool {
    exists|head: Seq<char>, n: nat, tail: Seq<char>|
        e == #[trigger] (head + text::decimal(n) + tail) && text::ends(head, "near line "@) && 1
            <= n <= script::line_feeds(source) + 1
}

/// The failure to read a property of null, which a missing key leads to.
pub open spec fn reads_null(e: Seq<char>) -> bool {
    exists|name: Seq<char>| e == #[trigger] script::of_null(name)
}

/// The failure names a line, or it is the one about a missing key.
pub open spec fn located(source: Seq<char>, e: Seq<char>) -> bool {
    names_line(source, e) || reads_null(e)
}

/// The tokens stand in order within the source.
pub open spec fn placed(c: Context) -> bool {
    lexer::ordered(c.tokens, c.source.len() as int)
}

proof fn lemma_feeds_within(s: Seq<char>, i: int)
    requires
        0 <= i <= s.len(),
    ensures
        script::line_feeds(s.take(i)) <= script::line_feeds(s),
    decreases s.len(),
{
    if i == s.len() {
        assert(s.take(i) =~= s);
    } else {
        lemma_feeds_within(s.drop_last(), i);
        assert(s.drop_last().take(i) =~= s.take(i));
    }
}

/// A message that holds the line of a token names a line.
proof fn lemma_names_line(c: Context, head: Seq<char>, pos: int, tail: Seq<char>)
    requires
        placed(c),
        0 <= pos,
        text::ends(head, "near line "@),
    ensures
        names_line(c.source, head + c.line(pos) + tail),
{
    let at = c.place(pos);
    if c.tokens.len() > 0 {
        let k = if pos < c.tokens.len() {
            pos
        } else {
            c.tokens.len() - 1
        };
        assert(at == c.tokens[k].start);
    }
    lemma_feeds_within(c.source, at);
    let n = script::line_feeds(c.source.take(at)) + 1;
    assert(head + c.line(pos) + tail == head + text::decimal(n) + tail);
}

/// A message that ends in the line of a token names a line.
proof fn lemma_ends_in_line(c: Context, head: Seq<char>, pos: int)
    requires
        placed(c),
        0 <= pos,
        text::ends(head, "near line "@),
    ensures
        names_line(c.source, head + c.line(pos)),
{
    lemma_names_line(c, head, pos, seq![]);
    assert(head + c.line(pos) + seq![] =~= head + c.line(pos));
}

proof fn lemma_near(c: Context, pos: int, e: Seq<char>)
    requires
        placed(c),
        0 <= pos,
    ensures
        names_line(c.source, c.near(pos, e)),
{
    reveal_strlit(" near line ");
    reveal_strlit("near line ");
    let head = e + " near line "@;
    assert(head.skip(head.len() - 10) =~= "near line "@);
    lemma_ends_in_line(c, head, pos);
}

proof fn lemma_missing(c: Context, pos: int, p: Punct)
    requires
        placed(c),
        0 <= pos,
    ensures
        names_line(c.source, c.missing(pos, p)),
{
    reveal_strlit("' near line ");
    reveal_strlit("near line ");
    let head = "expected '"@ + lexer::punct_text(p) + "' near line "@;
    assert(head.skip(head.len() - 10) =~= "near line "@);
    lemma_ends_in_line(c, head, pos);
}

proof fn lemma_unsupported(c: Context, pos: int, what: Seq<char>)
    requires
        placed(c),
        0 <= pos,
    ensures
        names_line(c.source, c.unsupported(pos, what)),
{
    reveal_strlit("unsupported handler statement near line ");
    reveal_strlit("near line ");
    let head = "unsupported handler statement near line "@;
    assert(head.skip(30) =~= "near line "@);
    let tail = ": "@ + what + " (supported: client.test/assert/global.set/log)"@;
    lemma_names_line(c, head, pos, tail);
    assert(c.unsupported(pos, what) =~= head + c.line(pos) + tail);
}

proof fn lemma_expression(c: Context, pos: int)
    requires
        placed(c),
        0 <= pos <= c.tokens.len(),
    ensures
        script::expression(c, pos) matches Ok((_, p)) ==> c.forward(pos, p),
        script::expression(c, pos) matches Err(e) ==> located(c.source, e),
    decreases c.left(pos), 7nat,
{
    reveal(script::expression);
    reveal(script::expression_rest);
    reveal(script::conjunction);
    lemma_conjunction(c, pos);
    if let Ok((v, p)) = script::conjunction(c, pos) {
        lemma_expression_rest(c, p, v);
    }
}

proof fn lemma_expression_rest(c: Context, pos: int, left: ValueView)
    requires
        placed(c),
        0 <= pos <= c.tokens.len(),
    ensures
        script::expression_rest(c, pos, left) matches Ok((_, p)) ==> pos <= p <= c.tokens.len(),
        script::expression_rest(c, pos, left) matches Err(e) ==> located(c.source, e),
    decreases c.left(pos), 0nat,
{
    reveal(script::expression_rest);
    reveal(script::conjunction);
    if c.punct(pos, Punct::Or) {
        lemma_conjunction(c, pos + 1);
        if let Ok((right, p)) = script::conjunction(c, pos + 1) {
            lemma_expression_rest(
                c,
                p,
                if left.truth() {
                    left
                } else {
                    right
                },
            );
        }
    }
}

proof fn lemma_conjunction(c: Context, pos: int)
    requires
        placed(c),
        0 <= pos <= c.tokens.len(),
    ensures
        script::conjunction(c, pos) matches Ok((_, p)) ==> c.forward(pos, p),
        script::conjunction(c, pos) matches Err(e) ==> located(c.source, e),
    decreases c.left(pos), 6nat,
{
    reveal(script::conjunction);
    reveal(script::conjunction_rest);
    reveal(script::comparison);
    lemma_comparison(c, pos);
    if let Ok((v, p)) = script::comparison(c, pos) {
        lemma_conjunction_rest(c, p, v);
    }
}

proof fn lemma_conjunction_rest(c: Context, pos: int, left: ValueView)
    requires
        placed(c),
        0 <= pos <= c.tokens.len(),
    ensures
        script::conjunction_rest(c, pos, left) matches Ok((_, p)) ==> pos <= p <= c.tokens.len(),
        script::conjunction_rest(c, pos, left) matches Err(e) ==> located(c.source, e),
    decreases c.left(pos), 0nat,
{
    reveal(script::conjunction_rest);
    reveal(script::comparison);
    if c.punct(pos, Punct::And) {
        lemma_comparison(c, pos + 1);
        if let Ok((right, p)) = script::comparison(c, pos + 1) {
            lemma_conjunction_rest(
                c,
                p,
                if left.truth() {
                    right
                } else {
                    left
                },
            );
        }
    }
}

proof fn lemma_comparison(c: Context, pos: int)
    requires
        placed(c),
        0 <= pos <= c.tokens.len(),
    ensures
        script::comparison(c, pos) matches Ok((_, p)) ==> c.forward(pos, p),
        script::comparison(c, pos) matches Err(e) ==> located(c.source, e),
    decreases c.left(pos), 5nat,
{
    reveal(script::comparison);
    reveal(script::additive);
    lemma_additive(c, pos);
    if let Ok((left, p)) = script::additive(c, pos) {
        if let Some(op) = c.operator(p) {
            lemma_additive(c, p + 1);
            if let Ok((right, q)) = script::additive(c, p + 1) {
                if let Err(e) = script::compared(left, op, right) {
                    lemma_near(c, p, e);
                }
            }
        }
    }
}

proof fn lemma_additive(c: Context, pos: int)
    requires
        placed(c),
        0 <= pos <= c.tokens.len(),
    ensures
        script::additive(c, pos) matches Ok((_, p)) ==> c.forward(pos, p),
        script::additive(c, pos) matches Err(e) ==> located(c.source, e),
    decreases c.left(pos), 4nat,
{
    reveal(script::additive);
    reveal(script::additive_rest);
    reveal(script::unary);
    lemma_unary(c, pos);
    if let Ok((v, p)) = script::unary(c, pos) {
        lemma_additive_rest(c, p, v);
    }
}

proof fn lemma_additive_rest(c: Context, pos: int, left: ValueView)
    requires
        placed(c),
        0 <= pos <= c.tokens.len(),
    ensures
        script::additive_rest(c, pos, left) matches Ok((_, p)) ==> pos <= p <= c.tokens.len(),
        script::additive_rest(c, pos, left) matches Err(e) ==> located(c.source, e),
    decreases c.left(pos), 0nat,
{
    reveal(script::additive_rest);
    reveal(script::unary);
    if c.punct(pos, Punct::Plus) {
        lemma_unary(c, pos + 1);
        if let Ok((right, p)) = script::unary(c, pos + 1) {
            match script::added(left, right) {
                Err(e) => lemma_near(c, pos, e),
                Ok(v) => lemma_additive_rest(c, p, v),
            }
        }
    }
}

proof fn lemma_unary(c: Context, pos: int)
    requires
        placed(c),
        0 <= pos <= c.tokens.len(),
    ensures
        script::unary(c, pos) matches Ok((_, p)) ==> c.forward(pos, p),
        script::unary(c, pos) matches Err(e) ==> located(c.source, e),
    decreases c.left(pos), 3nat,
{
    reveal(script::unary);
    reveal(script::postfix);
    if c.punct(pos, Punct::Not) {
        lemma_unary(c, pos + 1);
    } else {
        lemma_postfix(c, pos);
    }
}

proof fn lemma_postfix(c: Context, pos: int)
    requires
        placed(c),
        0 <= pos <= c.tokens.len(),
    ensures
        script::postfix(c, pos) matches Ok((_, p)) ==> c.forward(pos, p),
        script::postfix(c, pos) matches Err(e) ==> located(c.source, e),
    decreases c.left(pos), 2nat,
{
    reveal(script::postfix);
    reveal(script::postfix_rest);
    reveal(script::primary);
    lemma_primary(c, pos);
    if let Ok((operand, p)) = script::primary(c, pos) {
        lemma_postfix_rest(c, p, operand);
    }
}

proof fn lemma_arguments(c: Context, pos: int, acc: Seq<ValueView>)
    requires
        placed(c),
        0 <= pos <= c.tokens.len(),
    ensures
        script::arguments(c, pos, acc) matches Ok((_, p)) ==> c.forward(pos, p),
        script::arguments(c, pos, acc) matches Err(e) ==> located(c.source, e),
    decreases c.left(pos), 8nat,
{
    reveal(script::arguments);
    reveal(script::expression);
    lemma_expression(c, pos);
    if let Ok((v, p)) = script::expression(c, pos) {
        if c.punct(p, Punct::Comma) {
            lemma_arguments(c, p + 1, acc.push(v));
        }
    }
}

proof fn lemma_argument_list(c: Context, pos: int)
    requires
        placed(c),
        0 <= pos < c.tokens.len(),
    ensures
        script::argument_list(c, pos) matches Ok((_, p)) ==> c.forward(pos, p),
        script::argument_list(c, pos) matches Err(e) ==> located(c.source, e),
    decreases c.left(pos), 0nat,
{
    reveal(script::argument_list);
    reveal(script::arguments);
    if !c.punct(pos + 1, Punct::RParen) {
        lemma_arguments(c, pos + 1, seq![]);
        if let Ok((args, p)) = script::arguments(c, pos + 1, seq![]) {
            lemma_missing(c, p, Punct::RParen);
        }
    }
}

proof fn lemma_postfix_rest(c: Context, pos: int, operand: OperandView)
    requires
        placed(c),
        0 < pos <= c.tokens.len(),
    ensures
        script::postfix_rest(c, pos, operand) matches Ok((_, p)) ==> pos <= p <= c.tokens.len(),
        script::postfix_rest(c, pos, operand) matches Err(e) ==> located(c.source, e),
    decreases c.left(pos), 0nat,
{
    reveal(script::postfix_rest);
    reveal(script::argument_list);
    reveal(script::expression);
    if c.punct(pos, Punct::Dot) {
        if pos + 1 < c.tokens.len() && c.tokens[pos + 1].tok is Ident {
            let name = c.tokens[pos + 1].tok->Ident_0;
            if c.punct(pos + 2, Punct::LParen) {
                lemma_argument_list(c, pos + 2);
                if let Ok((args, p)) = script::argument_list(c, pos + 2) {
                    match script::method_result(c.response, operand, name, args) {
                        Err(e) => lemma_near(c, pos + 1, e),
                        Ok(v) => lemma_postfix_rest(c, p, OperandView::Value(v)),
                    }
                }
            } else {
                match script::member_of(c.response, operand, name) {
                    Err(e) => {
                        lemma_near(c, pos + 1, e);
                        if operand == OperandView::Value(ValueView::Null) {
                            reveal(script::member_of);
                            assert(e == script::of_null(name));
                        }
                    },
                    Ok(o) => lemma_postfix_rest(c, pos + 2, o),
                }
            }
        } else {
            reveal_strlit("expected a property name near line ");
            reveal_strlit("near line ");
            let head = "expected a property name near line "@;
            assert(head.skip(25) =~= "near line "@);
            lemma_ends_in_line(c, head, pos + 1);
        }
    } else if c.punct(pos, Punct::LBracket) {
        lemma_expression(c, pos + 1);
        if let Ok((key, p)) = script::expression(c, pos + 1) {
            if !c.punct(p, Punct::RBracket) {
                lemma_missing(c, p, Punct::RBracket);
            } else {
                match script::materialized(c.response, operand) {
                    Err(e) => lemma_near(c, pos, e),
                    Ok(v) => match script::indexed(v, key) {
                        Err(e) => lemma_near(c, pos, e),
                        Ok(w) => lemma_postfix_rest(c, p + 1, OperandView::Value(w)),
                    },
                }
            }
        }
    } else if let Err(e) = script::materialized(c.response, operand) {
        lemma_near(c, pos - 1, e);
    }
}

proof fn lemma_primary(c: Context, pos: int)
    requires
        placed(c),
        0 <= pos <= c.tokens.len(),
    ensures
        script::primary(c, pos) matches Ok((_, p)) ==> c.forward(pos, p),
        script::primary(c, pos) matches Err(e) ==> located(c.source, e),
    decreases c.left(pos), 1nat,
{
    reveal(script::primary);
    reveal(script::expression);
    reveal_strlit("near line ");
    reveal_strlit("expected an expression near line ");
    let plain = "expected an expression near line "@;
    assert(plain.skip(23) =~= "near line "@);
    lemma_ends_in_line(c, plain, pos);
    if pos < c.tokens.len() {
        match c.tokens[pos].tok {
            TokView::Ident(name) => {
                reveal_strlit("' near line ");
                let head = "unknown identifier '"@ + name + "' near line "@;
                assert(head.skip(head.len() - 10) =~= "near line "@);
                let tail = " (only 'response' and literals are available)"@;
                lemma_names_line(c, head, pos + 1, tail);
            },
            TokView::Punct(p) => {
                if p == Punct::LParen {
                    lemma_expression(c, pos + 1);
                    if let Ok((v, q)) = script::expression(c, pos + 1) {
                        lemma_missing(c, q, Punct::RParen);
                    }
                }
            },
            _ => {},
        }
    }
}

/// A step moves forward, or fails with a message that names a line.
pub open spec fn step_located(c: Context, pos: int, step: Step) -> bool {
    match step.error {
        Some(e) => located(c.source, e) && 0 <= step.state.pos <= c.tokens.len(),
        None => c.forward(pos, step.state.pos),
    }
}

proof fn lemma_literal(c: Context, pos: int)
    requires
        placed(c),
        0 <= pos,
    ensures
        script::literal(c, pos) matches Err(e) ==> located(c.source, e),
{
    reveal_strlit("near line ");
    reveal_strlit("expected a string literal near line ");
    let head = "expected a string literal near line "@;
    assert(head.skip(26) =~= "near line "@);
    lemma_ends_in_line(c, head, pos);
}

proof fn lemma_assert_call(c: Context, state: State, pos: int, test: Option<Seq<char>>)
    requires
        placed(c),
        0 <= pos <= c.tokens.len(),
        0 <= state.pos <= c.tokens.len(),
    ensures
        step_located(c, pos, script::assert_call(c, state, pos, test)),
{
    reveal(script::assert_call);
    lemma_missing(c, pos, Punct::LParen);
    if c.punct(pos, Punct::LParen) {
        lemma_expression(c, pos + 1);
        if let Ok((condition, p)) = script::expression(c, pos + 1) {
            lemma_missing(c, p, Punct::RParen);
            if c.punct(p, Punct::Comma) {
                lemma_expression(c, p + 1);
                if let Ok((m, q)) = script::expression(c, p + 1) {
                    lemma_missing(c, q, Punct::RParen);
                }
            }
        }
    }
}

proof fn lemma_set_call(c: Context, state: State, pos: int)
    requires
        placed(c),
        0 <= pos <= c.tokens.len(),
        0 <= state.pos <= c.tokens.len(),
    ensures
        step_located(c, pos, script::set_call(c, state, pos)),
{
    reveal(script::set_call);
    lemma_missing(c, pos, Punct::LParen);
    lemma_literal(c, pos + 1);
    lemma_missing(c, pos + 2, Punct::Comma);
    if c.punct(pos + 2, Punct::Comma) {
        lemma_expression(c, pos + 3);
        if let Ok((v, p)) = script::expression(c, pos + 3) {
            lemma_missing(c, p, Punct::RParen);
        }
    }
}

proof fn lemma_log_call(c: Context, state: State, pos: int)
    requires
        placed(c),
        0 <= pos <= c.tokens.len(),
        0 <= state.pos <= c.tokens.len(),
    ensures
        step_located(c, pos, script::log_call(c, state, pos)),
{
    reveal(script::log_call);
    lemma_missing(c, pos, Punct::LParen);
    if c.punct(pos, Punct::LParen) {
        lemma_expression(c, pos + 1);
        if let Ok((v, p)) = script::expression(c, pos + 1) {
            lemma_missing(c, p, Punct::RParen);
        }
    }
}

proof fn lemma_delimiters(c: Context, pos: int, ps: Seq<Punct>)
    requires
        placed(c),
        0 <= pos <= c.tokens.len(),
    ensures
        script::delimiters(c, pos, ps) matches Ok(p) ==> p == pos + ps.len() && p
            <= c.tokens.len(),
        script::delimiters(c, pos, ps) matches Err(e) ==> located(c.source, e),
    decreases ps.len(),
{
    if ps.len() > 0 {
        lemma_missing(c, pos, ps[0]);
        if c.punct(pos, ps[0]) {
            lemma_delimiters(c, pos + 1, ps.drop_first());
        }
    }
}

proof fn lemma_test_head(c: Context, pos: int)
    requires
        placed(c),
        0 <= pos <= c.tokens.len(),
    ensures
        script::test_head(c, pos) matches Ok((_, p)) ==> c.forward(pos, p),
        script::test_head(c, pos) matches Err(e) ==> located(c.source, e),
{
    reveal(script::test_head);
    lemma_missing(c, pos, Punct::LParen);
    lemma_literal(c, pos + 1);
    lemma_missing(c, pos + 2, Punct::Comma);
    if c.punct(pos + 2, Punct::Comma) {
        if c.word(pos + 3, "function"@) {
            lemma_delimiters(c, pos + 4, seq![Punct::LParen, Punct::RParen, Punct::LBrace]);
        } else {
            lemma_delimiters(
                c,
                pos + 3,
                seq![Punct::LParen, Punct::RParen, Punct::Arrow, Punct::LBrace],
            );
        }
    }
}

proof fn lemma_closing_brace(c: Context, pos: int)
    requires
        0 <= pos <= c.tokens.len(),
    ensures
        pos <= script::closing_brace(c, pos) <= c.tokens.len(),
    decreases c.left(pos),
{
    if pos < c.tokens.len() && !c.punct(pos, Punct::RBrace) {
        lemma_closing_brace(c, pos + 1);
    }
}

proof fn lemma_semicolons(c: Context, pos: int)
    requires
        0 <= pos <= c.tokens.len(),
    ensures
        pos <= script::skip_semicolons(c, pos) <= c.tokens.len(),
    decreases c.left(pos),
{
    if c.punct(pos, Punct::Semicolon) {
        lemma_semicolons(c, pos + 1);
    }
}

proof fn lemma_test_body(c: Context, state: State, name: Seq<char>)
    requires
        placed(c),
        0 <= state.pos <= c.tokens.len(),
    ensures
        state.pos <= script::test_body(c, state, name).pos <= c.tokens.len(),
    decreases c.left(state.pos), 5nat,
{
    reveal(script::test_body);
    reveal(script::statement);
    if state.pos < c.tokens.len() && !c.punct(state.pos, Punct::RBrace) {
        lemma_statement(c, state, Some(name));
        let step = script::statement(c, state, Some(name));
        match step.error {
            Some(e) => lemma_closing_brace(c, step.state.pos),
            None => lemma_test_body(c, step.state, name),
        }
    }
}

proof fn lemma_test_call(c: Context, state: State, pos: int)
    requires
        placed(c),
        0 <= state.pos <= pos <= c.tokens.len(),
    ensures
        step_located(c, pos, script::test_call(c, state, pos)),
        state.pos <= script::test_call(c, state, pos).state.pos,
    decreases c.left(pos), 2nat,
{
    reveal(script::test_call);
    reveal(script::test_body);
    lemma_test_head(c, pos);
    if let Ok((name, p)) = script::test_head(c, pos) {
        let inner = State { pos: p, out: state.out };
        lemma_test_body(c, inner, name);
        let after = script::test_body(c, inner, name);
        lemma_missing(c, after.pos, Punct::RBrace);
        lemma_missing(c, after.pos + 1, Punct::RParen);
    }
}

proof fn lemma_client_call(c: Context, state: State, pos: int, test: Option<Seq<char>>)
    requires
        placed(c),
        0 <= state.pos <= pos < c.tokens.len(),
    ensures
        step_located(c, pos, script::client_call(c, state, pos, test)),
        state.pos <= script::client_call(c, state, pos, test).state.pos,
    decreases c.left(pos), 3nat,
{
    reveal(script::client_call);
    reveal(script::test_call);
    lemma_unsupported(c, pos, "statement does not start with 'client.'"@);
    lemma_missing(c, pos + 1, Punct::Dot);
    lemma_unsupported(c, pos + 2, "unknown client method"@);
    lemma_missing(c, pos + 3, Punct::Dot);
    lemma_unsupported(c, pos + 4, "only client.global.set(...) is supported"@);
    if c.word(pos, "client"@) && c.punct(pos + 1, Punct::Dot) {
        if c.word(pos + 2, "test"@) {
            lemma_test_call(c, state, pos + 3);
        } else if c.word(pos + 2, "assert"@) {
            lemma_assert_call(c, state, pos + 3, test);
            reveal(script::assert_call);
        } else if c.word(pos + 2, "global"@) {
            if c.punct(pos + 3, Punct::Dot) && c.word(pos + 4, "set"@) {
                lemma_set_call(c, state, pos + 5);
                reveal(script::set_call);
            }
        } else if c.word(pos + 2, "log"@) {
            lemma_log_call(c, state, pos + 3);
            reveal(script::log_call);
        }
    }
}

pub(crate) proof fn lemma_statement(c: Context, state: State, test: Option<Seq<char>>)
    requires
        placed(c),
        0 <= state.pos < c.tokens.len(),
    ensures
        step_located(c, state.pos, script::statement(c, state, test)),
        state.pos <= script::statement(c, state, test).state.pos,
    decreases c.left(state.pos), 4nat,
{
    reveal(script::statement);
    reveal(script::client_call);
    let pos = script::skip_semicolons(c, state.pos);
    lemma_semicolons(c, state.pos);
    if pos < c.tokens.len() {
        lemma_client_call(c, state, pos, test);
        let step = script::client_call(c, state, pos, test);
        if step.error is None {
            lemma_semicolons(c, step.state.pos);
        }
    }
}

proof fn lemma_statements(c: Context, state: State)
    requires
        placed(c),
        0 <= state.pos <= c.tokens.len(),
    ensures
        script::statements(c, state) matches Err(e) ==> located(c.source, e),
    decreases c.left(state.pos),
{
    if state.pos < c.tokens.len() {
        lemma_statement(c, state, None);
        let step = script::statement(c, state, None);
        if step.error is None {
            lemma_statements(c, step.state);
        }
    }
}

/// Anything outside the subset is a positioned failure: when a script fails,
/// the message names a line of the script or a byte offset within it, unless
/// the script is within the subset and reads a property of null.
pub proof fn law_script_errors_are_positioned(source: Seq<char>, response: ResponseView)
    ensures
        script::executed(source, response) matches Err(e) ==> located(source, e)
            || json::names_offset(source, e),
{
    lexer::law_token_errors_name_an_offset(source);
    lexer::law_tokens_are_ordered(source);
    if let Ok(tokens) = lexer::tokens_of(source) {
        let c = Context { source, tokens, response };
        lemma_statements(c, State { pos: 0, out: script::no_outcome() });
    }
}

/// A statement that fails inside a test leaves its message in the assertion
/// that records it, positioned unless it reads a property of null.
pub proof fn law_failed_statement_is_positioned(c: Context, state: State, name: Seq<char>)
    requires
        placed(c),
        0 <= state.pos < c.tokens.len(),
        !c.punct(state.pos, Punct::RBrace),
        script::statement(c, state, Some(name)).error is Some,
    ensures
        located(c.source, script::test_body(c, state, name).out.assertions.last().message),
{
    reveal(script::test_body);
    reveal(script::statement);
    lemma_statement(c, state, Some(name));
}

} // verus!
