//! Scripts one after the other: what two scripts do when they are joined by a
//! line feed.

use crate::http::ResponseView;
use crate::json::ValueView;
use crate::lexer;
use crate::lexer::{Punct, TokView, TokenView};
use crate::script;
use crate::script::{AssertionView, Context, OperandView, OutcomeView, State, Step};
use crate::script_laws;
use crate::text;
use vstd::prelude::*;

verus! {

// ------------------------------------------------------------- tokens ----

/// The second text after the first, on a line of its own.
pub open spec fn joined(a: Seq<char>, b: Seq<char>) -> Seq<char> {
    a + seq!['\n'] + b
}

/// The tokens, further back in the source.
spec fn moved(tokens: Seq<TokenView>, by: int) -> Seq<TokenView> {
    Seq::new(
        tokens.len(),
        |i: int|
            TokenView {
                tok: tokens[i].tok,
                start: tokens[i].start + by,
                end: tokens[i].end + by,
            },
    )
}

proof fn lemma_ident_before(a: Seq<char>, b: Seq<char>, i: int)
    requires
        0 <= i <= a.len(),
    ensures
        lexer::ident_end(joined(a, b), i) == lexer::ident_end(a, i),
        i <= lexer::ident_end(a, i) <= a.len(),
    decreases a.len() - i,
{
    let s = joined(a, b);
    if i < a.len() {
        assert(s[i] == a[i]);
        lemma_ident_before(a, b, i + 1);
    } else {
        assert(s[i] == '\n');
    }
}

proof fn lemma_numeral_before(a: Seq<char>, b: Seq<char>, i: int)
    requires
        0 <= i <= a.len(),
    ensures
        lexer::numeral_end(joined(a, b), i) == lexer::numeral_end(a, i),
        i <= lexer::numeral_end(a, i) <= a.len(),
    decreases a.len() - i,
{
    let s = joined(a, b);
    if i < a.len() {
        assert(s[i] == a[i]);
        lemma_numeral_before(a, b, i + 1);
    } else {
        assert(s[i] == '\n');
    }
}

proof fn lemma_comment_before(a: Seq<char>, b: Seq<char>, i: int)
    requires
        0 <= i <= a.len(),
    ensures
        lexer::comment_end(joined(a, b), i) == lexer::comment_end(a, i),
        i <= lexer::comment_end(a, i) <= a.len(),
    decreases a.len() - i,
{
    let s = joined(a, b);
    if i < a.len() {
        assert(s[i] == a[i]);
        lemma_comment_before(a, b, i + 1);
    } else {
        assert(s[i] == '\n');
    }
}

proof fn lemma_literal_before(
    a: Seq<char>,
    b: Seq<char>,
    start: int,
    quote: char,
    i: int,
    out: Seq<char>,
)
    requires
        0 <= i,
        lexer::literal_from(a, start, quote, i, out) is Ok,
    ensures
        lexer::literal_from(joined(a, b), start, quote, i, out) == lexer::literal_from(
            a,
            start,
            quote,
            i,
            out,
        ),
    decreases a.len() - i,
{
    let s = joined(a, b);
    assert(s[i] == a[i]);
    if a[i] == quote {
    } else if a[i] != '\\' {
        lemma_literal_before(a, b, start, quote, i + 1, out.push(a[i]));
    } else {
        assert(s[i + 1] == a[i + 1]);
        lemma_literal_before(a, b, start, quote, i + 2, out.push(lexer::unescaped(a[i + 1])));
    }
}

proof fn lemma_punct_before(a: Seq<char>, b: Seq<char>, i: int)
    requires
        0 <= i < a.len(),
    ensures
        lexer::punct_at(joined(a, b), i) == lexer::punct_at(a, i),
{
    let s = joined(a, b);
    assert(s[i] == a[i]);
    assert(s[a.len() as int] == '\n');
    if i + 1 < a.len() {
        assert(s[i + 1] == a[i + 1]);
    }
    if i + 2 < a.len() {
        assert(s[i + 2] == a[i + 2]);
    }
}

proof fn lemma_token_before(a: Seq<char>, b: Seq<char>, i: int)
    requires
        0 <= i < a.len(),
        lexer::token_at(a, i) is Ok,
    ensures
        lexer::token_at(joined(a, b), i) == lexer::token_at(a, i),
{
    let s = joined(a, b);
    let c = a[i];
    assert(s[i] == c);
    if c == '"' || c == '\'' {
        lemma_literal_before(a, b, i, c, i + 1, seq![]);
    } else {
        if i + 1 < a.len() {
            assert(s[i + 1] == a[i + 1]);
        } else {
            assert(s[i + 1] == '\n');
        }
        lemma_numeral_before(a, b, i + 1);
        lemma_ident_before(a, b, i);
        lemma_punct_before(a, b, i);
        let j = lexer::numeral_end(a, i + 1);
        assert(s.subrange(i, j) =~= a.subrange(i, j));
        let j = lexer::ident_end(a, i);
        assert(s.subrange(i, j) =~= a.subrange(i, j));
    }
}

/// The tokens of the first text come first.
proof fn lemma_tokens_before(a: Seq<char>, b: Seq<char>, i: int, acc: Seq<TokenView>)
    requires
        0 <= i <= a.len(),
        lexer::tokens_from(a, i, acc) is Ok,
    ensures
        lexer::tokens_from(joined(a, b), i, acc) == lexer::tokens_from(
            joined(a, b),
            a.len() as int + 1,
            lexer::tokens_from(a, i, acc)->Ok_0,
        ),
    decreases a.len() - i,
{
    let s = joined(a, b);
    if i == a.len() {
        assert(s[i] == '\n');
    } else {
        assert(s[i] == a[i]);
        if i + 1 < a.len() {
            assert(s[i + 1] == a[i + 1]);
        } else {
            assert(s[i + 1] == '\n');
        }
        if lexer::space(a[i]) {
            lemma_tokens_before(a, b, i + 1, acc);
        } else if lexer::comment_at(a, i) {
            lemma_comment_before(a, b, i + 1);
            lemma_comment_before(a, b, i);
            lemma_tokens_before(a, b, lexer::comment_end(a, i), acc);
        } else {
            lemma_token_before(a, b, i);
            lexer::lemma_token_bounds(a, i);
            let token = lexer::token_at(a, i)->Ok_0;
            lemma_tokens_before(a, b, token.end, acc.push(token));
        }
    }
}

proof fn lemma_ident_behind(s: Seq<char>, b: Seq<char>, o: int, i: int)
    requires
        0 <= o <= s.len(),
        b == s.skip(o),
        0 <= i <= b.len(),
    ensures
        lexer::ident_end(s, o + i) == o + lexer::ident_end(b, i),
        i <= lexer::ident_end(b, i) <= b.len(),
    decreases b.len() - i,
{
    if i < b.len() {
        assert(s[o + i] == b[i]);
        lemma_ident_behind(s, b, o, i + 1);
    }
}

proof fn lemma_numeral_behind(s: Seq<char>, b: Seq<char>, o: int, i: int)
    requires
        0 <= o <= s.len(),
        b == s.skip(o),
        0 <= i <= b.len(),
    ensures
        lexer::numeral_end(s, o + i) == o + lexer::numeral_end(b, i),
        i <= lexer::numeral_end(b, i) <= b.len(),
    decreases b.len() - i,
{
    if i < b.len() {
        assert(s[o + i] == b[i]);
        lemma_numeral_behind(s, b, o, i + 1);
    }
}

proof fn lemma_comment_behind(s: Seq<char>, b: Seq<char>, o: int, i: int)
    requires
        0 <= o <= s.len(),
        b == s.skip(o),
        0 <= i <= b.len(),
    ensures
        lexer::comment_end(s, o + i) == o + lexer::comment_end(b, i),
        i <= lexer::comment_end(b, i) <= b.len(),
    decreases b.len() - i,
{
    if i < b.len() {
        assert(s[o + i] == b[i]);
        lemma_comment_behind(s, b, o, i + 1);
    }
}

proof fn lemma_literal_behind(
    s: Seq<char>,
    b: Seq<char>,
    o: int,
    start: int,
    quote: char,
    i: int,
    out: Seq<char>,
)
    requires
        0 <= o <= s.len(),
        b == s.skip(o),
        0 <= i,
        lexer::literal_from(b, start, quote, i, out) is Ok,
    ensures
        lexer::literal_from(b, start, quote, i, out) matches Ok((t, j)) && lexer::literal_from(
            s,
            o + start,
            quote,
            o + i,
            out,
        ) == Ok::<(Seq<char>, int), Seq<char>>((t, o + j)),
    decreases b.len() - i,
{
    assert(s[o + i] == b[i]);
    if b[i] == quote {
    } else if b[i] != '\\' {
        lemma_literal_behind(s, b, o, start, quote, i + 1, out.push(b[i]));
    } else {
        assert(s[o + i + 1] == b[i + 1]);
        lemma_literal_behind(
            s,
            b,
            o,
            start,
            quote,
            i + 2,
            out.push(lexer::unescaped(b[i + 1])),
        );
    }
}

proof fn lemma_punct_behind(s: Seq<char>, b: Seq<char>, o: int, i: int)
    requires
        0 <= o <= s.len(),
        b == s.skip(o),
        0 <= i < b.len(),
    ensures
        lexer::punct_at(s, o + i) == lexer::punct_at(b, i),
{
    assert(s[o + i] == b[i]);
    if i + 1 < b.len() {
        assert(s[o + i + 1] == b[i + 1]);
    }
    if i + 2 < b.len() {
        assert(s[o + i + 2] == b[i + 2]);
    }
}

proof fn lemma_token_behind(s: Seq<char>, b: Seq<char>, o: int, i: int)
    requires
        0 <= o <= s.len(),
        b == s.skip(o),
        0 <= i < b.len(),
        lexer::token_at(b, i) is Ok,
    ensures
        lexer::token_at(b, i) matches Ok(t) && lexer::token_at(s, o + i) == Ok::<
            TokenView,
            Seq<char>,
        >((TokenView { tok: t.tok, start: t.start + o, end: t.end + o })),
{
    let c = b[i];
    assert(s[o + i] == c);
    if c == '"' || c == '\'' {
        lemma_literal_behind(s, b, o, i, c, i + 1, seq![]);
    } else {
        if i + 1 < b.len() {
            assert(s[o + i + 1] == b[i + 1]);
        }
        lemma_numeral_behind(s, b, o, i + 1);
        lemma_ident_behind(s, b, o, i);
        lemma_punct_behind(s, b, o, i);
        let j = lexer::numeral_end(b, i + 1);
        assert(s.subrange(o + i, o + j) =~= b.subrange(i, j));
        let j = lexer::ident_end(b, i);
        assert(s.subrange(o + i, o + j) =~= b.subrange(i, j));
    }
}

/// The tokens of the second text follow, further back in the source.
proof fn lemma_tokens_behind(
    s: Seq<char>,
    b: Seq<char>,
    o: int,
    i: int,
    acc: Seq<TokenView>,
    pre: Seq<TokenView>,
)
    requires
        0 <= o <= s.len(),
        b == s.skip(o),
        0 <= i <= b.len(),
        lexer::tokens_from(b, i, acc) is Ok,
    ensures
        lexer::tokens_from(s, o + i, pre + moved(acc, o)) == Ok::<Seq<TokenView>, Seq<char>>(
            pre + moved(lexer::tokens_from(b, i, acc)->Ok_0, o),
        ),
    decreases b.len() - i,
{
    if i < b.len() {
        assert(s[o + i] == b[i]);
        if i + 1 < b.len() {
            assert(s[o + i + 1] == b[i + 1]);
        }
        if lexer::space(b[i]) {
            lemma_tokens_behind(s, b, o, i + 1, acc, pre);
        } else if lexer::comment_at(b, i) {
            lemma_comment_behind(s, b, o, i + 1);
            lemma_comment_behind(s, b, o, i);
            lemma_tokens_behind(s, b, o, lexer::comment_end(b, i), acc, pre);
        } else {
            lemma_token_behind(s, b, o, i);
            lexer::lemma_token_bounds(b, i);
            let token = lexer::token_at(b, i)->Ok_0;
            let other = lexer::token_at(s, o + i)->Ok_0;
            assert(pre + moved(acc.push(token), o) =~= (pre + moved(acc, o)).push(other));
            lemma_tokens_behind(s, b, o, token.end, acc.push(token), pre);
        }
    }
}

proof fn lemma_tokens_joined(a: Seq<char>, b: Seq<char>)
    requires
        lexer::tokens_of(a) is Ok,
        lexer::tokens_of(b) is Ok,
    ensures
        lexer::tokens_of(joined(a, b)) == Ok::<Seq<TokenView>, Seq<char>>(
            lexer::tokens_of(a)->Ok_0 + moved(lexer::tokens_of(b)->Ok_0, a.len() as int + 1),
        ),
{
    let s = joined(a, b);
    let o = a.len() as int + 1;
    let first = lexer::tokens_of(a)->Ok_0;
    lemma_tokens_before(a, b, 0, seq![]);
    assert(b =~= s.skip(o));
    assert(first + moved(seq![], o) =~= first);
    lemma_tokens_behind(s, b, o, 0, seq![], first);
}

// -------------------------------------------------------- expressions ----

/// A token that cannot go on with an expression.
spec fn stop(t: TokView) -> bool {
    t is Ident || t == TokView::Punct(Punct::Semicolon)
}

/// The tokens of `c` stand in `d` from `k` on, and what follows them there, if
/// anything, cannot go on with an expression.
#[verifier::opaque]
spec fn within(c: Context, d: Context, k: int) -> bool {
    let n = c.tokens.len();
    &&& c.response == d.response
    &&& 0 <= k
    &&& k + n <= d.tokens.len()
    &&& forall|i: int| 0 <= i < n ==> d.tokens[k + i].tok == (#[trigger] c.tokens[i]).tok
    &&& k + n < d.tokens.len() ==> stop(d.tokens[k + n].tok)
}

/// No closing brace stands from `a` up to `b`.
#[verifier::opaque]
spec fn plain(c: Context, a: int, b: int) -> bool {
    forall|i: int| a <= i < b ==> !#[trigger] c.punct(i, Punct::RBrace)
}

/// What the token at `pos` of `c` says of `d`.
proof fn lemma_at(c: Context, d: Context, k: int, pos: int)
    requires
        within(c, d, k),
        0 <= pos <= c.tokens.len(),
    ensures
        pos < c.tokens.len() ==> k + pos < d.tokens.len() && d.tokens[k + pos].tok
            == c.tokens[pos].tok,
        pos == c.tokens.len() && k + pos < d.tokens.len() ==> stop(d.tokens[k + pos].tok),
        c.response == d.response,
        0 <= k,
        k + c.tokens.len() <= d.tokens.len(),
        plain(c, pos, pos),
{
    reveal(within);
    reveal(plain);
}

/// A token that is no closing brace, in front of more.
proof fn lemma_token(c: Context, a: int)
    requires
        !c.punct(a, Punct::RBrace),
    ensures
        plain(c, a, a + 1),
        forall|b: int| #[trigger] plain(c, a + 1, b) ==> plain(c, a, b),
{
    reveal(plain);
}

/// Tokens without a closing brace, in front of more.
proof fn lemma_before(c: Context, a: int, m: int)
    requires
        plain(c, a, m),
    ensures
        forall|b: int| #[trigger] plain(c, m, b) ==> plain(c, a, b),
{
    reveal(plain);
}

/// The results in `c` and in `d` go together: where the one in `c` succeeds,
/// the other does the same, and where it fails, the other fails too or the
/// tokens of `c` ran out before a closing brace.
spec fn agrees<T>(
    c: Context,
    k: int,
    pos: int,
    least: int,
    x: Result<(T, int), Seq<char>>,
    y: Result<(T, int), Seq<char>>,
) -> bool {
    match x {
        Ok((v, p)) => pos + least <= p <= c.tokens.len() && plain(c, pos, p) && y == Ok::<
            (T, int),
            Seq<char>,
        >((v, k + p)),
        Err(_) => y is Err || plain(c, pos, c.tokens.len() as int),
    }
}

proof fn lemma_expression(c: Context, d: Context, k: int, pos: int)
    requires
        within(c, d, k),
        0 <= pos <= c.tokens.len(),
    ensures
        agrees(c, k, pos, 1, script::expression(c, pos), script::expression(d, k + pos)),
    decreases c.left(pos), 7nat,
{
    reveal(script::expression);
    reveal(script::expression_rest);
    reveal(script::conjunction);
    lemma_at(c, d, k, pos);
    lemma_conjunction(c, d, k, pos);
    if let Ok((v, p)) = script::conjunction(c, pos) {
        lemma_before(c, pos, p);
        lemma_expression_rest(c, d, k, p, v);
    }
}

#[verifier::spinoff_prover]
#[verifier::rlimit(60)]
proof fn lemma_expression_rest(c: Context, d: Context, k: int, pos: int, left: ValueView)
    requires
        within(c, d, k),
        0 <= pos <= c.tokens.len(),
    ensures
        agrees(
            c,
            k,
            pos,
            0,
            script::expression_rest(c, pos, left),
            script::expression_rest(d, k + pos, left),
        ),
    decreases c.left(pos), 0nat,
{
    reveal(script::expression_rest);
    reveal(script::conjunction);
    lemma_at(c, d, k, pos);
    if c.punct(pos, Punct::Or) {
        lemma_token(c, pos);
        lemma_conjunction(c, d, k, pos + 1);
        if let Ok((right, p)) = script::conjunction(c, pos + 1) {
            lemma_before(c, pos, p);
            lemma_expression_rest(
                c,
                d,
                k,
                p,
                if left.truth() {
                    left
                } else {
                    right
                },
            );
        }
    }
}

proof fn lemma_conjunction(c: Context, d: Context, k: int, pos: int)
    requires
        within(c, d, k),
        0 <= pos <= c.tokens.len(),
    ensures
        agrees(c, k, pos, 1, script::conjunction(c, pos), script::conjunction(d, k + pos)),
    decreases c.left(pos), 6nat,
{
    reveal(script::conjunction);
    reveal(script::conjunction_rest);
    reveal(script::comparison);
    lemma_at(c, d, k, pos);
    lemma_comparison(c, d, k, pos);
    if let Ok((v, p)) = script::comparison(c, pos) {
        lemma_before(c, pos, p);
        lemma_conjunction_rest(c, d, k, p, v);
    }
}

#[verifier::spinoff_prover]
#[verifier::rlimit(60)]
proof fn lemma_conjunction_rest(c: Context, d: Context, k: int, pos: int, left: ValueView)
    requires
        within(c, d, k),
        0 <= pos <= c.tokens.len(),
    ensures
        agrees(
            c,
            k,
            pos,
            0,
            script::conjunction_rest(c, pos, left),
            script::conjunction_rest(d, k + pos, left),
        ),
    decreases c.left(pos), 0nat,
{
    reveal(script::conjunction_rest);
    reveal(script::comparison);
    lemma_at(c, d, k, pos);
    if c.punct(pos, Punct::And) {
        lemma_token(c, pos);
        lemma_comparison(c, d, k, pos + 1);
        if let Ok((right, p)) = script::comparison(c, pos + 1) {
            lemma_before(c, pos, p);
            lemma_conjunction_rest(
                c,
                d,
                k,
                p,
                if left.truth() {
                    right
                } else {
                    left
                },
            );
        }
    }
}

#[verifier::spinoff_prover]
#[verifier::rlimit(60)]
proof fn lemma_comparison(c: Context, d: Context, k: int, pos: int)
    requires
        within(c, d, k),
        0 <= pos <= c.tokens.len(),
    ensures
        agrees(c, k, pos, 1, script::comparison(c, pos), script::comparison(d, k + pos)),
    decreases c.left(pos), 5nat,
{
    reveal(script::comparison);
    reveal(script::additive);
    lemma_additive(c, d, k, pos);
    if let Ok((left, p)) = script::additive(c, pos) {
        lemma_at(c, d, k, p);
        assert(c.operator(p) == d.operator(k + p));
        if let Some(op) = c.operator(p) {
            lemma_before(c, pos, p);
            lemma_token(c, p);
            lemma_additive(c, d, k, p + 1);
        }
    }
}

proof fn lemma_additive(c: Context, d: Context, k: int, pos: int)
    requires
        within(c, d, k),
        0 <= pos <= c.tokens.len(),
    ensures
        agrees(c, k, pos, 1, script::additive(c, pos), script::additive(d, k + pos)),
    decreases c.left(pos), 4nat,
{
    reveal(script::additive);
    reveal(script::additive_rest);
    reveal(script::unary);
    lemma_at(c, d, k, pos);
    lemma_unary(c, d, k, pos);
    if let Ok((v, p)) = script::unary(c, pos) {
        lemma_before(c, pos, p);
        lemma_additive_rest(c, d, k, p, v);
    }
}

#[verifier::spinoff_prover]
#[verifier::rlimit(60)]
proof fn lemma_additive_rest(c: Context, d: Context, k: int, pos: int, left: ValueView)
    requires
        within(c, d, k),
        0 <= pos <= c.tokens.len(),
    ensures
        agrees(
            c,
            k,
            pos,
            0,
            script::additive_rest(c, pos, left),
            script::additive_rest(d, k + pos, left),
        ),
    decreases c.left(pos), 0nat,
{
    reveal(script::additive_rest);
    reveal(script::unary);
    lemma_at(c, d, k, pos);
    if c.punct(pos, Punct::Plus) {
        lemma_token(c, pos);
        lemma_unary(c, d, k, pos + 1);
        if let Ok((right, p)) = script::unary(c, pos + 1) {
            if let Ok(v) = script::added(left, right) {
                lemma_before(c, pos, p);
                lemma_additive_rest(c, d, k, p, v);
            }
        }
    }
}

proof fn lemma_unary(c: Context, d: Context, k: int, pos: int)
    requires
        within(c, d, k),
        0 <= pos <= c.tokens.len(),
    ensures
        agrees(c, k, pos, 1, script::unary(c, pos), script::unary(d, k + pos)),
    decreases c.left(pos), 3nat,
{
    reveal(script::unary);
    reveal(script::postfix);
    lemma_at(c, d, k, pos);
    if c.punct(pos, Punct::Not) {
        lemma_token(c, pos);
        lemma_unary(c, d, k, pos + 1);
    } else {
        lemma_postfix(c, d, k, pos);
    }
}

proof fn lemma_postfix(c: Context, d: Context, k: int, pos: int)
    requires
        within(c, d, k),
        0 <= pos <= c.tokens.len(),
    ensures
        agrees(c, k, pos, 1, script::postfix(c, pos), script::postfix(d, k + pos)),
    decreases c.left(pos), 2nat,
{
    reveal(script::postfix);
    reveal(script::postfix_rest);
    reveal(script::primary);
    lemma_at(c, d, k, pos);
    lemma_primary(c, d, k, pos);
    if let Ok((operand, p)) = script::primary(c, pos) {
        lemma_before(c, pos, p);
        lemma_postfix_rest(c, d, k, p, operand);
    }
}

#[verifier::spinoff_prover]
#[verifier::rlimit(60)]
proof fn lemma_arguments(c: Context, d: Context, k: int, pos: int, acc: Seq<ValueView>)
    requires
        within(c, d, k),
        0 <= pos <= c.tokens.len(),
    ensures
        agrees(
            c,
            k,
            pos,
            1,
            script::arguments(c, pos, acc),
            script::arguments(d, k + pos, acc),
        ),
    decreases c.left(pos), 8nat,
{
    reveal(script::arguments);
    reveal(script::expression);
    lemma_expression(c, d, k, pos);
    if let Ok((v, p)) = script::expression(c, pos) {
        lemma_at(c, d, k, p);
        if c.punct(p, Punct::Comma) {
            lemma_before(c, pos, p);
            lemma_token(c, p);
            lemma_arguments(c, d, k, p + 1, acc.push(v));
        }
    }
}

#[verifier::spinoff_prover]
#[verifier::rlimit(60)]
proof fn lemma_argument_list(c: Context, d: Context, k: int, pos: int)
    requires
        within(c, d, k),
        0 <= pos < c.tokens.len(),
        c.punct(pos, Punct::LParen),
    ensures
        agrees(
            c,
            k,
            pos,
            1,
            script::argument_list(c, pos),
            script::argument_list(d, k + pos),
        ),
    decreases c.left(pos), 0nat,
{
    reveal(script::argument_list);
    reveal(script::arguments);
    lemma_at(c, d, k, pos);
    lemma_at(c, d, k, pos + 1);
    lemma_token(c, pos);
    if c.punct(pos + 1, Punct::RParen) {
        lemma_token(c, pos + 1);
    } else {
        lemma_arguments(c, d, k, pos + 1, seq![]);
        if let Ok((args, p)) = script::arguments(c, pos + 1, seq![]) {
            lemma_at(c, d, k, p);
            lemma_before(c, pos, p);
            if c.punct(p, Punct::RParen) {
                lemma_token(c, p);
            }
        }
    }
}

#[verifier::spinoff_prover]
#[verifier::rlimit(60)]
proof fn lemma_postfix_rest(c: Context, d: Context, k: int, pos: int, operand: OperandView)
    requires
        within(c, d, k),
        0 <= pos <= c.tokens.len(),
    ensures
        agrees(
            c,
            k,
            pos,
            0,
            script::postfix_rest(c, pos, operand),
            script::postfix_rest(d, k + pos, operand),
        ),
    decreases c.left(pos), 0nat,
{
    reveal(script::postfix_rest);
    reveal(script::argument_list);
    reveal(script::expression);
    lemma_at(c, d, k, pos);
    if c.punct(pos, Punct::Dot) {
        lemma_token(c, pos);
        lemma_at(c, d, k, pos + 1);
        if pos + 1 < c.tokens.len() && c.tokens[pos + 1].tok is Ident {
            let name = c.tokens[pos + 1].tok->Ident_0;
            lemma_token(c, pos + 1);
            lemma_at(c, d, k, pos + 2);
            if c.punct(pos + 2, Punct::LParen) {
                lemma_argument_list(c, d, k, pos + 2);
                if let Ok((args, p)) = script::argument_list(c, pos + 2) {
                    if let Ok(v) = script::method_result(c.response, operand, name, args) {
                        lemma_before(c, pos, p);
                        lemma_postfix_rest(c, d, k, p, OperandView::Value(v));
                    }
                }
            } else if let Ok(o) = script::member_of(c.response, operand, name) {
                lemma_postfix_rest(c, d, k, pos + 2, o);
            }
        }
    } else if c.punct(pos, Punct::LBracket) {
        lemma_token(c, pos);
        lemma_expression(c, d, k, pos + 1);
        if let Ok((key, p)) = script::expression(c, pos + 1) {
            lemma_at(c, d, k, p);
            if c.punct(p, Punct::RBracket) {
                if let Ok(v) = script::materialized(c.response, operand) {
                    if let Ok(w) = script::indexed(v, key) {
                        lemma_before(c, pos, p);
                        lemma_token(c, p);
                        lemma_before(c, pos, p + 1);
                        lemma_postfix_rest(c, d, k, p + 1, OperandView::Value(w));
                    }
                }
            }
        }
    }
}

#[verifier::spinoff_prover]
#[verifier::rlimit(60)]
proof fn lemma_primary(c: Context, d: Context, k: int, pos: int)
    requires
        within(c, d, k),
        0 <= pos <= c.tokens.len(),
    ensures
        agrees(c, k, pos, 1, script::primary(c, pos), script::primary(d, k + pos)),
    decreases c.left(pos), 1nat,
{
    reveal(script::primary);
    reveal(script::expression);
    lemma_at(c, d, k, pos);
    if !c.punct(pos, Punct::RBrace) {
        lemma_token(c, pos);
    }
    if c.punct(pos, Punct::LParen) {
        lemma_expression(c, d, k, pos + 1);
        if let Ok((v, q)) = script::expression(c, pos + 1) {
            lemma_at(c, d, k, q);
            if c.punct(q, Punct::RParen) {
                lemma_before(c, pos, q);
                lemma_token(c, q);
            }
        }
    }
}

// --------------------------------------------------------- statements ----

/// The tests of the assertions and whether they passed.
pub open spec fn marks(assertions: Seq<AssertionView>) -> Seq<(Option<Seq<char>>, bool)> {
    Seq::new(assertions.len(), |i: int| (assertions[i].test, assertions[i].passed))
}

/// `z` is `x` and then `y`, but for the wording of the assertions.
pub open spec fn followed(x: OutcomeView, y: OutcomeView, z: OutcomeView) -> bool {
    &&& z.logs == x.logs + y.logs
    &&& z.globals == x.globals + y.globals
    &&& marks(z.assertions) == marks(x.assertions) + marks(y.assertions)
}

proof fn lemma_followed_assertion(
    x: OutcomeView,
    y: OutcomeView,
    z: OutcomeView,
    a: AssertionView,
    b: AssertionView,
)
    requires
        followed(x, y, z),
        a.test == b.test,
        a.passed == b.passed,
    ensures
        followed(x, script::with_assertion(y, a), script::with_assertion(z, b)),
        z.assertions.len() == x.assertions.len() + y.assertions.len(),
{
    let w = script::with_assertion(z, b);
    let v = script::with_assertion(y, a);
    assert(marks(z.assertions).len() == marks(x.assertions).len() + marks(y.assertions).len());
    assert(marks(w.assertions) =~= marks(z.assertions).push((b.test, b.passed)));
    assert(marks(v.assertions) =~= marks(y.assertions).push((a.test, a.passed)));
    assert(marks(w.assertions) =~= marks(x.assertions) + marks(v.assertions));
}

proof fn lemma_followed_log(x: OutcomeView, y: OutcomeView, z: OutcomeView, t: Seq<char>)
    requires
        followed(x, y, z),
    ensures
        followed(
            x,
            OutcomeView { logs: y.logs.push(t), ..y },
            OutcomeView { logs: z.logs.push(t), ..z },
        ),
{
    assert(z.logs.push(t) =~= x.logs + y.logs.push(t));
}

proof fn lemma_followed_global(
    x: OutcomeView,
    y: OutcomeView,
    z: OutcomeView,
    g: (Seq<char>, Seq<char>),
)
    requires
        followed(x, y, z),
    ensures
        followed(
            x,
            OutcomeView { globals: y.globals.push(g), ..y },
            OutcomeView { globals: z.globals.push(g), ..z },
        ),
{
    assert(z.globals.push(g) =~= x.globals + y.globals.push(g));
}

/// The states in `c` and in `d` go together, after what `x` holds.
spec fn abreast(k: int, x: OutcomeView, s: State, t: State) -> bool {
    t.pos == k + s.pos && followed(x, s.out, t.out)
}

/// The steps in `c` and in `d` go together: a success in `c` is one in `d`, and
/// a failure in `c` is one in `d`, or the tokens of `c` ran out before a
/// closing brace.
spec fn steps_agree(c: Context, k: int, x: OutcomeView, pos: int, s: Step, t: Step) -> bool {
    &&& s.state.pos <= c.tokens.len()
    &&& match s.error {
        None => pos < s.state.pos && t.error is None && abreast(k, x, s.state, t.state),
        Some(_) => (t.error is Some && abreast(k, x, s.state, t.state)) || plain(
            c,
            s.state.pos,
            c.tokens.len() as int,
        ),
    }
}

/// A call at `pos` of `c`, from the state `s`, with only semicolons and the
/// words of the call between.
spec fn ready(
    c: Context,
    d: Context,
    k: int,
    x: OutcomeView,
    s: State,
    t: State,
    pos: int,
) -> bool {
    &&& within(c, d, k)
    &&& abreast(k, x, s, t)
    &&& 0 <= s.pos <= pos <= c.tokens.len()
    &&& plain(c, s.pos, pos)
}

#[verifier::spinoff_prover]
#[verifier::rlimit(60)]
proof fn lemma_assert_call(
    c: Context,
    d: Context,
    k: int,
    x: OutcomeView,
    s: State,
    t: State,
    pos: int,
    test: Option<Seq<char>>,
)
    requires
        ready(c, d, k, x, s, t, pos),
    ensures
        steps_agree(
            c,
            k,
            x,
            pos,
            script::assert_call(c, s, pos, test),
            script::assert_call(d, t, k + pos, test),
        ),
{
    reveal(script::assert_call);
    lemma_at(c, d, k, pos);
    lemma_before(c, s.pos, pos);
    if c.punct(pos, Punct::LParen) {
        lemma_token(c, pos);
        lemma_expression(c, d, k, pos + 1);
        if let Ok((condition, p)) = script::expression(c, pos + 1) {
            lemma_at(c, d, k, p);
            lemma_before(c, pos + 1, p);
            let source = text::trimmed(c.source.subrange(c.place(pos + 1), c.tokens[p - 1].end));
            let other = text::trimmed(
                d.source.subrange(d.place(k + pos + 1), d.tokens[k + p - 1].end),
            );
            let passed = condition.truth();
            if c.punct(p, Punct::Comma) {
                lemma_token(c, p);
                lemma_expression(c, d, k, p + 1);
                if let Ok((m, q)) = script::expression(c, p + 1) {
                    lemma_at(c, d, k, q);
                    let shown = Some(m.shown());
                    lemma_followed_assertion(
                        x,
                        s.out,
                        t.out,
                        AssertionView {
                            test,
                            passed,
                            message: script::assertion_message(passed, shown, source),
                        },
                        AssertionView {
                            test,
                            passed,
                            message: script::assertion_message(passed, shown, other),
                        },
                    );
                }
            } else {
                lemma_followed_assertion(
                    x,
                    s.out,
                    t.out,
                    AssertionView {
                        test,
                        passed,
                        message: script::assertion_message(passed, None, source),
                    },
                    AssertionView {
                        test,
                        passed,
                        message: script::assertion_message(passed, None, other),
                    },
                );
            }
        }
    }
}

#[verifier::spinoff_prover]
proof fn lemma_set_call(
    c: Context,
    d: Context,
    k: int,
    x: OutcomeView,
    s: State,
    t: State,
    pos: int,
)
    requires
        ready(c, d, k, x, s, t, pos),
    ensures
        steps_agree(
            c,
            k,
            x,
            pos,
            script::set_call(c, s, pos),
            script::set_call(d, t, k + pos),
        ),
{
    reveal(script::set_call);
    lemma_at(c, d, k, pos);
    lemma_before(c, s.pos, pos);
    if c.punct(pos, Punct::LParen) {
        lemma_token(c, pos);
        lemma_at(c, d, k, pos + 1);
        if let Ok(name) = script::literal(c, pos + 1) {
            lemma_token(c, pos + 1);
            lemma_at(c, d, k, pos + 2);
            if c.punct(pos + 2, Punct::Comma) {
                lemma_token(c, pos + 2);
                lemma_expression(c, d, k, pos + 3);
                if let Ok((v, p)) = script::expression(c, pos + 3) {
                    lemma_at(c, d, k, p);
                    lemma_followed_global(x, s.out, t.out, (name, v.shown()));
                }
            }
        }
    }
}

#[verifier::spinoff_prover]
proof fn lemma_log_call(
    c: Context,
    d: Context,
    k: int,
    x: OutcomeView,
    s: State,
    t: State,
    pos: int,
)
    requires
        ready(c, d, k, x, s, t, pos),
    ensures
        steps_agree(
            c,
            k,
            x,
            pos,
            script::log_call(c, s, pos),
            script::log_call(d, t, k + pos),
        ),
{
    reveal(script::log_call);
    lemma_at(c, d, k, pos);
    lemma_before(c, s.pos, pos);
    if c.punct(pos, Punct::LParen) {
        lemma_token(c, pos);
        lemma_expression(c, d, k, pos + 1);
        if let Ok((v, p)) = script::expression(c, pos + 1) {
            lemma_at(c, d, k, p);
            lemma_followed_log(x, s.out, t.out, v.shown());
        }
    }
}

proof fn lemma_delimiters(c: Context, d: Context, k: int, pos: int, ps: Seq<Punct>)
    requires
        within(c, d, k),
        0 <= pos <= c.tokens.len(),
        forall|i: int|
            0 <= i < ps.len() ==> #[trigger] ps[i] != Punct::RBrace && ps[i] != Punct::Semicolon,
    ensures
        match script::delimiters(c, pos, ps) {
            Ok(p) => pos <= p <= c.tokens.len() && plain(c, pos, p) && script::delimiters(
                d,
                k + pos,
                ps,
            ) == Ok::<int, Seq<char>>(k + p),
            Err(_) => script::delimiters(d, k + pos, ps) is Err,
        },
    decreases ps.len(),
{
    lemma_at(c, d, k, pos);
    if ps.len() > 0 {
        assert(ps[0] != Punct::RBrace && ps[0] != Punct::Semicolon);
        if c.punct(pos, ps[0]) {
            lemma_token(c, pos);
            let rest = ps.drop_first();
            assert forall|i: int| 0 <= i < rest.len() implies #[trigger] rest[i] != Punct::RBrace
                && rest[i] != Punct::Semicolon by {
                assert(rest[i] == ps[i + 1]);
            }
            lemma_delimiters(c, d, k, pos + 1, rest);
        }
    }
}

#[verifier::spinoff_prover]
proof fn lemma_test_head(c: Context, d: Context, k: int, pos: int)
    requires
        within(c, d, k),
        0 <= pos <= c.tokens.len(),
    ensures
        agrees(c, k, pos, 1, script::test_head(c, pos), script::test_head(d, k + pos)),
{
    reveal(script::test_head);
    lemma_at(c, d, k, pos);
    if c.punct(pos, Punct::LParen) {
        lemma_token(c, pos);
        lemma_at(c, d, k, pos + 1);
        if let Ok(name) = script::literal(c, pos + 1) {
            lemma_token(c, pos + 1);
            lemma_at(c, d, k, pos + 2);
            if c.punct(pos + 2, Punct::Comma) {
                lemma_token(c, pos + 2);
                lemma_at(c, d, k, pos + 3);
                let long = seq![Punct::LParen, Punct::RParen, Punct::Arrow, Punct::LBrace];
                if c.word(pos + 3, "function"@) {
                    lemma_token(c, pos + 3);
                    lemma_delimiters(
                        c,
                        d,
                        k,
                        pos + 4,
                        seq![Punct::LParen, Punct::RParen, Punct::LBrace],
                    );
                } else {
                    lemma_delimiters(c, d, k, pos + 3, long);
                }
                if pos + 3 == c.tokens.len() {
                    assert(long[0] == Punct::LParen);
                    assert(script::delimiters(c, pos + 3, long) is Err);
                }
            }
        }
    }
}

proof fn lemma_closing_brace(c: Context, d: Context, k: int, pos: int)
    requires
        within(c, d, k),
        0 <= pos <= c.tokens.len(),
    ensures
        ({
            let q = script::closing_brace(c, pos);
            &&& pos <= q <= c.tokens.len()
            &&& q < c.tokens.len() ==> c.punct(q, Punct::RBrace) && script::closing_brace(
                d,
                k + pos,
            ) == k + q
            &&& plain(c, pos, c.tokens.len() as int) ==> q == c.tokens.len()
        }),
    decreases c.left(pos),
{
    lemma_at(c, d, k, pos);
    reveal(plain);
    if pos < c.tokens.len() && !c.punct(pos, Punct::RBrace) {
        lemma_closing_brace(c, d, k, pos + 1);
    }
}

proof fn lemma_semicolons(c: Context, d: Context, k: int, pos: int)
    requires
        within(c, d, k),
        0 <= pos <= c.tokens.len(),
    ensures
        ({
            let q = script::skip_semicolons(c, pos);
            &&& pos <= q <= c.tokens.len()
            &&& plain(c, pos, q)
            &&& q < c.tokens.len() ==> script::skip_semicolons(d, k + pos) == k + q
            &&& q == c.tokens.len() ==> script::skip_semicolons(d, k + pos)
                == script::skip_semicolons(d, k + q)
        }),
    decreases c.left(pos),
{
    lemma_at(c, d, k, pos);
    if c.punct(pos, Punct::Semicolon) {
        lemma_token(c, pos);
        lemma_semicolons(c, d, k, pos + 1);
    }
}

/// The statements in `c` and in `d` go together; where the tokens of `c` end,
/// the semicolons that follow in `d` are skipped too.
spec fn statements_agree(
    c: Context,
    d: Context,
    k: int,
    x: OutcomeView,
    pos: int,
    s: Step,
    t: Step,
) -> bool {
    let n = c.tokens.len();
    &&& pos <= s.state.pos <= n
    &&& match s.error {
        None => {
            &&& pos < s.state.pos
            &&& t.error is None
            &&& followed(x, s.state.out, t.state.out)
            &&& t.state.pos == if s.state.pos < n {
                k + s.state.pos
            } else {
                script::skip_semicolons(d, k + n)
            }
        },
        Some(_) => (t.error is Some && abreast(k, x, s.state, t.state)) || plain(
            c,
            s.state.pos,
            n as int,
        ),
    }
}

#[verifier::spinoff_prover]
#[verifier::rlimit(60)]
proof fn lemma_test_body(
    c: Context,
    d: Context,
    k: int,
    x: OutcomeView,
    s: State,
    t: State,
    name: Seq<char>,
)
    requires
        within(c, d, k),
        abreast(k, x, s, t),
        0 <= s.pos <= c.tokens.len(),
    ensures
        ({
            let v = script::test_body(c, s, name);
            let w = script::test_body(d, t, name);
            &&& s.pos <= v.pos <= c.tokens.len()
            &&& v.pos < c.tokens.len() ==> abreast(k, x, v, w) && c.punct(v.pos, Punct::RBrace)
        }),
    decreases c.left(s.pos), 5nat,
{
    reveal(script::test_body);
    reveal(script::statement);
    lemma_at(c, d, k, s.pos);
    if s.pos < c.tokens.len() && !c.punct(s.pos, Punct::RBrace) {
        lemma_semicolons(c, d, k, s.pos);
        let one = script::statement(c, s, Some(name));
        let two = script::statement(d, t, Some(name));
        if script::skip_semicolons(c, s.pos) < c.tokens.len() {
            lemma_statement(c, d, k, x, s, t, Some(name));
            match one.error {
                Some(e) => {
                    lemma_closing_brace(c, d, k, one.state.pos);
                    if let Some(f) = two.error {
                        if abreast(k, x, one.state, two.state) {
                            lemma_followed_assertion(
                                x,
                                one.state.out,
                                two.state.out,
                                AssertionView { test: Some(name), passed: false, message: e },
                                AssertionView { test: Some(name), passed: false, message: f },
                            );
                        }
                    }
                },
                None => {
                    if one.state.pos < c.tokens.len() {
                        lemma_test_body(c, d, k, x, one.state, two.state, name);
                    } else {
                        assert(script::test_body(c, one.state, name) == one.state);
                    }
                },
            }
        } else {
            assert(one.state.pos == c.tokens.len() && one.error is None);
            assert(script::test_body(c, one.state, name) == one.state);
        }
    }
}

#[verifier::spinoff_prover]
#[verifier::rlimit(60)]
proof fn lemma_test_call(
    c: Context,
    d: Context,
    k: int,
    x: OutcomeView,
    s: State,
    t: State,
    pos: int,
)
    requires
        ready(c, d, k, x, s, t, pos),
    ensures
        steps_agree(
            c,
            k,
            x,
            pos,
            script::test_call(c, s, pos),
            script::test_call(d, t, k + pos),
        ),
        s.pos <= script::test_call(c, s, pos).state.pos,
    decreases c.left(pos), 2nat,
{
    reveal(script::test_call);
    reveal(script::test_body);
    lemma_at(c, d, k, pos);
    lemma_at(c, d, k, c.tokens.len() as int);
    lemma_before(c, s.pos, pos);
    lemma_test_head(c, d, k, pos);
    if let Ok((name, p)) = script::test_head(c, pos) {
        let v = State { pos: p, out: s.out };
        let w = State { pos: k + p, out: t.out };
        lemma_test_body(c, d, k, x, v, w, name);
        let v = script::test_body(c, v, name);
        let w = script::test_body(d, w, name);
        if v.pos < c.tokens.len() {
            lemma_at(c, d, k, v.pos);
            lemma_at(c, d, k, v.pos + 1);
            let note = AssertionView {
                test: Some(name),
                passed: true,
                message: "(no assertions)"@,
            };
            lemma_followed_assertion(x, v.out, w.out, note, note);
            lemma_followed_assertion(x, s.out, t.out, note, note);
        }
    }
}

#[verifier::spinoff_prover]
#[verifier::rlimit(60)]
proof fn lemma_client_call(
    c: Context,
    d: Context,
    k: int,
    x: OutcomeView,
    s: State,
    t: State,
    pos: int,
    test: Option<Seq<char>>,
)
    requires
        ready(c, d, k, x, s, t, pos),
        pos < c.tokens.len(),
    ensures
        steps_agree(
            c,
            k,
            x,
            pos,
            script::client_call(c, s, pos, test),
            script::client_call(d, t, k + pos, test),
        ),
        s.pos <= script::client_call(c, s, pos, test).state.pos,
    decreases c.left(pos), 3nat,
{
    reveal(script::client_call);
    reveal(script::test_call);
    lemma_at(c, d, k, pos);
    lemma_before(c, s.pos, pos);
    if c.word(pos, "client"@) {
        lemma_token(c, pos);
        lemma_at(c, d, k, pos + 1);
        if c.punct(pos + 1, Punct::Dot) {
            lemma_token(c, pos + 1);
            lemma_at(c, d, k, pos + 2);
            if pos + 2 < c.tokens.len() && c.tokens[pos + 2].tok is Ident {
                lemma_token(c, pos + 2);
                if c.word(pos + 2, "test"@) {
                    lemma_test_call(c, d, k, x, s, t, pos + 3);
                } else if c.word(pos + 2, "assert"@) {
                    lemma_assert_call(c, d, k, x, s, t, pos + 3, test);
                    reveal(script::assert_call);
                } else if c.word(pos + 2, "global"@) {
                    lemma_at(c, d, k, pos + 3);
                    if c.punct(pos + 3, Punct::Dot) {
                        lemma_token(c, pos + 3);
                        lemma_at(c, d, k, pos + 4);
                        if c.word(pos + 4, "set"@) {
                            lemma_token(c, pos + 4);
                            lemma_set_call(c, d, k, x, s, t, pos + 5);
                            reveal(script::set_call);
                        }
                    }
                } else if c.word(pos + 2, "log"@) {
                    lemma_log_call(c, d, k, x, s, t, pos + 3);
                    reveal(script::log_call);
                }
            }
        }
    }
}

#[verifier::spinoff_prover]
#[verifier::rlimit(60)]
proof fn lemma_statement(
    c: Context,
    d: Context,
    k: int,
    x: OutcomeView,
    s: State,
    t: State,
    test: Option<Seq<char>>,
)
    requires
        within(c, d, k),
        abreast(k, x, s, t),
        0 <= s.pos < c.tokens.len(),
        script::skip_semicolons(c, s.pos) < c.tokens.len(),
    ensures
        statements_agree(
            c,
            d,
            k,
            x,
            s.pos,
            script::statement(c, s, test),
            script::statement(d, t, test),
        ),
    decreases c.left(s.pos), 4nat,
{
    reveal(script::statement);
    reveal(script::client_call);
    lemma_at(c, d, k, s.pos);
    lemma_semicolons(c, d, k, s.pos);
    let pos = script::skip_semicolons(c, s.pos);
    lemma_client_call(c, d, k, x, s, t, pos, test);
    let step = script::client_call(c, s, pos, test);
    if step.error is None {
        lemma_semicolons(c, d, k, step.state.pos);
    }
}

proof fn lemma_skip(d: Context, q: int)
    requires
        0 <= q <= d.tokens.len(),
    ensures
        ({
            let r = script::skip_semicolons(d, q);
            q <= r <= d.tokens.len() && !d.punct(r, Punct::Semicolon)
        }),
    decreases d.left(q),
{
    if d.punct(q, Punct::Semicolon) {
        lemma_skip(d, q + 1);
    }
}

/// Where a call starts from matters only where it fails.
proof fn lemma_same_call(d: Context, s: State, t: State, pos: int)
    requires
        s.out == t.out,
    ensures
        ({
            let x = script::client_call(d, s, pos, None);
            let y = script::client_call(d, t, pos, None);
            x.error == y.error && (x.error is None ==> x.state == y.state)
        }),
{
    reveal(script::client_call);
    reveal(script::test_call);
    reveal(script::assert_call);
    reveal(script::set_call);
    reveal(script::log_call);
}

/// Semicolons in front of the statements do nothing.
proof fn lemma_skipped(d: Context, q: int, out: OutcomeView)
    requires
        script_laws::placed(d),
        0 <= q <= d.tokens.len(),
    ensures
        script::statements(d, State { pos: q, out }) == script::statements(
            d,
            State { pos: script::skip_semicolons(d, q), out },
        ),
{
    let r = script::skip_semicolons(d, q);
    lemma_skip(d, q);
    if q < r {
        let s = State { pos: q, out };
        let t = State { pos: r, out };
        reveal(script::statement);
        reveal(script::client_call);
        if r < d.tokens.len() {
            lemma_same_call(d, s, t, r);
            script_laws::lemma_statement(d, t, None);
            assert(script::skip_semicolons(d, r) == r);
        } else {
            assert(script::statements(d, t) == Ok::<OutcomeView, Seq<char>>(out));
            assert(script::statement(d, s, None) == script::go(r, out));
        }
    }
}

/// Where the tokens of `c` run to their end, `d` does the same and goes on
/// after them.
proof fn lemma_statements(
    c: Context,
    d: Context,
    k: int,
    x: OutcomeView,
    s: State,
    t: State,
) -> (after: OutcomeView)
    requires
        within(c, d, k),
        script_laws::placed(d),
        0 <= s.pos <= c.tokens.len(),
        followed(x, s.out, t.out),
        t.pos == k + s.pos || (s.pos == c.tokens.len() && t.pos == script::skip_semicolons(
            d,
            k + s.pos,
        )),
        script::statements(c, s) is Ok,
    ensures
        followed(x, script::statements(c, s)->Ok_0, after),
        script::statements(d, t) == script::statements(
            d,
            State { pos: k + c.tokens.len(), out: after },
        ),
    decreases c.left(s.pos),
{
    lemma_at(c, d, k, s.pos);
    if s.pos == c.tokens.len() {
        lemma_skipped(d, k + s.pos, t.out);
        assert(t == State { pos: t.pos, out: t.out });
        t.out
    } else {
        lemma_semicolons(c, d, k, s.pos);
        if script::skip_semicolons(c, s.pos) == c.tokens.len() {
            reveal(script::statement);
            let end = State { pos: c.tokens.len() as int, out: s.out };
            assert(script::statement(c, s, None) == script::go(end.pos, s.out));
            assert(script::statements(c, end) == Ok::<OutcomeView, Seq<char>>(s.out));
            lemma_skipped(d, t.pos, t.out);
            lemma_skipped(d, k + c.tokens.len(), t.out);
            t.out
        } else {
            lemma_statement(c, d, k, x, s, t, None);
            script_laws::lemma_statement(d, t, None);
            let one = script::statement(c, s, None);
            let two = script::statement(d, t, None);
            lemma_statements(c, d, k, x, one.state, two.state)
        }
    }
}

/// A script that runs begins with a call or a semicolon.
proof fn lemma_first_token(c: Context)
    requires
        c.tokens.len() > 0,
        script::statements(c, State { pos: 0, out: script::no_outcome() }) is Ok,
    ensures
        stop(c.tokens[0].tok),
{
    reveal(script::statement);
    reveal(script::client_call);
    let s = State { pos: 0, out: script::no_outcome() };
    if !c.punct(0, Punct::Semicolon) {
        assert(script::skip_semicolons(c, 0) == 0);
        if !c.word(0, "client"@) {
            assert(script::client_call(c, s, 0, None).error is Some);
            assert(script::statement(c, s, None).error is Some);
        }
    }
}

/// Two scripts that run, one after the other on lines of their own, do what
/// the first does and then what the second does: the logs and the globals
/// follow each other, and so do the assertions, with their tests and whether
/// they passed.
pub proof fn law_scripts_follow_each_other(a: Seq<char>, b: Seq<char>, response: ResponseView)
    requires
        script::executed(a, response) is Ok,
        script::executed(b, response) is Ok,
    ensures
        script::executed(joined(a, b), response) matches Ok(z) && followed(
            script::executed(a, response)->Ok_0,
            script::executed(b, response)->Ok_0,
            z,
        ),
{
    let s = joined(a, b);
    lemma_tokens_joined(a, b);
    lexer::law_tokens_are_ordered(s);
    let first = Context { source: a, tokens: lexer::tokens_of(a)->Ok_0, response };
    let second = Context { source: b, tokens: lexer::tokens_of(b)->Ok_0, response };
    let both = Context { source: s, tokens: lexer::tokens_of(s)->Ok_0, response };
    let n = first.tokens.len() as int;
    let m = second.tokens.len() as int;
    assert(both.tokens.len() == n + m);
    assert forall|i: int| 0 <= i < m implies both.tokens[n + i].tok == (
    #[trigger] second.tokens[i]).tok by {}
    assert forall|i: int| 0 <= i < n implies both.tokens[0 + i].tok == (
    #[trigger] first.tokens[i]).tok by {}
    if m > 0 {
        lemma_first_token(second);
        assert(both.tokens[n].tok == second.tokens[0].tok);
    }
    assert(within(first, both, 0)) by {
        reveal(within);
    }
    assert(within(second, both, n)) by {
        reveal(within);
    }
    let none = script::no_outcome();
    let start = State { pos: 0, out: none };
    assert(marks(none.assertions) + marks(none.assertions) =~= marks(none.assertions));
    assert(none.logs + none.logs =~= none.logs);
    assert(none.globals + none.globals =~= none.globals);
    let x = lemma_statements(first, both, 0, none, start, start);
    let done = script::executed(a, response)->Ok_0;
    assert(none.logs + done.logs =~= done.logs);
    assert(none.globals + done.globals =~= done.globals);
    assert(marks(none.assertions) + marks(done.assertions) =~= marks(done.assertions));
    assert(x.logs + none.logs =~= x.logs);
    assert(x.globals + none.globals =~= x.globals);
    assert(marks(x.assertions) + marks(none.assertions) =~= marks(x.assertions));
    let z = lemma_statements(second, both, n, x, start, State { pos: n, out: x });
    assert(script::statements(both, State { pos: n + m, out: z }) == Ok::<
        OutcomeView,
        Seq<char>,
    >(z));
}

} // verus!
