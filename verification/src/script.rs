//! Interpreter for the JetBrains response-handler subset.
//!
//! The editors run `> {% ... %}` blocks in a JavaScript VM. This interpreter
//! covers the subset that real-world `.http` files use for CI-style checks:
//!
//! - `client.test("name", function () { ... })` (and `() => { ... }`)
//! - `client.assert(expr[, message])`
//! - `client.global.set("name", expr)`
//! - `client.log(expr)`
//! - expressions over `response.status`, `response.body` (with `.` / `[i]`
//!   JSON access), `response.headers.valueOf(...)`, `response.contentType`,
//!   string/array helpers (`includes`, `startsWith`, `endsWith`, `length`),
//!   literals, `!`, comparisons, `&&` and `||`.
//!
//! Anything outside the subset fails with a positioned "unsupported" error
//! instead of silently passing — a check that does not run must not look green.

use crate::http::{HttpResponse, ResponseView};
use crate::json;
use crate::json::{Value, ValueView};
use crate::lexer;
use crate::lexer::{Punct, Tok, TokView, Token, TokenView};
use crate::number;
use crate::number::Number;
use crate::text;
use vstd::prelude::*;
use vstd::slice::slice_subrange;

verus! {

/// Result of one `client.assert` (or an error surfaced as a failed check).
#[derive(Debug)]
pub struct Assertion {
    /// Enclosing `client.test` name, if any.
    pub test: Option<String>,
    pub passed: bool,
    pub message: String,
}

/// What an assertion holds.
#[verifier::ext_equal]
pub struct AssertionView {
    pub test: Option<Seq<char>>,
    pub passed: bool,
    pub message: Seq<char>,
}

impl View for Assertion {
    type V = AssertionView;

    open spec fn view(&self) -> AssertionView {
        AssertionView {
            test: text::opt_text(self.test),
            passed: self.passed,
            message: self.message@,
        }
    }
}

/// A copy of an optional string.
pub fn copy_option(s: &Option<String>) -> (r: Option<String>)
    ensures
        text::opt_text(r) == text::opt_text(*s),
{
    match s {
        Some(t) => Some(text::owned(t.as_str())),
        None => None,
    }
}

impl Clone for Assertion {
    fn clone(&self) -> (r: Assertion)
        ensures
            r@ == self@,
    {
        Assertion {
            test: copy_option(&self.test),
            passed: self.passed,
            message: text::owned(self.message.as_str()),
        }
    }
}

/// What a list of assertions holds.
pub open spec fn assertion_views(v: Seq<Assertion>) -> Seq<AssertionView> {
    Seq::new(v.len(), |i: int| v[i]@)
}

/// Everything a handler run produced.
#[derive(Debug)]
pub struct Outcome {
    pub assertions: Vec<Assertion>,
    pub logs: Vec<String>,
    /// `client.global.set` pairs, in execution order.
    pub globals: Vec<(String, String)>,
}

/// What a handler run produced.
#[verifier::ext_equal]
pub struct OutcomeView {
    pub assertions: Seq<AssertionView>,
    pub logs: Seq<Seq<char>>,
    pub globals: Seq<(Seq<char>, Seq<char>)>,
}

impl View for Outcome {
    type V = OutcomeView;

    open spec fn view(&self) -> OutcomeView {
        OutcomeView {
            assertions: assertion_views(self.assertions@),
            logs: text::texts(self.logs@),
            globals: text::pairs(self.globals@),
        }
    }
}

/// The outcome of a run that did nothing.
pub open spec fn no_outcome() -> OutcomeView {
    OutcomeView { assertions: seq![], logs: seq![], globals: seq![] }
}

/// How many assertions did not pass.
pub open spec fn failures(assertions: Seq<AssertionView>) -> nat
    decreases assertions.len(),
{
    if assertions.len() == 0 {
        0
    } else {
        failures(assertions.drop_last()) + if assertions.last().passed {
            0nat
        } else {
            1nat
        }
    }
}

impl Default for Outcome {
    fn default() -> (r: Outcome)
        ensures
            r@ == no_outcome(),
    {
        let r: Outcome = Outcome { assertions: Vec::new(), logs: Vec::new(), globals: Vec::new() };
        assert(r@ =~= no_outcome());
        r
    }
}

/// How many assertions of a list did not pass.
pub fn count_failed(assertions: &Vec<Assertion>) -> (r: usize)
    ensures
        r == failures(assertion_views(assertions@)),
        r <= assertions@.len(),
{
    let ghost all = assertion_views(assertions@);
    let mut n: usize = 0;
    let mut i: usize = 0;
    while i < assertions.len()
        invariant
            i <= assertions.len(),
            n <= i,
            all == assertion_views(assertions@),
            n == failures(all.take(i as int)),
        decreases assertions.len() - i,
    {
        assert(all.take(i + 1).drop_last() =~= all.take(i as int));
        assert(all.take(i + 1).last() == assertions@[i as int]@);
        if !assertions[i].passed {
            n += 1;
        }
        i += 1;
    }
    assert(all.take(all.len() as int) =~= all);
    n
}

impl Outcome {
    pub fn failed(&self) -> (r: usize)
        ensures
            r == failures(self@.assertions),
    {
        count_failed(&self.assertions)
    }
}

// ------------------------------------------------------------- values ----

/// The text of `response.body`.
pub open spec fn body_text(response: ResponseView) -> Seq<char> {
    text::utf8_lossy(response.body)
}

/// The first character after white space opens an object or an array.
pub open spec fn looks_structured(s: Seq<char>) -> bool {
    let t = text::ltrim(s);
    t.len() > 0 && (t[0] == '{' || t[0] == '[')
}

/// The value of a body with the given text: JSON when the content type or the
/// text says so and it parses, else the text.
pub open spec fn body_of(response: ResponseView, body: Seq<char>) -> ValueView {
    if text::contains(response.content_type().0, "json"@) || looks_structured(body) {
        match json::parsed(body) {
            Ok(v) => v,
            Err(_) => ValueView::String(body),
        }
    } else {
        ValueView::String(body)
    }
}

/// The value of `response.body`.
pub open spec fn parsed_body(response: ResponseView) -> ValueView {
    body_of(response, body_text(response))
}

/// How two values are ordered.
pub enum Rank {
    Below,
    Same,
    Above,
}

/// The order of two numbers; none with NaN.
pub open spec fn number_rank(a: Number, b: Number) -> Option<Rank> {
    if number::below(a, b) {
        Some(Rank::Below)
    } else if number::below(b, a) {
        Some(Rank::Above)
    } else if number::equal(a, b) {
        Some(Rank::Same)
    } else {
        None
    }
}

/// The order of two texts, by code points.
pub open spec fn text_rank(a: Seq<char>, b: Seq<char>) -> Rank {
    if a == b {
        Rank::Same
    } else if text::precedes(a, b, 0) {
        Rank::Below
    } else {
        Rank::Above
    }
}

/// The order of two values: numbers by value, strings by code points, a
/// number against a string by the number that the string holds.
pub open spec fn value_rank(a: ValueView, b: ValueView) -> Option<Rank> {
    match (a, b) {
        (ValueView::Number(x), ValueView::Number(y)) => number_rank(x, y),
        (ValueView::String(x), ValueView::String(y)) => Some(text_rank(x, y)),
        (ValueView::Number(x), ValueView::String(y)) => match number::read(y) {
            Some(n) => number_rank(x, n),
            None => None,
        },
        (ValueView::String(x), ValueView::Number(y)) => match number::read(x) {
            Some(n) => number_rank(n, y),
            None => None,
        },
        _ => None,
    }
}

/// A boolean as a number; any other value as it is.
pub open spec fn unboolean(v: ValueView) -> ValueView {
    match v {
        ValueView::Bool(b) => ValueView::Number(
            number::of_integer(
                if b {
                    1
                } else {
                    0
                },
            ),
        ),
        _ => v,
    }
}

/// `==`: booleans count as numbers, and a string may hold the number.
pub open spec fn loosely_equal(a: ValueView, b: ValueView) -> bool {
    json::alike(a, b) || {
        let x = unboolean(a);
        let y = unboolean(b);
        json::alike(x, y) || match (x, y) {
            (ValueView::Number(n), ValueView::String(s)) => number::read(s) is Some
                && number::equal(number::read(s)->0, n),
            (ValueView::String(s), ValueView::Number(n)) => number::read(s) is Some
                && number::equal(number::read(s)->0, n),
            _ => false,
        }
    }
}

/// The operators between two operands of a comparison.
pub open spec fn comparing(p: Punct) -> bool {
    p == Punct::StrictEq || p == Punct::StrictNe || p == Punct::LooseEq || p == Punct::LooseNe || p
        == Punct::Gt || p == Punct::Ge || p == Punct::Lt || p == Punct::Le
}

/// The result of a comparison.
#[verifier::opaque]
pub open spec fn compared(a: ValueView, op: Punct, b: ValueView) -> Result<bool, Seq<char>> {
    match op {
        Punct::StrictEq => Ok(json::alike(a, b)),
        Punct::StrictNe => Ok(!json::alike(a, b)),
        Punct::LooseEq => Ok(loosely_equal(a, b)),
        Punct::LooseNe => Ok(!loosely_equal(a, b)),
        _ => match value_rank(a, b) {
            None => Err("cannot order "@ + a.kind() + " against "@ + b.kind()),
            Some(rank) => Ok(
                match op {
                    Punct::Gt => rank is Above,
                    Punct::Ge => !(rank is Below),
                    Punct::Lt => rank is Below,
                    _ => !(rank is Above),
                },
            ),
        },
    }
}

/// The result of `+`.
#[verifier::opaque]
pub open spec fn added(a: ValueView, b: ValueView) -> Result<ValueView, Seq<char>> {
    match (a, b) {
        (ValueView::Number(x), ValueView::Number(y)) => Ok(ValueView::Number(number::sum(x, y))),
        (ValueView::String(_), _) => Ok(ValueView::String(a.shown() + b.shown())),
        (_, ValueView::String(_)) => Ok(ValueView::String(a.shown() + b.shown())),
        _ => Err("cannot add "@ + a.kind() + " and "@ + b.kind()),
    }
}

/// The element or member that `[key]` picks.
#[verifier::opaque]
pub open spec fn indexed(v: ValueView, key: ValueView) -> Result<ValueView, Seq<char>> {
    match key {
        ValueView::Number(n) => Ok(
            match v.element(n.clamped(usize::MAX as nat) as int) {
                Some(w) => w,
                None => ValueView::Null,
            },
        ),
        ValueView::String(s) => Ok(
            match v.member(s) {
                Some(w) => w,
                None => ValueView::Null,
            },
        ),
        _ => Err("cannot index with a "@ + key.kind() + " value"@),
    }
}

/// Intermediate operand: plain values plus the special `response.*` objects
/// that only exist so members/methods can be resolved on them.
pub enum OperandView {
    Value(ValueView),
    Response,
    Headers,
    ContentType,
}

/// The failure to read a property of null.
pub open spec fn of_null(name: Seq<char>) -> Seq<char> {
    "cannot read property '"@ + name + "' of null (a parent key was missing)"@
}

/// Resolve `operand.name` member access.
#[verifier::opaque]
pub open spec fn member_of(response: ResponseView, operand: OperandView, name: Seq<char>) -> Result<
    OperandView,
    Seq<char>,
> {
    match operand {
        OperandView::Response => if name == "status"@ {
            Ok(
                OperandView::Value(
                    ValueView::Number(number::of_integer(response.status as nat)),
                ),
            )
        } else if name == "body"@ {
            Ok(OperandView::Value(parsed_body(response)))
        } else if name == "headers"@ {
            Ok(OperandView::Headers)
        } else if name == "contentType"@ {
            Ok(OperandView::ContentType)
        } else {
            Err("response has no property '"@ + name + "'"@)
        },
        OperandView::ContentType => if name == "mimeType"@ {
            Ok(OperandView::Value(ValueView::String(response.content_type().0)))
        } else if name == "charset"@ {
            Ok(OperandView::Value(ValueView::String(response.content_type().1)))
        } else {
            Err("contentType has no property '"@ + name + "'"@)
        },
        OperandView::Headers => Err(
            "headers has no property '"@ + name + "' (use headers.valueOf(\"Name\"))"@,
        ),
        OperandView::Value(v) => match v {
            ValueView::Object(_) => Ok(
                OperandView::Value(
                    match v.member(name) {
                        Some(w) => w,
                        None => ValueView::Null,
                    },
                ),
            ),
            ValueView::Null => Err(of_null(name)),
            ValueView::String(s) if name == "length"@ => Ok(
                OperandView::Value(ValueView::Number(number::of_integer(s.len()))),
            ),
            ValueView::Array(items) if name == "length"@ => Ok(
                OperandView::Value(ValueView::Number(number::of_integer(items.len()))),
            ),
            _ => Err(
                "cannot read property '"@ + name + "' of a "@ + v.kind() + " value"@,
            ),
        },
    }
}

/// The values of all headers with the name, from `i` on.
pub open spec fn header_values(
    headers: Seq<(Seq<char>, Seq<char>)>,
    name: Seq<char>,
    i: int,
) -> Seq<ValueView>
    decreases headers.len() - i,
{
    if i < 0 || i >= headers.len() {
        seq![]
    } else if text::same_letters(headers[i].0, name) {
        seq![ValueView::String(headers[i].1)] + header_values(headers, name, i + 1)
    } else {
        header_values(headers, name, i + 1)
    }
}

/// Some item equals the value.
pub open spec fn includes(items: Seq<ValueView>, v: ValueView) -> bool {
    exists|i: int| 0 <= i < items.len() && json::alike(#[trigger] items[i], v)
}

/// The first argument, where it is a string.
pub open spec fn string_arg(args: Seq<ValueView>) -> Option<Seq<char>> {
    if args.len() > 0 {
        args[0].string()
    } else {
        None
    }
}

/// Convert response-object operands to values when used as plain values.
pub open spec fn materialized(response: ResponseView, operand: OperandView) -> Result<
    ValueView,
    Seq<char>,
> {
    match operand {
        OperandView::Value(v) => Ok(v),
        OperandView::Response => Err(
            "'response' cannot be used as a value; access a property like response.status"@,
        ),
        OperandView::Headers => Err(
            "'response.headers' cannot be used as a value; call valueOf(\"Name\")"@,
        ),
        OperandView::ContentType => Ok(ValueView::String(response.content_type().0)),
    }
}

/// The result of a method of `response.headers`.
pub open spec fn header_method(response: ResponseView, name: Seq<char>, args: Seq<ValueView>) -> Result<
    ValueView,
    Seq<char>,
> {
    match string_arg(args) {
        None => Err("headers."@ + name + "() needs a header-name string"@),
        Some(arg) => if name == "valueOf"@ {
            Ok(
                match response.header(arg) {
                    Some(v) => ValueView::String(v),
                    None => ValueView::Null,
                },
            )
        } else if name == "valuesOf"@ {
            Ok(ValueView::Array(header_values(response.headers, arg, 0)))
        } else {
            Err("headers has no method '"@ + name + "'"@)
        },
    }
}

/// The result of a method of a string.
pub open spec fn string_method(s: Seq<char>, name: Seq<char>, args: Seq<ValueView>) -> Result<
    ValueView,
    Seq<char>,
> {
    if name == "includes"@ {
        match string_arg(args) {
            Some(p) => Ok(ValueView::Bool(text::contains(s, p))),
            None => Err("includes() needs a string argument"@),
        }
    } else if name == "startsWith"@ {
        match string_arg(args) {
            Some(p) => Ok(ValueView::Bool(text::starts(s, p))),
            None => Err("startsWith() needs a string argument"@),
        }
    } else if name == "endsWith"@ {
        match string_arg(args) {
            Some(p) => Ok(ValueView::Bool(text::ends(s, p))),
            None => Err("endsWith() needs a string argument"@),
        }
    } else if name == "toLowerCase"@ {
        Ok(ValueView::String(text::unicode_lowercase(s)))
    } else if name == "trim"@ {
        Ok(ValueView::String(text::trimmed(s)))
    } else {
        Err("string value has no method '"@ + name + "'"@)
    }
}

/// The result of `operand.name(args)`.
#[verifier::opaque]
pub open spec fn method_result(
    response: ResponseView,
    operand: OperandView,
    name: Seq<char>,
    args: Seq<ValueView>,
) -> Result<ValueView, Seq<char>> {
    if operand is Headers {
        header_method(response, name, args)
    } else {
        match materialized(response, operand) {
            Err(e) => Err(e),
            Ok(v) => match v {
                ValueView::String(s) => string_method(s, name, args),
                ValueView::Array(items) if name == "includes"@ => if args.len() > 0 {
                    Ok(ValueView::Bool(includes(items, args[0])))
                } else {
                    Err("includes() needs an argument"@)
                },
                _ => Err(v.kind() + " value has no method '"@ + name + "'"@),
            },
        }
    }
}

// ------------------------------------------------------------ grammar ----

/// What a script runs on: its source, its tokens and the response.
pub struct Context {
    pub source: Seq<char>,
    pub tokens: Seq<TokenView>,
    pub response: ResponseView,
}

/// The number of line feeds in a text.
pub open spec fn line_feeds(s: Seq<char>) -> nat
    decreases s.len(),
{
    if s.len() == 0 {
        0
    } else {
        line_feeds(s.drop_last()) + if s.last() == '\n' {
            1nat
        } else {
            0nat
        }
    }
}

impl Context {
    /// The token at `pos` is the given operator or delimiter.
    pub open spec fn punct(self, pos: int, p: Punct) -> bool {
        0 <= pos < self.tokens.len() && self.tokens[pos].tok == TokView::Punct(p)
    }

    /// The token at `pos` is the given word.
    pub open spec fn word(self, pos: int, name: Seq<char>) -> bool {
        0 <= pos < self.tokens.len() && self.tokens[pos].tok == TokView::Ident(name)
    }

    /// The comparison operator at `pos`.
    pub open spec fn operator(self, pos: int) -> Option<Punct> {
        if 0 <= pos < self.tokens.len() {
            match self.tokens[pos].tok {
                TokView::Punct(p) => if comparing(p) {
                    Some(p)
                } else {
                    None
                },
                _ => None,
            }
        } else {
            None
        }
    }

    /// The source position of the token at `pos`, or of the last token.
    pub open spec fn place(self, pos: int) -> int {
        if self.tokens.len() == 0 {
            self.source.len() as int
        } else if pos < self.tokens.len() {
            self.tokens[pos].start
        } else {
            self.tokens.last().start
        }
    }

    /// The line of the token at `pos`, in decimal.
    pub open spec fn line(self, pos: int) -> Seq<char> {
        text::decimal(line_feeds(self.source.take(self.place(pos))) + 1)
    }

    /// The failure about a statement outside the subset.
    pub open spec fn unsupported(self, pos: int, what: Seq<char>) -> Seq<char> {
        "unsupported handler statement near line "@ + self.line(pos) + ": "@ + what
            + " (supported: client.test/assert/global.set/log)"@
    }

    /// The failure about a missing operator or delimiter.
    pub open spec fn missing(self, pos: int, p: Punct) -> Seq<char> {
        "expected '"@ + lexer::punct_text(p) + "' near line "@ + self.line(pos)
    }

    /// The failure of an operation whose token stands at `pos`.
    pub open spec fn near(self, pos: int, e: Seq<char>) -> Seq<char> {
        e + " near line "@ + self.line(pos)
    }

    /// The failure to read a property whose name stands at `pos`. What reads a
    /// property of null is within the language: a key was missing in the
    /// response, and the failure says so as it stands.
    pub open spec fn unread(self, pos: int, operand: OperandView, e: Seq<char>) -> Seq<char> {
        if operand == OperandView::Value(ValueView::Null) {
            e
        } else {
            self.near(pos, e)
        }
    }

    /// The tokens left from `pos` on.
    pub open spec fn left(self, pos: int) -> int {
        self.tokens.len() - pos
    }

    /// A step from `a` to `b` moves forward within the tokens.
    pub open spec fn forward(self, a: int, b: int) -> bool {
        a < b <= self.tokens.len()
    }
}

/// The value of the expression at `pos`, and the position after it.
/// expr := and ('||' and)*
#[verifier::opaque]
pub open spec fn expression(c: Context, pos: int) -> Result<(ValueView, int), Seq<char>>
    decreases c.left(pos), 7nat,
{
    match conjunction(c, pos) {
        Err(e) => Err(e),
        Ok((v, p)) => if c.forward(pos, p) {
            expression_rest(c, p, v)
        } else {
            Err(seq![])
        },
    }
}

/// The rest of an expression, after its left operand.
#[verifier::opaque]
pub open spec fn expression_rest(c: Context, pos: int, left: ValueView) -> Result<
    (ValueView, int),
    Seq<char>,
>
    decreases c.left(pos), 0nat,
{
    if c.punct(pos, Punct::Or) {
        match conjunction(c, pos + 1) {
            Err(e) => Err(e),
            Ok((right, p)) => if c.forward(pos, p) {
                expression_rest(
                    c,
                    p,
                    if left.truth() {
                        left
                    } else {
                        right
                    },
                )
            } else {
                Err(seq![])
            },
        }
    } else {
        Ok((left, pos))
    }
}

/// and := comparison ('&&' comparison)*
#[verifier::opaque]
pub open spec fn conjunction(c: Context, pos: int) -> Result<(ValueView, int), Seq<char>>
    decreases c.left(pos), 6nat,
{
    match comparison(c, pos) {
        Err(e) => Err(e),
        Ok((v, p)) => if c.forward(pos, p) {
            conjunction_rest(c, p, v)
        } else {
            Err(seq![])
        },
    }
}

/// The rest of a conjunction, after its left operand.
#[verifier::opaque]
pub open spec fn conjunction_rest(c: Context, pos: int, left: ValueView) -> Result<
    (ValueView, int),
    Seq<char>,
>
    decreases c.left(pos), 0nat,
{
    if c.punct(pos, Punct::And) {
        match comparison(c, pos + 1) {
            Err(e) => Err(e),
            Ok((right, p)) => if c.forward(pos, p) {
                conjunction_rest(
                    c,
                    p,
                    if left.truth() {
                        right
                    } else {
                        left
                    },
                )
            } else {
                Err(seq![])
            },
        }
    } else {
        Ok((left, pos))
    }
}

/// comparison := additive (operator additive)?
#[verifier::opaque]
pub open spec fn comparison(c: Context, pos: int) -> Result<(ValueView, int), Seq<char>>
    decreases c.left(pos), 5nat,
{
    match additive(c, pos) {
        Err(e) => Err(e),
        Ok((left, p)) => match c.operator(p) {
            None => Ok((left, p)),
            Some(op) => if c.forward(pos, p) {
                match additive(c, p + 1) {
                    Err(e) => Err(e),
                    Ok((right, q)) => match compared(left, op, right) {
                        Err(e) => Err(c.near(p, e)),
                        Ok(b) => Ok((ValueView::Bool(b), q)),
                    },
                }
            } else {
                Err(seq![])
            },
        },
    }
}

/// additive := unary ('+' unary)*
#[verifier::opaque]
pub open spec fn additive(c: Context, pos: int) -> Result<(ValueView, int), Seq<char>>
    decreases c.left(pos), 4nat,
{
    match unary(c, pos) {
        Err(e) => Err(e),
        Ok((v, p)) => if c.forward(pos, p) {
            additive_rest(c, p, v)
        } else {
            Err(seq![])
        },
    }
}

/// The rest of a sum, after its left operand.
#[verifier::opaque]
pub open spec fn additive_rest(c: Context, pos: int, left: ValueView) -> Result<
    (ValueView, int),
    Seq<char>,
>
    decreases c.left(pos), 0nat,
{
    if c.punct(pos, Punct::Plus) {
        match unary(c, pos + 1) {
            Err(e) => Err(e),
            Ok((right, p)) => match added(left, right) {
                Err(e) => Err(c.near(pos, e)),
                Ok(v) => if c.forward(pos, p) {
                    additive_rest(c, p, v)
                } else {
                    Err(seq![])
                },
            },
        }
    } else {
        Ok((left, pos))
    }
}

/// unary := '!' unary | postfix
#[verifier::opaque]
pub open spec fn unary(c: Context, pos: int) -> Result<(ValueView, int), Seq<char>>
    decreases c.left(pos), 3nat,
{
    if c.punct(pos, Punct::Not) {
        match unary(c, pos + 1) {
            Err(e) => Err(e),
            Ok((v, p)) => Ok((ValueView::Bool(!v.truth()), p)),
        }
    } else {
        postfix(c, pos)
    }
}

/// postfix := primary ('.' name ('(' arguments ')')? | '[' expr ']')*
#[verifier::opaque]
pub open spec fn postfix(c: Context, pos: int) -> Result<(ValueView, int), Seq<char>>
    decreases c.left(pos), 2nat,
{
    match primary(c, pos) {
        Err(e) => Err(e),
        Ok((operand, p)) => if c.forward(pos, p) {
            postfix_rest(c, p, operand)
        } else {
            Err(seq![])
        },
    }
}

/// The arguments of a call from `pos` on, after the arguments `acc`.
#[verifier::opaque]
pub open spec fn arguments(c: Context, pos: int, acc: Seq<ValueView>) -> Result<
    (Seq<ValueView>, int),
    Seq<char>,
>
    decreases c.left(pos), 8nat,
{
    match expression(c, pos) {
        Err(e) => Err(e),
        Ok((v, p)) => if !c.forward(pos, p) {
            Err(seq![])
        } else if c.punct(p, Punct::Comma) {
            arguments(c, p + 1, acc.push(v))
        } else {
            Ok((acc.push(v), p))
        },
    }
}

/// The argument list whose opening parenthesis stands at `pos`, and the
/// position after it.
#[verifier::opaque]
pub open spec fn argument_list(c: Context, pos: int) -> Result<(Seq<ValueView>, int), Seq<char>>
    decreases c.left(pos), 0nat,
{
    if c.punct(pos + 1, Punct::RParen) {
        Ok((seq![], pos + 2))
    } else if pos >= c.tokens.len() {
        Err(seq![])
    } else {
        match arguments(c, pos + 1, seq![]) {
            Err(e) => Err(e),
            Ok((args, p)) => if c.punct(p, Punct::RParen) {
                Ok((args, p + 1))
            } else {
                Err(c.missing(p, Punct::RParen))
            },
        }
    }
}

/// The rest of a postfix expression, after its operand.
#[verifier::opaque]
pub open spec fn postfix_rest(c: Context, pos: int, operand: OperandView) -> Result<
    (ValueView, int),
    Seq<char>,
>
    decreases c.left(pos), 0nat,
{
    if c.punct(pos, Punct::Dot) {
        if pos + 1 < c.tokens.len() && c.tokens[pos + 1].tok is Ident {
            let name = c.tokens[pos + 1].tok->Ident_0;
            if c.punct(pos + 2, Punct::LParen) {
                match argument_list(c, pos + 2) {
                    Err(e) => Err(e),
                    Ok((args, p)) => match method_result(c.response, operand, name, args) {
                        Err(e) => Err(c.near(pos + 1, e)),
                        Ok(v) => if c.forward(pos, p) {
                            postfix_rest(c, p, OperandView::Value(v))
                        } else {
                            Err(seq![])
                        },
                    },
                }
            } else {
                match member_of(c.response, operand, name) {
                    Err(e) => Err(c.unread(pos + 1, operand, e)),
                    Ok(o) => postfix_rest(c, pos + 2, o),
                }
            }
        } else {
            Err("expected a property name near line "@ + c.line(pos + 1))
        }
    } else if c.punct(pos, Punct::LBracket) {
        match expression(c, pos + 1) {
            Err(e) => Err(e),
            Ok((key, p)) => if !c.punct(p, Punct::RBracket) {
                Err(c.missing(p, Punct::RBracket))
            } else {
                match materialized(c.response, operand) {
                    Err(e) => Err(c.near(pos, e)),
                    Ok(v) => match indexed(v, key) {
                        Err(e) => Err(c.near(pos, e)),
                        Ok(w) => if c.forward(pos, p + 1) {
                            postfix_rest(c, p + 1, OperandView::Value(w))
                        } else {
                            Err(seq![])
                        },
                    },
                }
            },
        }
    } else {
        match materialized(c.response, operand) {
            Err(e) => Err(c.near(pos - 1, e)),
            Ok(v) => Ok((v, pos)),
        }
    }
}

/// What a word stands for.
pub open spec fn word_operand(name: Seq<char>) -> Option<OperandView> {
    if name == "response"@ {
        Some(OperandView::Response)
    } else if name == "true"@ {
        Some(OperandView::Value(ValueView::Bool(true)))
    } else if name == "false"@ {
        Some(OperandView::Value(ValueView::Bool(false)))
    } else if name == "null"@ || name == "undefined"@ {
        Some(OperandView::Value(ValueView::Null))
    } else {
        None
    }
}

/// primary := string | number | word | '(' expr ')'
#[verifier::opaque]
pub open spec fn primary(c: Context, pos: int) -> Result<(OperandView, int), Seq<char>>
    decreases c.left(pos), 1nat,
{
    if 0 <= pos < c.tokens.len() {
        match c.tokens[pos].tok {
            TokView::Str(s) => Ok((OperandView::Value(ValueView::String(s)), pos + 1)),
            TokView::Num(n) => Ok((OperandView::Value(ValueView::Number(n)), pos + 1)),
            TokView::Ident(name) => match word_operand(name) {
                Some(o) => Ok((o, pos + 1)),
                None => Err(
                    "unknown identifier '"@ + name + "' near line "@ + c.line(pos + 1)
                        + " (only 'response' and literals are available)"@,
                ),
            },
            TokView::Punct(p) => if p == Punct::LParen {
                match expression(c, pos + 1) {
                    Err(e) => Err(e),
                    Ok((v, q)) => if c.punct(q, Punct::RParen) {
                        Ok((OperandView::Value(v), q + 1))
                    } else {
                        Err(c.missing(q, Punct::RParen))
                    },
                }
            } else {
                Err("expected an expression near line "@ + c.line(pos))
            },
        }
    } else {
        Err("expected an expression near line "@ + c.line(pos))
    }
}

// --------------------------------------------------------- statements ----

/// The position of the next token and what the run has produced so far.
#[verifier::ext_equal]
pub struct State {
    pub pos: int,
    pub out: OutcomeView,
}

/// The failure that stopped a step, if any, and the state after it.
#[verifier::ext_equal]
pub struct Step {
    pub error: Option<Seq<char>>,
    pub state: State,
}

/// A step that failed with the state as it was.
pub open spec fn fail(error: Seq<char>, state: State) -> Step {
    Step { error: Some(error), state }
}

/// A step that succeeded.
pub open spec fn go(pos: int, out: OutcomeView) -> Step {
    Step { error: None, state: State { pos, out } }
}

/// The position after the semicolons from `pos` on.
pub open spec fn skip_semicolons(c: Context, pos: int) -> int
    decreases c.left(pos),
{
    if c.punct(pos, Punct::Semicolon) {
        skip_semicolons(c, pos + 1)
    } else {
        pos
    }
}

/// The first position from `pos` on that holds a closing brace, or the end.
pub open spec fn closing_brace(c: Context, pos: int) -> int
    decreases c.left(pos),
{
    if 0 <= pos < c.tokens.len() && !c.punct(pos, Punct::RBrace) {
        closing_brace(c, pos + 1)
    } else {
        pos
    }
}

pub open spec fn with_assertion(out: OutcomeView, a: AssertionView) -> OutcomeView {
    OutcomeView { assertions: out.assertions.push(a), ..out }
}

/// The message of an assertion.
pub open spec fn assertion_message(
    passed: bool,
    message: Option<Seq<char>>,
    source: Seq<char>,
) -> Seq<char> {
    match message {
        Some(m) => if passed {
            m
        } else {
            m + " (assert: "@ + source + ")"@
        },
        None => if passed {
            source
        } else {
            "assert failed: "@ + source
        },
    }
}

/// The delimiters stand at `pos`: the position after them, or the first one
/// missing.
pub open spec fn delimiters(c: Context, pos: int, ps: Seq<Punct>) -> Result<int, Seq<char>>
    decreases ps.len(),
{
    if ps.len() == 0 {
        Ok(pos)
    } else if c.punct(pos, ps[0]) {
        delimiters(c, pos + 1, ps.drop_first())
    } else {
        Err(c.missing(pos, ps[0]))
    }
}

/// `(condition)` or `(condition, message)` from `pos` on.
#[verifier::opaque]
pub open spec fn assert_call(c: Context, state: State, pos: int, test: Option<Seq<char>>) -> Step {
    if !c.punct(pos, Punct::LParen) {
        fail(c.missing(pos, Punct::LParen), state)
    } else {
        match expression(c, pos + 1) {
            Err(e) => fail(e, state),
            Ok((condition, p)) => {
                let source = text::trimmed(
                    c.source.subrange(c.place(pos + 1), c.tokens[p - 1].end),
                );
                if c.punct(p, Punct::Comma) {
                    match expression(c, p + 1) {
                        Err(e) => fail(e, state),
                        Ok((m, q)) => if c.punct(q, Punct::RParen) {
                            go(
                                q + 1,
                                with_assertion(
                                    state.out,
                                    AssertionView {
                                        test,
                                        passed: condition.truth(),
                                        message: assertion_message(
                                            condition.truth(),
                                            Some(m.shown()),
                                            source,
                                        ),
                                    },
                                ),
                            )
                        } else {
                            fail(c.missing(q, Punct::RParen), state)
                        },
                    }
                } else if c.punct(p, Punct::RParen) {
                    go(
                        p + 1,
                        with_assertion(
                            state.out,
                            AssertionView {
                                test,
                                passed: condition.truth(),
                                message: assertion_message(condition.truth(), None, source),
                            },
                        ),
                    )
                } else {
                    fail(c.missing(p, Punct::RParen), state)
                }
            },
        }
    }
}

/// A string literal at `pos`.
pub open spec fn literal(c: Context, pos: int) -> Result<Seq<char>, Seq<char>> {
    if 0 <= pos < c.tokens.len() && c.tokens[pos].tok is Str {
        Ok(c.tokens[pos].tok->Str_0)
    } else {
        Err("expected a string literal near line "@ + c.line(pos))
    }
}

/// `("name", value)` from `pos` on.
#[verifier::opaque]
pub open spec fn set_call(c: Context, state: State, pos: int) -> Step {
    if !c.punct(pos, Punct::LParen) {
        fail(c.missing(pos, Punct::LParen), state)
    } else {
        match literal(c, pos + 1) {
            Err(e) => fail(e, state),
            Ok(name) => if !c.punct(pos + 2, Punct::Comma) {
                fail(c.missing(pos + 2, Punct::Comma), state)
            } else {
                match expression(c, pos + 3) {
                    Err(e) => fail(e, state),
                    Ok((v, p)) => if c.punct(p, Punct::RParen) {
                        go(
                            p + 1,
                            OutcomeView {
                                globals: state.out.globals.push((name, v.shown())),
                                ..state.out
                            },
                        )
                    } else {
                        fail(c.missing(p, Punct::RParen), state)
                    },
                }
            },
        }
    }
}

/// `(value)` from `pos` on.
#[verifier::opaque]
pub open spec fn log_call(c: Context, state: State, pos: int) -> Step {
    if !c.punct(pos, Punct::LParen) {
        fail(c.missing(pos, Punct::LParen), state)
    } else {
        match expression(c, pos + 1) {
            Err(e) => fail(e, state),
            Ok((v, p)) => if c.punct(p, Punct::RParen) {
                go(
                    p + 1,
                    OutcomeView { logs: state.out.logs.push(v.shown()), ..state.out },
                )
            } else {
                fail(c.missing(p, Punct::RParen), state)
            },
        }
    }
}

/// The name of a test and the position of the first token of its body:
/// `("name", function () {` or `("name", () => {` from `pos` on.
#[verifier::opaque]
pub open spec fn test_head(c: Context, pos: int) -> Result<(Seq<char>, int), Seq<char>> {
    if !c.punct(pos, Punct::LParen) {
        Err(c.missing(pos, Punct::LParen))
    } else {
        match literal(c, pos + 1) {
            Err(e) => Err(e),
            Ok(name) => if !c.punct(pos + 2, Punct::Comma) {
                Err(c.missing(pos + 2, Punct::Comma))
            } else {
                let body = if c.word(pos + 3, "function"@) {
                    delimiters(
                        c,
                        pos + 4,
                        seq![Punct::LParen, Punct::RParen, Punct::LBrace],
                    )
                } else {
                    delimiters(
                        c,
                        pos + 3,
                        seq![Punct::LParen, Punct::RParen, Punct::Arrow, Punct::LBrace],
                    )
                };
                match body {
                    Err(e) => Err(e),
                    Ok(p) => Ok((name, p)),
                }
            },
        }
    }
}

/// The statements of a test body from the state on, up to the closing brace.
/// A failing statement becomes a failed assertion of the test and ends it.
#[verifier::opaque]
pub open spec fn test_body(c: Context, state: State, name: Seq<char>) -> State
    decreases c.left(state.pos), 5nat,
{
    if !(0 <= state.pos < c.tokens.len()) || c.punct(state.pos, Punct::RBrace) {
        state
    } else {
        let step = statement(c, state, Some(name));
        match step.error {
            Some(e) => State {
                pos: closing_brace(c, step.state.pos),
                out: with_assertion(
                    step.state.out,
                    AssertionView { test: Some(name), passed: false, message: e },
                ),
            },
            None => if c.forward(state.pos, step.state.pos) {
                test_body(c, step.state, name)
            } else {
                state
            },
        }
    }
}

/// A whole test from `pos` on. A test without any assertion counts as one that
/// passed.
#[verifier::opaque]
pub open spec fn test_call(c: Context, state: State, pos: int) -> Step
    decreases c.left(pos), 2nat,
{
    match test_head(c, pos) {
        Err(e) => fail(e, state),
        Ok((name, p)) => if !c.forward(pos, p) {
            fail(seq![], state)
        } else {
            let after = test_body(c, State { pos: p, out: state.out }, name);
            if !c.punct(after.pos, Punct::RBrace) {
                fail(c.missing(after.pos, Punct::RBrace), after)
            } else if !c.punct(after.pos + 1, Punct::RParen) {
                fail(
                    c.missing(after.pos + 1, Punct::RParen),
                    State { pos: after.pos + 1, ..after },
                )
            } else if after.out.assertions.len() == state.out.assertions.len() {
                go(
                    after.pos + 2,
                    with_assertion(
                        after.out,
                        AssertionView {
                            test: Some(name),
                            passed: true,
                            message: "(no assertions)"@,
                        },
                    ),
                )
            } else {
                go(after.pos + 2, after.out)
            }
        },
    }
}

/// One `client.*` call from `pos` on, within the given test.
#[verifier::opaque]
pub open spec fn client_call(c: Context, state: State, pos: int, test: Option<Seq<char>>) -> Step
    decreases c.left(pos), 3nat,
{
    if !c.word(pos, "client"@) {
        fail(c.unsupported(pos, "statement does not start with 'client.'"@), state)
    } else if !c.punct(pos + 1, Punct::Dot) {
        fail(c.missing(pos + 1, Punct::Dot), state)
    } else if c.word(pos + 2, "test"@) {
        test_call(c, state, pos + 3)
    } else if c.word(pos + 2, "assert"@) {
        assert_call(c, state, pos + 3, test)
    } else if c.word(pos + 2, "global"@) {
        if !c.punct(pos + 3, Punct::Dot) {
            fail(c.missing(pos + 3, Punct::Dot), state)
        } else if !c.word(pos + 4, "set"@) {
            fail(c.unsupported(pos + 4, "only client.global.set(...) is supported"@), state)
        } else {
            set_call(c, state, pos + 5)
        }
    } else if c.word(pos + 2, "log"@) {
        log_call(c, state, pos + 3)
    } else {
        fail(c.unsupported(pos + 2, "unknown client method"@), state)
    }
}

/// One statement, with the semicolons around it.
#[verifier::opaque]
pub open spec fn statement(c: Context, state: State, test: Option<Seq<char>>) -> Step
    decreases c.left(state.pos), 4nat,
{
    let pos = skip_semicolons(c, state.pos);
    if pos >= c.tokens.len() {
        go(pos, state.out)
    } else if state.pos < 0 || pos < state.pos {
        fail(seq![], state)
    } else {
        let step = client_call(c, state, pos, test);
        match step.error {
            Some(_) => step,
            None => go(skip_semicolons(c, step.state.pos), step.state.out),
        }
    }
}

/// The statements of a script from the state on.
pub open spec fn statements(c: Context, state: State) -> Result<OutcomeView, Seq<char>>
    decreases c.left(state.pos),
{
    if !(0 <= state.pos < c.tokens.len()) {
        Ok(state.out)
    } else {
        let step = statement(c, state, None);
        match step.error {
            Some(e) => Err(e),
            None => if c.forward(state.pos, step.state.pos) {
                statements(c, step.state)
            } else {
                Err(seq![])
            },
        }
    }
}

/// What a script does on a response.
pub open spec fn executed(source: Seq<char>, response: ResponseView) -> Result<
    OutcomeView,
    Seq<char>,
> {
    match lexer::tokens_of(source) {
        Err(e) => Err(e),
        Ok(tokens) => statements(
            Context { source, tokens, response },
            State { pos: 0, out: no_outcome() },
        ),
    }
}

// ---------------------------------------------------------- operators ----

/// What the result of an operation stands for.
spec fn op_result(r: Result<Value, String>) -> Result<ValueView, Seq<char>> {
    match r {
        Ok(v) => Ok(v@),
        Err(e) => Err(e@),
    }
}

fn rank_numbers(a: Number, b: Number) -> (r: Option<Rank>)
    ensures
        r == number_rank(a, b),
{
    if number::is_below(a, b) {
        Some(Rank::Below)
    } else if number::is_below(b, a) {
        Some(Rank::Above)
    } else if number::is_equal(a, b) {
        Some(Rank::Same)
    } else {
        None
    }
}

fn rank_texts(a: &str, b: &str) -> (r: Rank)
    ensures
        r == text_rank(a@, b@),
{
    let a: Vec<char> = text::chars(a);
    let b: Vec<char> = text::chars(b);
    if text::same_chars(a.as_slice(), b.as_slice()) {
        Rank::Same
    } else if text::is_before(a.as_slice(), b.as_slice()) {
        Rank::Below
    } else {
        Rank::Above
    }
}

fn read_number(s: &str) -> (r: Option<Number>)
    ensures
        r == number::read(s@),
{
    let s: Vec<char> = text::chars(s);
    number::parse(s.as_slice())
}

fn rank_values(a: &Value, b: &Value) -> (r: Option<Rank>)
    ensures
        r == value_rank(a@, b@),
{
    match (a, b) {
        (Value::Number(x), Value::Number(y)) => rank_numbers(*x, *y),
        (Value::String(x), Value::String(y)) => Some(rank_texts(x.as_str(), y.as_str())),
        (Value::Number(x), Value::String(y)) => match read_number(y.as_str()) {
            Some(n) => rank_numbers(*x, n),
            None => None,
        },
        (Value::String(x), Value::Number(y)) => match read_number(x.as_str()) {
            Some(n) => rank_numbers(n, *y),
            None => None,
        },
        _ => None,
    }
}

fn numeric(v: &Value) -> (r: Value)
    ensures
        r@ == unboolean(v@),
{
    match v {
        Value::Bool(b) => Value::Number(
            number::from_u64(
                if *b {
                    1
                } else {
                    0
                },
            ),
        ),
        _ => v.clone(),
    }
}

fn holds_number(s: &str, n: Number) -> (r: bool)
    ensures
        r == (number::read(s@) is Some && number::equal(number::read(s@)->0, n)),
{
    match read_number(s) {
        Some(p) => number::is_equal(p, n),
        None => false,
    }
}

fn strict_eq(a: &Value, b: &Value) -> (r: bool)
    ensures
        r == json::alike(a@, b@),
{
    a.same(b)
}

fn loose_eq(a: &Value, b: &Value) -> (r: bool)
    ensures
        r == loosely_equal(a@, b@),
{
    if strict_eq(a, b) {
        return true;
    }
    let x: Value = numeric(a);
    let y: Value = numeric(b);
    if strict_eq(&x, &y) {
        return true;
    }
    match (&x, &y) {
        (Value::Number(n), Value::String(s)) => holds_number(s.as_str(), *n),
        (Value::String(s), Value::Number(n)) => holds_number(s.as_str(), *n),
        _ => false,
    }
}

/// What the result of a comparison stands for.
spec fn bool_result(r: Result<bool, String>) -> Result<bool, Seq<char>> {
    match r {
        Ok(b) => Ok(b),
        Err(e) => Err(e@),
    }
}

fn compare(left: &Value, op: Punct, right: &Value) -> (r: Result<bool, String>)
    ensures
        bool_result(r) == compared(left@, op, right@),
{
    proof {
        reveal(compared);
    }
    match op {
        Punct::StrictEq => Ok(strict_eq(left, right)),
        Punct::StrictNe => Ok(!strict_eq(left, right)),
        Punct::LooseEq => Ok(loose_eq(left, right)),
        Punct::LooseNe => Ok(!loose_eq(left, right)),
        _ => match rank_values(left, right) {
            None => {
                let message: String = text::concat3(
                    "cannot order ",
                    left.kind_name(),
                    " against ",
                );
                Err(text::concat2(message.as_str(), right.kind_name()))
            },
            Some(rank) => {
                let below: bool = matches!(rank, Rank::Below);
                let above: bool = matches!(rank, Rank::Above);
                Ok(
                    match op {
                        Punct::Gt => above,
                        Punct::Ge => !below,
                        Punct::Lt => below,
                        _ => !above,
                    },
                )
            },
        },
    }
}

fn add_values(a: &Value, b: &Value) -> (r: Result<Value, String>)
    ensures
        op_result(r) == added(a@, b@),
{
    proof {
        reveal(added);
    }
    match (a, b) {
        (Value::Number(x), Value::Number(y)) => {
            return Ok(Value::Number(number::plus(*x, *y)));
        },
        _ => {},
    }
    if matches!(a, Value::String(_)) || matches!(b, Value::String(_)) {
        let left: String = a.to_text();
        let right: String = b.to_text();
        return Ok(Value::String(text::concat2(left.as_str(), right.as_str())));
    }
    let message: String = text::concat3("cannot add ", a.kind_name(), " and ");
    Err(text::concat2(message.as_str(), b.kind_name()))
}

fn or_null(v: Option<&Value>) -> (r: Value)
    ensures
        r@ == (match json::opt_shape(v) {
            Some(w) => w,
            None => ValueView::Null,
        }),
{
    match v {
        Some(w) => w.clone(),
        None => Value::Null,
    }
}

fn index_value(v: &Value, key: &Value) -> (r: Result<Value, String>)
    ensures
        op_result(r) == indexed(v@, key@),
{
    proof {
        reveal(indexed);
    }
    match key {
        Value::Number(n) => Ok(or_null(v.index(n.to_index()))),
        Value::String(s) => Ok(or_null(v.get(s.as_str()))),
        _ => Err(text::concat3("cannot index with a ", key.kind_name(), " value")),
    }
}

/// Intermediate operand.
enum Operand {
    Value(Value),
    Response,
    Headers,
    ContentType,
}

impl View for Operand {
    type V = OperandView;

    closed spec fn view(&self) -> OperandView {
        match self {
            Operand::Value(v) => OperandView::Value(v@),
            Operand::Response => OperandView::Response,
            Operand::Headers => OperandView::Headers,
            Operand::ContentType => OperandView::ContentType,
        }
    }
}

/// The value of a body with the given text.
pub fn read_body(response: &HttpResponse, body: String) -> (r: Value)
    ensures
        r@ == body_of(response@, body@),
{
    let (mime, _charset): (String, String) = response.content_type();
    let mime: Vec<char> = text::chars(mime.as_str());
    let chars: Vec<char> = text::chars(body.as_str());
    let start: &[char] = text::trim_start(chars.as_slice());
    if text::has(mime.as_slice(), "json") || (start.len() > 0 && (start[0] == '{' || start[0]
        == '[')) {
        if let Ok(v) = json::parse(body.as_str()) {
            return v;
        }
    }
    Value::String(body)
}

/// What the result of a member access stands for.
spec fn operand_result(r: Result<Operand, String>) -> Result<OperandView, Seq<char>> {
    match r {
        Ok(o) => Ok(o@),
        Err(e) => Err(e@),
    }
}

/// Resolve `operand.name` member access.
fn member(response: &HttpResponse, operand: &Operand, name: &str) -> (r: Result<Operand, String>)
    ensures
        operand_result(r) == member_of(response@, operand@, name@),
{
    proof {
        reveal(member_of);
    }
    match operand {
        Operand::Response => {
            if text::same_str(name, "status") {
                let n: Number = number::from_u64(response.status as u64);
                return Ok(Operand::Value(Value::Number(n)));
            }
            if text::same_str(name, "body") {
                let body: String = response.body_text();
                return Ok(Operand::Value(read_body(response, body)));
            }
            if text::same_str(name, "headers") {
                return Ok(Operand::Headers);
            }
            if text::same_str(name, "contentType") {
                return Ok(Operand::ContentType);
            }
            Err(text::concat3("response has no property '", name, "'"))
        },
        Operand::ContentType => {
            let (mime, charset): (String, String) = response.content_type();
            if text::same_str(name, "mimeType") {
                return Ok(Operand::Value(Value::String(mime)));
            }
            if text::same_str(name, "charset") {
                return Ok(Operand::Value(Value::String(charset)));
            }
            Err(text::concat3("contentType has no property '", name, "'"))
        },
        Operand::Headers => Err(
            text::concat3(
                "headers has no property '",
                name,
                "' (use headers.valueOf(\"Name\"))",
            ),
        ),
        Operand::Value(v) => {
            match v {
                Value::Object(_) => {
                    return Ok(Operand::Value(or_null(v.get(name))));
                },
                Value::Null => {
                    return Err(
                        text::concat3(
                            "cannot read property '",
                            name,
                            "' of null (a parent key was missing)",
                        ),
                    );
                },
                Value::String(s) => {
                    if text::same_str(name, "length") {
                        let n: usize = text::chars(s.as_str()).len();
                        return Ok(Operand::Value(Value::Number(number::from_u64(n as u64))));
                    }
                },
                Value::Array(items) => {
                    if text::same_str(name, "length") {
                        let n: usize = items.len();
                        return Ok(Operand::Value(Value::Number(number::from_u64(n as u64))));
                    }
                },
                _ => {},
            }
            Err(
                text::concat5(
                    "cannot read property '",
                    name,
                    "' of a ",
                    v.kind_name(),
                    " value",
                ),
            )
        },
    }
}

/// Convert response-object operands to values when used as plain values.
fn materialize(response: &HttpResponse, operand: &Operand) -> (r: Result<Value, String>)
    ensures
        op_result(r) == materialized(response@, operand@),
{
    match operand {
        Operand::Value(v) => Ok(v.clone()),
        Operand::Response => Err(
            text::owned(
                "'response' cannot be used as a value; access a property like response.status",
            ),
        ),
        Operand::Headers => Err(
            text::owned("'response.headers' cannot be used as a value; call valueOf(\"Name\")"),
        ),
        Operand::ContentType => {
            let (mime, _charset): (String, String) = response.content_type();
            Ok(Value::String(mime))
        },
    }
}

fn first_string(args: &Vec<Value>) -> (r: Option<&str>)
    ensures
        text::opt_str(r) == string_arg(json::shapes(args@)),
{
    if args.len() > 0 {
        args[0].as_str()
    } else {
        None
    }
}

fn values_of(headers: &Vec<(String, String)>, name: &str) -> (r: Vec<Value>)
    ensures
        json::shapes(r@) == header_values(text::pairs(headers@), name@, 0),
{
    let mut out: Vec<Value> = Vec::new();
    let mut i: usize = 0;
    let ghost all = text::pairs(headers@);
    assert(json::shapes(out@) + header_values(all, name@, 0) =~= header_values(all, name@, 0));
    while i < headers.len()
        invariant
            i <= headers.len(),
            all == text::pairs(headers@),
            json::shapes(out@) + header_values(all, name@, i as int) == header_values(
                all,
                name@,
                0,
            ),
        decreases headers.len() - i,
    {
        if text::eq_ignore_ascii_case(headers[i].0.as_str(), name) {
            let ghost before = json::shapes(out@);
            let v: Value = Value::String(text::owned(headers[i].1.as_str()));
            out.push(v);
            assert(json::shapes(out@) =~= before.push(v@));
            assert(before + (seq![v@] + header_values(all, name@, i + 1)) =~= before.push(v@)
                + header_values(all, name@, i + 1));
        }
        i += 1;
    }
    assert(json::shapes(out@) + header_values(all, name@, i as int) =~= json::shapes(out@));
    out
}

fn contains_value(items: &Vec<Value>, v: &Value) -> (r: bool)
    ensures
        r == includes(json::shapes(items@), v@),
{
    let ghost all = json::shapes(items@);
    let mut i: usize = 0;
    while i < items.len()
        invariant
            i <= items.len(),
            all == json::shapes(items@),
            forall|k: int| 0 <= k < i ==> !json::alike(#[trigger] all[k], v@),
        decreases items.len() - i,
    {
        assert(all[i as int] == items@[i as int]@);
        if items[i].same(v) {
            return true;
        }
        i += 1;
    }
    false
}

fn call_header_method(response: &HttpResponse, name: &str, args: &Vec<Value>) -> (r: Result<
    Value,
    String,
>)
    ensures
        op_result(r) == header_method(response@, name@, json::shapes(args@)),
{
    let arg: &str = match first_string(args) {
        Some(arg) => arg,
        None => {
            return Err(text::concat3("headers.", name, "() needs a header-name string"));
        },
    };
    if text::same_str(name, "valueOf") {
        return Ok(
            match response.header(arg) {
                Some(v) => Value::String(text::owned(v)),
                None => Value::Null,
            },
        );
    }
    if text::same_str(name, "valuesOf") {
        return Ok(Value::Array(values_of(&response.headers, arg)));
    }
    Err(text::concat3("headers has no method '", name, "'"))
}

fn call_string_method(s: &str, name: &str, args: &Vec<Value>) -> (r: Result<Value, String>)
    ensures
        op_result(r) == string_method(s@, name@, json::shapes(args@)),
{
    let chars: Vec<char> = text::chars(s);
    if text::same_str(name, "includes") {
        return match first_string(args) {
            Some(p) => Ok(Value::Bool(text::has(chars.as_slice(), p))),
            None => Err(text::owned("includes() needs a string argument")),
        };
    }
    if text::same_str(name, "startsWith") {
        return match first_string(args) {
            Some(p) => Ok(Value::Bool(text::starts_with(chars.as_slice(), p))),
            None => Err(text::owned("startsWith() needs a string argument")),
        };
    }
    if text::same_str(name, "endsWith") {
        return match first_string(args) {
            Some(p) => Ok(Value::Bool(text::ends_with(chars.as_slice(), p))),
            None => Err(text::owned("endsWith() needs a string argument")),
        };
    }
    if text::same_str(name, "toLowerCase") {
        return Ok(Value::String(text::to_lowercase(s)));
    }
    if text::same_str(name, "trim") {
        return Ok(Value::String(text::string(text::trim(chars.as_slice()))));
    }
    Err(text::concat3("string value has no method '", name, "'"))
}

/// The result of `operand.name(args)`.
fn call_method(
    response: &HttpResponse,
    operand: &Operand,
    name: &str,
    args: &Vec<Value>,
) -> (r: Result<Value, String>)
    ensures
        op_result(r) == method_result(response@, operand@, name@, json::shapes(args@)),
{
    proof {
        reveal(method_result);
    }
    if let Operand::Headers = operand {
        return call_header_method(response, name, args);
    }
    let value: Value = match materialize(response, operand) {
        Ok(v) => v,
        Err(e) => {
            return Err(e);
        },
    };
    match &value {
        Value::String(s) => {
            return call_string_method(s.as_str(), name, args);
        },
        Value::Array(items) => {
            if text::same_str(name, "includes") {
                if args.len() == 0 {
                    return Err(text::owned("includes() needs an argument"));
                }
                assert(json::shapes(args@)[0] == args@[0]@);
                return Ok(Value::Bool(contains_value(items, &args[0])));
            }
        },
        _ => {},
    }
    let message: String = text::concat3(value.kind_name(), " value has no method '", name);
    Err(text::concat2(message.as_str(), "'"))
}

// -------------------------------------------------------- interpreter ----

struct Interp<'a> {
    tokens: Vec<Token>,
    src: &'a [char],
    response: &'a HttpResponse,
}

/// What the result of evaluating an expression stands for.
spec fn value_result(r: Result<(Value, usize), String>) -> Result<(ValueView, int), Seq<char>> {
    match r {
        Ok((v, p)) => Ok((v@, p as int)),
        Err(e) => Err(e@),
    }
}

/// What the result of evaluating an operand stands for.
spec fn primary_result(r: Result<(Operand, usize), String>) -> Result<
    (OperandView, int),
    Seq<char>,
> {
    match r {
        Ok((v, p)) => Ok((v@, p as int)),
        Err(e) => Err(e@),
    }
}

/// What the result of evaluating arguments stands for.
spec fn args_result(r: Result<(Vec<Value>, usize), String>) -> Result<
    (Seq<ValueView>, int),
    Seq<char>,
> {
    match r {
        Ok((v, p)) => Ok((json::shapes(v@), p as int)),
        Err(e) => Err(e@),
    }
}

impl<'a> Interp<'a> {
    spec fn context(&self) -> Context {
        Context {
            source: self.src@,
            tokens: lexer::views(self.tokens@),
            response: self.response@,
        }
    }

    spec fn well_formed(&self) -> bool {
        &&& self.tokens@.len() > 0
        &&& lexer::ordered(lexer::views(self.tokens@), self.src@.len() as int)
    }

    fn is_punct(&self, pos: usize, p: Punct) -> (r: bool)
        ensures
            r == self.context().punct(pos as int, p),
            r ==> pos < self.tokens@.len(),
            self.tokens@.len() <= usize::MAX,
    {
        if pos >= self.tokens.len() {
            return false;
        }
        assert(lexer::views(self.tokens@)[pos as int] == self.tokens@[pos as int]@);
        match &self.tokens[pos].tok {
            Tok::Punct(q) => *q == p,
            _ => false,
        }
    }

    fn is_word(&self, pos: usize, name: &str) -> (r: bool)
        ensures
            r == self.context().word(pos as int, name@),
            r ==> pos < self.tokens@.len(),
            self.tokens@.len() <= usize::MAX,
    {
        if pos >= self.tokens.len() {
            return false;
        }
        assert(lexer::views(self.tokens@)[pos as int] == self.tokens@[pos as int]@);
        match &self.tokens[pos].tok {
            Tok::Ident(id) => text::same_str(id.as_str(), name),
            _ => false,
        }
    }

    /// The source position of the token at `pos`, or of the last token.
    fn place(&self, pos: usize) -> (r: usize)
        requires
            self.well_formed(),
        ensures
            r == self.context().place(pos as int),
            r < self.src@.len(),
    {
        let n: usize = self.tokens.len();
        let i: usize = if pos < n {
            pos
        } else {
            n - 1
        };
        assert(lexer::views(self.tokens@)[i as int] == self.tokens@[i as int]@);
        self.tokens[i].start
    }

    fn line(&self, pos: usize) -> (r: String)
        requires
            self.well_formed(),
        ensures
            r@ == self.context().line(pos as int),
    {
        let end: usize = self.place(pos);
        let count: usize = self.src.len();
        let ghost all = self.src@;
        let mut n: usize = 0;
        let mut i: usize = 0;
        assert(all.take(0) =~= Seq::<char>::empty());
        while i < end
            invariant
                all == self.src@,
                count == all.len(),
                end < count,
                i <= end,
                n <= i,
                n == line_feeds(all.take(i as int)),
            decreases end - i,
        {
            assert(all.take(i + 1).drop_last() =~= all.take(i as int));
            if self.src[i] == '\n' {
                n += 1;
            }
            i += 1;
        }
        text::decimal_string(n as u64 + 1)
    }

    fn unsupported(&self, pos: usize, what: &str) -> (r: String)
        requires
            self.well_formed(),
        ensures
            r@ == self.context().unsupported(pos as int, what@),
    {
        let line: String = self.line(pos);
        text::concat5(
            "unsupported handler statement near line ",
            line.as_str(),
            ": ",
            what,
            " (supported: client.test/assert/global.set/log)",
        )
    }

    fn missing(&self, pos: usize, p: Punct) -> (r: String)
        requires
            self.well_formed(),
        ensures
            r@ == self.context().missing(pos as int, p),
    {
        let line: String = self.line(pos);
        let message: String = text::concat3("expected '", p.text(), "' near line ");
        text::concat2(message.as_str(), line.as_str())
    }

    fn near(&self, pos: usize, e: String) -> (r: String)
        requires
            self.well_formed(),
        ensures
            r@ == self.context().near(pos as int, e@),
    {
        let line: String = self.line(pos);
        text::concat3(e.as_str(), " near line ", line.as_str())
    }

    /// expr := and ('||' and)*
    fn expression(&self, pos: usize) -> (r: Result<(Value, usize), String>)
        requires
            self.well_formed(),
            pos <= self.tokens@.len(),
        ensures
            value_result(r) == expression(self.context(), pos as int),
            r matches Ok((_, p)) ==> pos < p <= self.tokens@.len(),
        decreases self.tokens@.len() - pos, 7nat,
    {
        proof {
            reveal(expression);
            reveal(expression_rest);
            reveal(conjunction);
        }
        let ghost c = self.context();
        let (mut left, mut p): (Value, usize) = match self.and_expr(pos) {
            Ok(v) => v,
            Err(e) => {
                return Err(e);
            },
        };
        while self.is_punct(p, Punct::Or)
            invariant
                self.well_formed(),
                c == self.context(),
                pos < p <= self.tokens@.len(),
                expression(c, pos as int) == expression_rest(c, p as int, left@),
            decreases self.tokens@.len() - p,
        {
            proof {
                reveal(expression);
                reveal(expression_rest);
                reveal(conjunction);
            }
            match self.and_expr(p + 1) {
                Ok((right, q)) => {
                    // JS returns the operand, not a boolean; truthiness is preserved.
                    if !left.truthy() {
                        left = right;
                    }
                    p = q;
                },
                Err(e) => {
                    return Err(e);
                },
            }
        }
        proof {
            reveal(expression);
            reveal(expression_rest);
            reveal(conjunction);
        }
        Ok((left, p))
    }

    fn and_expr(&self, pos: usize) -> (r: Result<(Value, usize), String>)
        requires
            self.well_formed(),
            pos <= self.tokens@.len(),
        ensures
            value_result(r) == conjunction(self.context(), pos as int),
            r matches Ok((_, p)) ==> pos < p <= self.tokens@.len(),
        decreases self.tokens@.len() - pos, 6nat,
    {
        proof {
            reveal(conjunction);
            reveal(conjunction_rest);
            reveal(comparison);
        }
        let ghost c = self.context();
        let (mut left, mut p): (Value, usize) = match self.comparison(pos) {
            Ok(v) => v,
            Err(e) => {
                return Err(e);
            },
        };
        while self.is_punct(p, Punct::And)
            invariant
                self.well_formed(),
                c == self.context(),
                pos < p <= self.tokens@.len(),
                conjunction(c, pos as int) == conjunction_rest(c, p as int, left@),
            decreases self.tokens@.len() - p,
        {
            proof {
                reveal(conjunction);
                reveal(conjunction_rest);
                reveal(comparison);
            }
            match self.comparison(p + 1) {
                Ok((right, q)) => {
                    if left.truthy() {
                        left = right;
                    }
                    p = q;
                },
                Err(e) => {
                    return Err(e);
                },
            }
        }
        proof {
            reveal(conjunction);
            reveal(conjunction_rest);
            reveal(comparison);
        }
        Ok((left, p))
    }

    /// The comparison operator at `pos`.
    fn comparison_operator(&self, pos: usize) -> (r: Option<Punct>)
        ensures
            r == self.context().operator(pos as int),
            r is Some ==> pos < self.tokens@.len() <= usize::MAX,
    {
        if pos >= self.tokens.len() {
            return None;
        }
        assert(lexer::views(self.tokens@)[pos as int] == self.tokens@[pos as int]@);
        match &self.tokens[pos].tok {
            Tok::Punct(p) => match *p {
                Punct::StrictEq | Punct::StrictNe | Punct::LooseEq | Punct::LooseNe => Some(*p),
                Punct::Gt | Punct::Ge | Punct::Lt | Punct::Le => Some(*p),
                _ => None,
            },
            _ => None,
        }
    }

    fn comparison(&self, pos: usize) -> (r: Result<(Value, usize), String>)
        requires
            self.well_formed(),
            pos <= self.tokens@.len(),
        ensures
            value_result(r) == comparison(self.context(), pos as int),
            r matches Ok((_, p)) ==> pos < p <= self.tokens@.len(),
        decreases self.tokens@.len() - pos, 5nat,
    {
        proof {
            reveal(comparison);
            reveal(additive);
        }
        let (left, p): (Value, usize) = match self.additive(pos) {
            Ok(v) => v,
            Err(e) => {
                return Err(e);
            },
        };
        let op: Punct = match self.comparison_operator(p) {
            Some(op) => op,
            None => {
                return Ok((left, p));
            },
        };
        match self.additive(p + 1) {
            Ok((right, q)) => match compare(&left, op, &right) {
                Ok(b) => Ok((Value::Bool(b), q)),
                Err(e) => Err(self.near(p, e)),
            },
            Err(e) => Err(e),
        }
    }

    /// additive := unary ('+' unary)* — JS semantics: number + number adds,
    /// a string on either side concatenates. Common in log/assert messages.
    fn additive(&self, pos: usize) -> (r: Result<(Value, usize), String>)
        requires
            self.well_formed(),
            pos <= self.tokens@.len(),
        ensures
            value_result(r) == additive(self.context(), pos as int),
            r matches Ok((_, p)) ==> pos < p <= self.tokens@.len(),
        decreases self.tokens@.len() - pos, 4nat,
    {
        proof {
            reveal(additive);
            reveal(additive_rest);
            reveal(unary);
        }
        let ghost c = self.context();
        let (mut left, mut p): (Value, usize) = match self.unary(pos) {
            Ok(v) => v,
            Err(e) => {
                return Err(e);
            },
        };
        while self.is_punct(p, Punct::Plus)
            invariant
                self.well_formed(),
                c == self.context(),
                pos < p <= self.tokens@.len(),
                additive(c, pos as int) == additive_rest(c, p as int, left@),
            decreases self.tokens@.len() - p,
        {
            proof {
                reveal(additive);
                reveal(additive_rest);
                reveal(unary);
            }
            match self.unary(p + 1) {
                Ok((right, q)) => {
                    match add_values(&left, &right) {
                        Ok(v) => {
                            left = v;
                        },
                        Err(e) => {
                            return Err(self.near(p, e));
                        },
                    }
                    p = q;
                },
                Err(e) => {
                    return Err(e);
                },
            }
        }
        proof {
            reveal(additive);
            reveal(additive_rest);
            reveal(unary);
        }
        Ok((left, p))
    }

    fn unary(&self, pos: usize) -> (r: Result<(Value, usize), String>)
        requires
            self.well_formed(),
            pos <= self.tokens@.len(),
        ensures
            value_result(r) == unary(self.context(), pos as int),
            r matches Ok((_, p)) ==> pos < p <= self.tokens@.len(),
        decreases self.tokens@.len() - pos, 3nat,
    {
        proof {
            reveal(unary);
            reveal(postfix);
        }
        assert(self.tokens.len() == self.tokens@.len());
        if self.is_punct(pos, Punct::Not) {
            return match self.unary(pos + 1) {
                Ok((v, p)) => Ok((Value::Bool(!v.truthy()), p)),
                Err(e) => Err(e),
            };
        }
        self.postfix(pos)
    }

    fn arguments(&self, pos: usize) -> (r: Result<(Vec<Value>, usize), String>)
        requires
            self.well_formed(),
            pos < self.tokens@.len(),
        ensures
            args_result(r) == argument_list(self.context(), pos as int),
            r matches Ok((_, p)) ==> pos < p <= self.tokens@.len(),
        decreases self.tokens@.len() - pos, 0nat,
    {
        proof {
            reveal(argument_list);
            reveal(arguments);
            reveal(expression);
        }
        assert(self.tokens.len() == self.tokens@.len());
        let ghost c = self.context();
        let mut args: Vec<Value> = Vec::new();
        assert(json::shapes(args@) =~= Seq::<ValueView>::empty());
        if self.is_punct(pos + 1, Punct::RParen) {
            return Ok((args, pos + 2));
        }
        let mut p: usize = pos + 1;
        loop
            invariant
                self.well_formed(),
                c == self.context(),
                pos < p <= self.tokens@.len(),
                arguments(c, pos + 1, seq![]) == arguments(c, p as int, json::shapes(args@)),
                argument_list(c, pos as int) == (match arguments(c, pos + 1, seq![]) {
                    Err(e) => Err(e),
                    Ok((args, p)) => if c.punct(p, Punct::RParen) {
                        Ok((args, p + 1))
                    } else {
                        Err(c.missing(p, Punct::RParen))
                    },
                }),
            decreases self.tokens@.len() - p,
        {
            proof {
                reveal(argument_list);
                reveal(arguments);
                reveal(expression);
            }
            let ghost before = json::shapes(args@);
            match self.expression(p) {
                Ok((v, q)) => {
                    args.push(v);
                    assert(json::shapes(args@) =~= before.push(v@));
                    if self.is_punct(q, Punct::Comma) {
                        p = q + 1;
                        continue;
                    }
                    if !self.is_punct(q, Punct::RParen) {
                        return Err(self.missing(q, Punct::RParen));
                    }
                    return Ok((args, q + 1));
                },
                Err(e) => {
                    return Err(e);
                },
            }
        }
    }

    /// The word at `pos`.
    fn word(&self, pos: usize) -> (r: Option<&String>)
        ensures
            match r {
                Some(name) => pos < self.tokens@.len() && self.context().tokens[pos as int].tok
                    == TokView::Ident(name@),
                None => !(pos < self.tokens@.len() && self.context().tokens[pos as int].tok is Ident),
            },
    {
        if pos >= self.tokens.len() {
            return None;
        }
        assert(lexer::views(self.tokens@)[pos as int] == self.tokens@[pos as int]@);
        match &self.tokens[pos].tok {
            Tok::Ident(name) => Some(name),
            _ => None,
        }
    }

    fn postfix(&self, pos: usize) -> (r: Result<(Value, usize), String>)
        requires
            self.well_formed(),
            pos <= self.tokens@.len(),
        ensures
            value_result(r) == postfix(self.context(), pos as int),
            r matches Ok((_, p)) ==> pos < p <= self.tokens@.len(),
        decreases self.tokens@.len() - pos, 2nat,
    {
        proof {
            reveal(postfix);
            reveal(postfix_rest);
            reveal(primary);
            reveal(argument_list);
            reveal(expression);
        }
        let ghost c = self.context();
        let (mut operand, mut p): (Operand, usize) = match self.primary(pos) {
            Ok(v) => v,
            Err(e) => {
                return Err(e);
            },
        };
        loop
            invariant
                self.well_formed(),
                c == self.context(),
                pos < p <= self.tokens@.len(),
                postfix(c, pos as int) == postfix_rest(c, p as int, operand@),
            decreases self.tokens@.len() - p,
        {
            proof {
                reveal(postfix);
                reveal(postfix_rest);
                reveal(primary);
                reveal(argument_list);
                reveal(expression);
            }
            assert(self.tokens.len() == self.tokens@.len());
            if self.is_punct(p, Punct::Dot) {
                let name: &String = match self.word(p + 1) {
                    Some(name) => name,
                    None => {
                        let line: String = self.line(p + 1);
                        return Err(
                            text::concat2(
                                "expected a property name near line ",
                                line.as_str(),
                            ),
                        );
                    },
                };
                if self.is_punct(p + 2, Punct::LParen) {
                    let (args, q): (Vec<Value>, usize) = match self.arguments(p + 2) {
                        Ok(v) => v,
                        Err(e) => {
                            return Err(e);
                        },
                    };
                    match call_method(self.response, &operand, name.as_str(), &args) {
                        Ok(v) => {
                            operand = Operand::Value(v);
                        },
                        Err(e) => {
                            return Err(self.near(p + 1, e));
                        },
                    }
                    p = q;
                } else {
                    match member(self.response, &operand, name.as_str()) {
                        Ok(o) => {
                            operand = o;
                        },
                        Err(e) => {
                            return match &operand {
                                Operand::Value(Value::Null) => Err(e),
                                _ => Err(self.near(p + 1, e)),
                            };
                        },
                    }
                    p = p + 2;
                }
            } else if self.is_punct(p, Punct::LBracket) {
                let (key, q): (Value, usize) = match self.expression(p + 1) {
                    Ok(v) => v,
                    Err(e) => {
                        return Err(e);
                    },
                };
                if !self.is_punct(q, Punct::RBracket) {
                    return Err(self.missing(q, Punct::RBracket));
                }
                let value: Value = match materialize(self.response, &operand) {
                    Ok(v) => v,
                    Err(e) => {
                        return Err(self.near(p, e));
                    },
                };
                match index_value(&value, &key) {
                    Ok(v) => {
                        operand = Operand::Value(v);
                    },
                    Err(e) => {
                        return Err(self.near(p, e));
                    },
                }
                p = q + 1;
            } else {
                return match materialize(self.response, &operand) {
                    Ok(v) => Ok((v, p)),
                    Err(e) => Err(self.near(p - 1, e)),
                };
            }
        }
    }

    fn expected_expression(&self, pos: usize) -> (r: String)
        requires
            self.well_formed(),
        ensures
            r@ == "expected an expression near line "@ + self.context().line(pos as int),
    {
        let line: String = self.line(pos);
        text::concat2("expected an expression near line ", line.as_str())
    }

    fn primary(&self, pos: usize) -> (r: Result<(Operand, usize), String>)
        requires
            self.well_formed(),
            pos <= self.tokens@.len(),
        ensures
            primary_result(r) == primary(self.context(), pos as int),
            r matches Ok((_, p)) ==> pos < p <= self.tokens@.len(),
        decreases self.tokens@.len() - pos, 1nat,
    {
        proof {
            reveal(primary);
            reveal(expression);
        }
        if pos >= self.tokens.len() {
            return Err(self.expected_expression(pos));
        }
        assert(lexer::views(self.tokens@)[pos as int] == self.tokens@[pos as int]@);
        match &self.tokens[pos].tok {
            Tok::Str(s) => Ok((Operand::Value(Value::String(text::owned(s.as_str()))), pos + 1)),
            Tok::Num(n) => Ok((Operand::Value(Value::Number(*n)), pos + 1)),
            Tok::Ident(id) => {
                let name: &str = id.as_str();
                if text::same_str(name, "response") {
                    return Ok((Operand::Response, pos + 1));
                }
                if text::same_str(name, "true") {
                    return Ok((Operand::Value(Value::Bool(true)), pos + 1));
                }
                if text::same_str(name, "false") {
                    return Ok((Operand::Value(Value::Bool(false)), pos + 1));
                }
                if text::same_str(name, "null") || text::same_str(name, "undefined") {
                    return Ok((Operand::Value(Value::Null), pos + 1));
                }
                let line: String = self.line(pos + 1);
                Err(
                    text::concat5(
                        "unknown identifier '",
                        name,
                        "' near line ",
                        line.as_str(),
                        " (only 'response' and literals are available)",
                    ),
                )
            },
            Tok::Punct(p) => {
                if *p != Punct::LParen {
                    return Err(self.expected_expression(pos));
                }
                match self.expression(pos + 1) {
                    Ok((v, q)) => {
                        if !self.is_punct(q, Punct::RParen) {
                            return Err(self.missing(q, Punct::RParen));
                        }
                        Ok((Operand::Value(v), q + 1))
                    },
                    Err(e) => Err(e),
                }
            },
        }
    }
}

/// A step as the interpreter reports it: the failure and the new position.
spec fn step_of(r: (Option<String>, usize), out: Outcome) -> Step {
    Step { error: text::opt_text(r.0), state: State { pos: r.1 as int, out: out@ } }
}

impl<'a> Interp<'a> {
    fn skip_semis(&self, pos: usize) -> (r: usize)
        requires
            pos <= self.tokens@.len(),
        ensures
            r == skip_semicolons(self.context(), pos as int),
            pos <= r <= self.tokens@.len(),
    {
        let ghost c = self.context();
        let mut p: usize = pos;
        while self.is_punct(p, Punct::Semicolon)
            invariant
                c == self.context(),
                pos <= p <= self.tokens@.len(),
                skip_semicolons(c, pos as int) == skip_semicolons(c, p as int),
            decreases self.tokens@.len() - p,
        {
            p += 1;
        }
        p
    }

    fn find_brace(&self, pos: usize) -> (r: usize)
        requires
            pos <= self.tokens@.len(),
        ensures
            r == closing_brace(self.context(), pos as int),
            pos <= r <= self.tokens@.len(),
    {
        let ghost c = self.context();
        let mut p: usize = pos;
        while p < self.tokens.len() && !self.is_punct(p, Punct::RBrace)
            invariant
                c == self.context(),
                pos <= p <= self.tokens@.len(),
                closing_brace(c, pos as int) == closing_brace(c, p as int),
            decreases self.tokens@.len() - p,
        {
            p += 1;
        }
        p
    }

    fn expect_string(&self, pos: usize) -> (r: Result<String, String>)
        requires
            self.well_formed(),
        ensures
            match r {
                Ok(t) => literal(self.context(), pos as int) == Ok::<_, Seq<char>>(t@) && pos
                    < self.tokens@.len(),
                Err(e) => literal(self.context(), pos as int) == Err::<Seq<char>, _>(e@),
            },
    {
        if pos < self.tokens.len() {
            assert(lexer::views(self.tokens@)[pos as int] == self.tokens@[pos as int]@);
            if let Tok::Str(t) = &self.tokens[pos].tok {
                return Ok(text::owned(t.as_str()));
            }
        }
        let line: String = self.line(pos);
        Err(text::concat2("expected a string literal near line ", line.as_str()))
    }

    /// The source text of the tokens from `first` up to, but not with, `last`.
    fn source_of(&self, first: usize, last: usize) -> (r: String)
        requires
            self.well_formed(),
            first < last <= self.tokens@.len(),
        ensures
            r@ == text::trimmed(
                self.src@.subrange(
                    self.context().place(first as int),
                    self.context().tokens[last - 1].end,
                ),
            ),
    {
        let ghost views = lexer::views(self.tokens@);
        assert(views[first as int] == self.tokens@[first as int]@);
        assert(views[last - 1] == self.tokens@[last - 1]@);
        let start: usize = self.tokens[first].start;
        let end: usize = self.tokens[last - 1].end;
        text::string(text::trim(slice_subrange(self.src, start, end)))
    }

    fn client_assert(
        &self,
        start: usize,
        pos: usize,
        out: &mut Outcome,
        test: &Option<String>,
    ) -> (r: (Option<String>, usize))
        requires
            self.well_formed(),
            start < pos <= self.tokens@.len(),
        ensures
            step_of(r, *final(out)) == assert_call(
                self.context(),
                State { pos: start as int, out: old(out)@ },
                pos as int,
                text::opt_text(*test),
            ),
            r.1 <= self.tokens@.len(),
            r.0 is None ==> pos < r.1,
            r.0 is Some ==> r.1 == start,
    {
        proof {
            reveal(assert_call);
        }
        if !self.is_punct(pos, Punct::LParen) {
            return (Some(self.missing(pos, Punct::LParen)), start);
        }
        let (condition, p): (Value, usize) = match self.expression(pos + 1) {
            Ok(v) => v,
            Err(e) => {
                return (Some(e), start);
            },
        };
        let source: String = self.source_of(pos + 1, p);
        let mut message: Option<String> = None;
        let mut q: usize = p;
        if self.is_punct(p, Punct::Comma) {
            match self.expression(p + 1) {
                Ok((m, next)) => {
                    message = Some(m.to_text());
                    q = next;
                },
                Err(e) => {
                    return (Some(e), start);
                },
            }
        }
        if !self.is_punct(q, Punct::RParen) {
            return (Some(self.missing(q, Punct::RParen)), start);
        }
        let passed: bool = condition.truthy();
        let message: String = match message {
            Some(m) => if passed {
                m
            } else {
                text::concat4(m.as_str(), " (assert: ", source.as_str(), ")")
            },
            None => if passed {
                source
            } else {
                text::concat2("assert failed: ", source.as_str())
            },
        };
        let assertion: Assertion = Assertion { test: copy_option(test), passed, message };
        push_assertion(out, assertion);
        (None, q + 1)
    }

    fn client_global_set(&self, start: usize, pos: usize, out: &mut Outcome) -> (r: (
        Option<String>,
        usize,
    ))
        requires
            self.well_formed(),
            start < pos <= self.tokens@.len(),
        ensures
            step_of(r, *final(out)) == set_call(
                self.context(),
                State { pos: start as int, out: old(out)@ },
                pos as int,
            ),
            r.1 <= self.tokens@.len(),
            r.0 is None ==> pos < r.1,
            r.0 is Some ==> r.1 == start,
    {
        proof {
            reveal(set_call);
        }
        if !self.is_punct(pos, Punct::LParen) {
            return (Some(self.missing(pos, Punct::LParen)), start);
        }
        let name: String = match self.expect_string(pos + 1) {
            Ok(name) => name,
            Err(e) => {
                return (Some(e), start);
            },
        };
        if !self.is_punct(pos + 2, Punct::Comma) {
            return (Some(self.missing(pos + 2, Punct::Comma)), start);
        }
        match self.expression(pos + 3) {
            Ok((v, p)) => {
                if !self.is_punct(p, Punct::RParen) {
                    return (Some(self.missing(p, Punct::RParen)), start);
                }
                let ghost before = out@;
                let value: String = v.to_text();
                out.globals.push((name, value));
                assert(text::pairs(out.globals@) =~= before.globals.push((name@, value@)));
                (None, p + 1)
            },
            Err(e) => (Some(e), start),
        }
    }

    fn client_log(&self, start: usize, pos: usize, out: &mut Outcome) -> (r: (
        Option<String>,
        usize,
    ))
        requires
            self.well_formed(),
            start < pos <= self.tokens@.len(),
        ensures
            step_of(r, *final(out)) == log_call(
                self.context(),
                State { pos: start as int, out: old(out)@ },
                pos as int,
            ),
            r.1 <= self.tokens@.len(),
            r.0 is None ==> pos < r.1,
            r.0 is Some ==> r.1 == start,
    {
        proof {
            reveal(log_call);
        }
        if !self.is_punct(pos, Punct::LParen) {
            return (Some(self.missing(pos, Punct::LParen)), start);
        }
        match self.expression(pos + 1) {
            Ok((v, p)) => {
                if !self.is_punct(p, Punct::RParen) {
                    return (Some(self.missing(p, Punct::RParen)), start);
                }
                let ghost before = out@;
                let value: String = v.to_text();
                out.logs.push(value);
                assert(text::texts(out.logs@) =~= before.logs.push(value@));
                (None, p + 1)
            },
            Err(e) => (Some(e), start),
        }
    }

    /// Read the head of a test, up to the opening brace of its body: its name,
    /// and the position after it.
    fn read_test_head(&self, pos: usize) -> (r: Result<(String, usize), String>)
        requires
            self.well_formed(),
            pos <= self.tokens@.len(),
        ensures
            match r {
                Ok((name, p)) => pos < p <= self.tokens@.len() && test_head(
                    self.context(),
                    pos as int,
                ) == Ok::<_, Seq<char>>((name@, p as int)),
                Err(e) => test_head(self.context(), pos as int) == Err::<(Seq<char>, int), _>(e@),
            },
    {
        proof {
            reveal(test_head);
            reveal_with_fuel(delimiters, 5);
        }
        if !self.is_punct(pos, Punct::LParen) {
            return Err(self.missing(pos, Punct::LParen));
        }
        let name: String = match self.expect_string(pos + 1) {
            Ok(name) => name,
            Err(e) => {
                return Err(e);
            },
        };
        if !self.is_punct(pos + 2, Punct::Comma) {
            return Err(self.missing(pos + 2, Punct::Comma));
        }
        let arrow: bool = !self.is_word(pos + 3, "function");
        let p: usize = if arrow {
            pos + 3
        } else {
            pos + 4
        };
        proof {
            let plain = seq![Punct::LParen, Punct::RParen, Punct::LBrace];
            let lambda = seq![Punct::LParen, Punct::RParen, Punct::Arrow, Punct::LBrace];
            assert(plain.drop_first() =~= seq![Punct::RParen, Punct::LBrace]);
            assert(plain.drop_first().drop_first() =~= seq![Punct::LBrace]);
            assert(plain.drop_first().drop_first().drop_first() =~= Seq::<Punct>::empty());
            assert(lambda.drop_first() =~= seq![Punct::RParen, Punct::Arrow, Punct::LBrace]);
            assert(lambda.drop_first().drop_first() =~= seq![Punct::Arrow, Punct::LBrace]);
            assert(lambda.drop_first().drop_first().drop_first() =~= seq![Punct::LBrace]);
            assert(lambda.drop_first().drop_first().drop_first().drop_first() =~= Seq::<
                Punct,
            >::empty());
        }
        if !self.is_punct(p, Punct::LParen) {
            return Err(self.missing(p, Punct::LParen));
        }
        if !self.is_punct(p + 1, Punct::RParen) {
            return Err(self.missing(p + 1, Punct::RParen));
        }
        let q: usize = if arrow {
            if !self.is_punct(p + 2, Punct::Arrow) {
                return Err(self.missing(p + 2, Punct::Arrow));
            }
            p + 3
        } else {
            p + 2
        };
        if !self.is_punct(q, Punct::LBrace) {
            return Err(self.missing(q, Punct::LBrace));
        }
        Ok((name, q + 1))
    }

    /// Statements until the closing brace. A runtime error inside a test
    /// is recorded as that test failing, mirroring the editors.
    fn run_test_body(&self, pos: usize, out: &mut Outcome, name: &String) -> (r: usize)
        requires
            self.well_formed(),
            pos <= self.tokens@.len(),
        ensures
            (State { pos: r as int, out: final(out)@ }) == test_body(
                self.context(),
                State { pos: pos as int, out: old(out)@ },
                name@,
            ),
            pos <= r <= self.tokens@.len(),
        decreases self.tokens@.len() - pos, 5nat,
    {
        let ghost c = self.context();
        let ghost start = State { pos: pos as int, out: out@ };
        let test: Option<String> = Some(text::owned(name.as_str()));
        let mut p: usize = pos;
        while p < self.tokens.len() && !self.is_punct(p, Punct::RBrace)
            invariant
                self.well_formed(),
                c == self.context(),
                pos <= p <= self.tokens@.len(),
                text::opt_text(test) == Some(name@),
                start == (State { pos: pos as int, out: old(out)@ }),
                test_body(c, start, name@) == test_body(
                    c,
                    State { pos: p as int, out: out@ },
                    name@,
                ),
            decreases self.tokens@.len() - p,
        {
            proof {
                reveal(test_body);
                reveal(statement);
            }
            let (error, q): (Option<String>, usize) = self.statement(p, out, &test);
            match error {
                Some(message) => {
                    let assertion: Assertion = Assertion {
                        test: copy_option(&test),
                        passed: false,
                        message,
                    };
                    push_assertion(out, assertion);
                    // Recover: skip to the closing brace of this test body.
                    return self.find_brace(q);
                },
                None => {},
            }
            p = q;
        }
        proof {
            reveal(test_body);
        }
        p
    }

    fn client_test(&self, start: usize, pos: usize, out: &mut Outcome) -> (r: (
        Option<String>,
        usize,
    ))
        requires
            self.well_formed(),
            start < pos <= self.tokens@.len(),
        ensures
            step_of(r, *final(out)) == test_call(
                self.context(),
                State { pos: start as int, out: old(out)@ },
                pos as int,
            ),
            start <= r.1 <= self.tokens@.len(),
            r.0 is None ==> pos < r.1,
        decreases self.tokens@.len() - pos, 2nat,
    {
        proof {
            reveal(test_call);
            reveal(test_body);
        }
        let (name, p): (String, usize) = match self.read_test_head(pos) {
            Ok(v) => v,
            Err(e) => {
                return (Some(e), start);
            },
        };
        let before: usize = out.assertions.len();
        let q: usize = self.run_test_body(p, out, &name);
        if !self.is_punct(q, Punct::RBrace) {
            return (Some(self.missing(q, Punct::RBrace)), q);
        }
        if !self.is_punct(q + 1, Punct::RParen) {
            return (Some(self.missing(q + 1, Punct::RParen)), q + 1);
        }
        // An empty test body counts as a passing (vacuous) test so it still
        // shows up in output rather than disappearing.
        if out.assertions.len() == before {
            let assertion: Assertion = Assertion {
                test: Some(name),
                passed: true,
                message: text::owned("(no assertions)"),
            };
            push_assertion(out, assertion);
        }
        (None, q + 2)
    }

    fn client_statement(
        &self,
        start: usize,
        pos: usize,
        out: &mut Outcome,
        test: &Option<String>,
    ) -> (r: (Option<String>, usize))
        requires
            self.well_formed(),
            start <= pos < self.tokens@.len(),
        ensures
            step_of(r, *final(out)) == client_call(
                self.context(),
                State { pos: start as int, out: old(out)@ },
                pos as int,
                text::opt_text(*test),
            ),
            start <= r.1 <= self.tokens@.len(),
            r.0 is None ==> pos < r.1,
        decreases self.tokens@.len() - pos, 3nat,
    {
        proof {
            reveal(client_call);
            reveal(test_call);
        }
        if !self.is_word(pos, "client") {
            return (
                Some(self.unsupported(pos, "statement does not start with 'client.'")),
                start,
            );
        }
        if !self.is_punct(pos + 1, Punct::Dot) {
            return (Some(self.missing(pos + 1, Punct::Dot)), start);
        }
        if self.is_word(pos + 2, "test") {
            return self.client_test(start, pos + 3, out);
        }
        if self.is_word(pos + 2, "assert") {
            return self.client_assert(start, pos + 3, out, test);
        }
        if self.is_word(pos + 2, "global") {
            if !self.is_punct(pos + 3, Punct::Dot) {
                return (Some(self.missing(pos + 3, Punct::Dot)), start);
            }
            if !self.is_word(pos + 4, "set") {
                return (
                    Some(self.unsupported(pos + 4, "only client.global.set(...) is supported")),
                    start,
                );
            }
            return self.client_global_set(start, pos + 5, out);
        }
        if self.is_word(pos + 2, "log") {
            return self.client_log(start, pos + 3, out);
        }
        (Some(self.unsupported(pos + 2, "unknown client method")), start)
    }

    /// One `client.*` statement; the semicolons around it are tolerated.
    fn statement(&self, pos: usize, out: &mut Outcome, test: &Option<String>) -> (r: (
        Option<String>,
        usize,
    ))
        requires
            self.well_formed(),
            pos < self.tokens@.len(),
        ensures
            step_of(r, *final(out)) == statement(
                self.context(),
                State { pos: pos as int, out: old(out)@ },
                text::opt_text(*test),
            ),
            pos <= r.1 <= self.tokens@.len(),
            r.0 is None ==> pos < r.1,
        decreases self.tokens@.len() - pos, 4nat,
    {
        proof {
            reveal(statement);
            reveal(client_call);
        }
        let p: usize = self.skip_semis(pos);
        if p >= self.tokens.len() {
            return (None, p);
        }
        let (error, q): (Option<String>, usize) = self.client_statement(pos, p, out, test);
        if error.is_some() {
            return (error, q);
        }
        (None, self.skip_semis(q))
    }
}

fn push_assertion(out: &mut Outcome, assertion: Assertion)
    ensures
        final(out)@ == with_assertion(old(out)@, assertion@),
{
    let ghost before = out@;
    out.assertions.push(assertion);
    assert(assertion_views(out.assertions@) =~= before.assertions.push(assertion@));
}

/// What the result of running a script holds.
pub open spec fn run_result(r: Result<Outcome, String>) -> Result<OutcomeView, Seq<char>> {
    match r {
        Ok(out) => Ok(out@),
        Err(e) => Err(e@),
    }
}

/// Run `script` against `response`. `Err` means the script itself could not
/// be parsed/executed (reported as a request error, not an assertion failure).
pub fn run(script: &str, response: &HttpResponse) -> (r: Result<Outcome, String>)
    ensures
        run_result(r) == executed(script@, response@),
{
    let chars: Vec<char> = text::chars(script);
    let tokens: Vec<Token> = match lexer::tokenize(chars.as_slice()) {
        Ok(tokens) => tokens,
        Err(e) => {
            return Err(e);
        },
    };
    let mut out: Outcome = Outcome::default();
    if tokens.len() == 0 {
        return Ok(out);
    }
    let interp: Interp = Interp { tokens, src: chars.as_slice(), response };
    let ghost c = interp.context();
    let none: Option<String> = None;
    let mut pos: usize = 0;
    while pos < interp.tokens.len()
        invariant
            interp.well_formed(),
            c == interp.context(),
            text::opt_text(none) is None,
            pos <= interp.tokens@.len(),
            executed(script@, response@) == statements(c, State { pos: pos as int, out: out@ }),
        decreases interp.tokens@.len() - pos,
    {
        let (error, p): (Option<String>, usize) = interp.statement(pos, &mut out, &none);
        match error {
            Some(e) => {
                return Err(e);
            },
            None => {},
        }
        pos = p;
    }
    Ok(out)
}

// --------------------------------------------------------------- laws ----

/// No failure is counted exactly when every assertion passed.
pub proof fn law_no_failures_means_all_passed(assertions: Seq<AssertionView>)
    ensures
        failures(assertions) == 0 <==> forall|i: int|
            0 <= i < assertions.len() ==> (#[trigger] assertions[i]).passed,
        failures(assertions) <= assertions.len(),
    decreases assertions.len(),
{
    if assertions.len() > 0 {
        let rest = assertions.drop_last();
        law_no_failures_means_all_passed(rest);
        assert(assertions.last() == assertions[assertions.len() - 1]);
        assert(forall|i: int| 0 <= i < rest.len() ==> rest[i] == assertions[i]);
        if forall|i: int| 0 <= i < assertions.len() ==> (#[trigger] assertions[i]).passed {
            assert forall|i: int| 0 <= i < rest.len() implies (#[trigger] rest[i]).passed by {
                assert(rest[i] == assertions[i]);
            }
        }
        if failures(assertions) == 0 {
            assert forall|i: int| 0 <= i < assertions.len() implies (
            #[trigger] assertions[i]).passed by {
                if i < rest.len() {
                    assert(rest[i].passed);
                }
            }
        }
    }
}

/// A statement that is not a `client` call fails as unsupported; it is never
/// passed over.
pub proof fn law_foreign_statement_fails(c: Context, state: State, test: Option<Seq<char>>)
    requires
        0 <= state.pos <= skip_semicolons(c, state.pos) < c.tokens.len(),
        !c.word(skip_semicolons(c, state.pos), "client"@),
    ensures
        statement(c, state, test) == fail(
            c.unsupported(
                skip_semicolons(c, state.pos),
                "statement does not start with 'client.'"@,
            ),
            state,
        ),
{
    reveal(statement);
    reveal(client_call);
}

/// A script fails as a whole when one of its statements outside a test fails.
pub proof fn law_failed_statement_fails_the_script(c: Context, state: State)
    requires
        0 <= state.pos < c.tokens.len(),
        statement(c, state, None).error is Some,
    ensures
        statements(c, state) is Err,
{
}

/// Within a test, a failing statement becomes a failed assertion of that test.
pub proof fn law_failed_statement_fails_its_test(c: Context, state: State, name: Seq<char>)
    requires
        0 <= state.pos < c.tokens.len(),
        !c.punct(state.pos, Punct::RBrace),
        statement(c, state, Some(name)).error is Some,
    ensures
        ({
            let after = test_body(c, state, name).out.assertions;
            after.len() > 0 && !after.last().passed && after.last().test == Some(name)
                && failures(after) > 0
        }),
{
    reveal(test_body);
    reveal(statement);
}

/// The assertions of `a` are the first ones of `b`.
pub open spec fn extends(a: Seq<AssertionView>, b: Seq<AssertionView>) -> bool {
    a.len() <= b.len() && b.take(a.len() as int) == a
}

proof fn lemma_extends_push(a: Seq<AssertionView>, b: Seq<AssertionView>, x: AssertionView)
    requires
        extends(a, b),
    ensures
        extends(a, b.push(x)),
{
    assert(b.push(x).take(a.len() as int) =~= b.take(a.len() as int));
}

proof fn lemma_extends_trans(
    a: Seq<AssertionView>,
    b: Seq<AssertionView>,
    d: Seq<AssertionView>,
)
    requires
        extends(a, b),
        extends(b, d),
    ensures
        extends(a, d),
{
    assert(d.take(b.len() as int).take(a.len() as int) =~= d.take(a.len() as int));
}

proof fn lemma_test_extends(c: Context, state: State, pos: int)
    ensures
        extends(state.out.assertions, test_call(c, state, pos).state.out.assertions),
    decreases c.left(pos), 2nat,
{
    reveal(test_call);
    reveal(test_body);
    let a = state.out.assertions;
    assert(a.take(a.len() as int) =~= a);
    if let Ok((name, p)) = test_head(c, pos) {
        if c.forward(pos, p) {
            let inner = State { pos: p, out: state.out };
            lemma_body_extends(c, inner, name);
            let after = test_body(c, inner, name);
            lemma_extends_push(
                a,
                after.out.assertions,
                AssertionView { test: Some(name), passed: true, message: "(no assertions)"@ },
            );
        }
    }
}

proof fn lemma_call_extends(c: Context, state: State, pos: int, test: Option<Seq<char>>)
    ensures
        extends(state.out.assertions, client_call(c, state, pos, test).state.out.assertions),
    decreases c.left(pos), 3nat,
{
    reveal(client_call);
    reveal(test_call);
    reveal(assert_call);
    reveal(set_call);
    reveal(log_call);
    let a = state.out.assertions;
    assert(a.take(a.len() as int) =~= a);
    if c.word(pos, "client"@) && c.punct(pos + 1, Punct::Dot) {
        if c.word(pos + 2, "test"@) {
            lemma_test_extends(c, state, pos + 3);
        } else if c.word(pos + 2, "assert"@) {
            let step = assert_call(c, state, pos + 3, test);
            if step.error is None {
                lemma_extends_push(a, a, step.state.out.assertions.last());
                assert(step.state.out.assertions =~= a.push(step.state.out.assertions.last()));
            }
        }
    }
}

proof fn lemma_statement_extends(c: Context, state: State, test: Option<Seq<char>>)
    ensures
        extends(state.out.assertions, statement(c, state, test).state.out.assertions),
    decreases c.left(state.pos), 4nat,
{
    reveal(statement);
    reveal(client_call);
    let a = state.out.assertions;
    assert(a.take(a.len() as int) =~= a);
    let pos = skip_semicolons(c, state.pos);
    if pos < c.tokens.len() && 0 <= state.pos && state.pos <= pos {
        lemma_call_extends(c, state, pos, test);
    }
}

proof fn lemma_body_extends(c: Context, state: State, name: Seq<char>)
    ensures
        extends(state.out.assertions, test_body(c, state, name).out.assertions),
    decreases c.left(state.pos), 5nat,
{
    reveal(test_body);
    reveal(statement);
    let a = state.out.assertions;
    assert(a.take(a.len() as int) =~= a);
    if 0 <= state.pos < c.tokens.len() && !c.punct(state.pos, Punct::RBrace) {
        lemma_statement_extends(c, state, Some(name));
        let step = statement(c, state, Some(name));
        match step.error {
            Some(e) => {
                lemma_extends_push(
                    a,
                    step.state.out.assertions,
                    AssertionView { test: Some(name), passed: false, message: e },
                );
            },
            None => {
                if c.forward(state.pos, step.state.pos) {
                    lemma_body_extends(c, step.state, name);
                    lemma_extends_trans(
                        a,
                        step.state.out.assertions,
                        test_body(c, step.state, name).out.assertions,
                    );
                }
            },
        }
    }
}

/// A statement takes back no assertion made before it.
pub proof fn law_assertions_are_kept(c: Context, state: State, test: Option<Seq<char>>)
    ensures
        extends(state.out.assertions, statement(c, state, test).state.out.assertions),
{
    lemma_statement_extends(c, state, test);
}

/// Every completed test shows up: it adds at least one assertion.
pub proof fn law_every_test_shows_up(c: Context, state: State, pos: int)
    requires
        test_call(c, state, pos).error is None,
    ensures
        test_call(c, state, pos).state.out.assertions.len() > state.out.assertions.len(),
{
    reveal(test_call);
    reveal(test_body);
    if let Ok((name, p)) = test_head(c, pos) {
        lemma_body_extends(c, State { pos: p, out: state.out }, name);
    }
}

} // verus!
