//! What the operators and methods of handler scripts do to values.

use crate::http::ResponseView;
use crate::json;
use crate::json::ValueView;
use crate::lexer::Punct;
use crate::number;
use crate::number::Number;
use crate::script;
use crate::script::OperandView;
use crate::text;
use crate::text_laws;
use vstd::prelude::*;

verus! {

// ----------------------------------------------------------- equality ----

proof fn lemma_equal_plain(x: Number, y: Number)
    requires
        x.finite(),
        y.finite(),
        x.bits != 0x8000_0000_0000_0000,
        y.bits != 0x8000_0000_0000_0000,
    ensures
        number::equal(x, y) <==> x == y,
{
    number::law_numbers_are_ordered(x, y);
    assert(number::numeric(x) && number::numeric(y));
}

proof fn lemma_alike_plain(a: ValueView, b: ValueView)
    requires
        json::writable(a),
        json::writable(b),
    ensures
        json::alike(a, b) <==> a == b,
    decreases a,
{
    match (a, b) {
        (ValueView::Number(x), ValueView::Number(y)) => lemma_equal_plain(x, y),
        (ValueView::Array(x), ValueView::Array(y)) => {
            assert forall|i: int| 0 <= i < x.len() && i < y.len() implies (json::alike(
                #[trigger] x[i],
                y[i],
            ) <==> x[i] == y[i]) by {
                assert(json::writable(a->Array_0[i]) && json::writable(b->Array_0[i]));
                lemma_alike_plain(x[i], y[i]);
            }
            if json::alike(a, b) {
                assert forall|i: int| 0 <= i < x.len() implies x[i] == y[i] by {
                    assert(json::alike(a->Array_0[i], b->Array_0[i]));
                }
                assert(x =~= y);
            }
        },
        (ValueView::Object(x), ValueView::Object(y)) => {
            assert forall|i: int| 0 <= i < x.len() && i < y.len() implies (json::alike(
                (#[trigger] x[i]).1,
                y[i].1,
            ) <==> x[i].1 == y[i].1) by {
                assert(json::writable(a->Object_0[i].1) && json::writable(b->Object_0[i].1));
                assert(decreases_to!(a => x));
                assert(decreases_to!(x => x[i]));
                assert(decreases_to!(x[i] => x[i].1));
                lemma_alike_plain(x[i].1, y[i].1);
            }
            if json::alike(a, b) {
                assert forall|i: int| 0 <= i < x.len() implies x[i] == y[i] by {
                    assert(a->Object_0[i].0 == b->Object_0[i].0);
                }
                assert(x =~= y);
            }
        },
        _ => {},
    }
}

/// `===` holds exactly between a value and itself, where numbers are finite
/// and zero has no sign; `!==` is its opposite for all values.
pub proof fn law_strict_equality(a: ValueView, b: ValueView)
    ensures
        script::compared(a, Punct::StrictEq, b) matches Ok(same) && script::compared(
            a,
            Punct::StrictNe,
            b,
        ) == Ok::<bool, Seq<char>>(!same),
        json::writable(a) && json::writable(b) ==> script::compared(a, Punct::StrictEq, b) == Ok::<
            bool,
            Seq<char>,
        >(a == b),
{
    reveal(script::compared);
    if json::writable(a) && json::writable(b) {
        lemma_alike_plain(a, b);
    }
}

/// Between any numbers `===` goes by their order, so that the two zeros are
/// the same and what is no number is not even the same as itself.
pub proof fn law_equal_numbers(x: Number, y: Number)
    ensures
        script::compared(ValueView::Number(x), Punct::StrictEq, ValueView::Number(y)) == Ok::<
            bool,
            Seq<char>,
        >(number::numeric(x) && number::numeric(y) && number::standing(x) == number::standing(y)),
{
    reveal(script::compared);
    number::law_numbers_are_ordered(x, y);
}

/// `!=` is the opposite of `==`, and what is strictly equal is loosely equal.
/// Beyond that a boolean counts as a number, and a text may hold the number;
/// nothing else is loosely equal.
pub proof fn law_loose_equality(a: ValueView, b: ValueView, n: Number, s: Seq<char>)
    ensures
        script::compared(a, Punct::LooseEq, b) matches Ok(same) && script::compared(
            a,
            Punct::LooseNe,
            b,
        ) == Ok::<bool, Seq<char>>(!same),
        script::compared(a, Punct::StrictEq, b) == Ok::<bool, Seq<char>>(true)
            ==> script::compared(a, Punct::LooseEq, b) == Ok::<bool, Seq<char>>(true),
        script::compared(ValueView::Bool(true), Punct::LooseEq, ValueView::Number(n))
            == script::compared(
            ValueView::Number(number::of_integer(1)),
            Punct::StrictEq,
            ValueView::Number(n),
        ),
        script::compared(ValueView::Bool(false), Punct::LooseEq, ValueView::Number(n))
            == script::compared(
            ValueView::Number(number::of_integer(0)),
            Punct::StrictEq,
            ValueView::Number(n),
        ),
        script::compared(ValueView::String(s), Punct::LooseEq, ValueView::Number(n)) == Ok::<
            bool,
            Seq<char>,
        >(number::read(s) matches Some(m) && number::equal(m, n)),
        script::compared(ValueView::Number(n), Punct::LooseEq, ValueView::String(s))
            == script::compared(ValueView::String(s), Punct::LooseEq, ValueView::Number(n)),
        (a is Null || a is Array || a is Object) ==> script::compared(a, Punct::LooseEq, b)
            == script::compared(a, Punct::StrictEq, b),
        a is String && b is String ==> script::compared(a, Punct::LooseEq, b) == script::compared(
            a,
            Punct::StrictEq,
            b,
        ),
        a is Number && b is Number ==> script::compared(a, Punct::LooseEq, b) == script::compared(
            a,
            Punct::StrictEq,
            b,
        ),
{
    reveal(script::compared);
}

// -------------------------------------------------------------- order ----

/// Numbers compare by their order; the comparison with what is no number fails.
pub proof fn law_number_order(x: Number, y: Number)
    ensures
        ({
            let (a, b) = (ValueView::Number(x), ValueView::Number(y));
            let (i, j) = (number::standing(x), number::standing(y));
            if number::numeric(x) && number::numeric(y) {
                &&& script::compared(a, Punct::Lt, b) == Ok::<bool, Seq<char>>(i < j)
                &&& script::compared(a, Punct::Le, b) == Ok::<bool, Seq<char>>(i <= j)
                &&& script::compared(a, Punct::Gt, b) == Ok::<bool, Seq<char>>(i > j)
                &&& script::compared(a, Punct::Ge, b) == Ok::<bool, Seq<char>>(i >= j)
            } else {
                &&& script::compared(a, Punct::Lt, b) is Err
                &&& script::compared(a, Punct::Le, b) is Err
                &&& script::compared(a, Punct::Gt, b) is Err
                &&& script::compared(a, Punct::Ge, b) is Err
            }
        }),
{
    reveal(script::compared);
    number::law_numbers_are_ordered(x, y);
    number::law_numbers_are_ordered(y, x);
}

/// Whole numbers compare as integers do.
pub proof fn law_integer_order(m: nat, n: nat)
    requires
        m < 0x20_0000_0000_0000,
        n < 0x20_0000_0000_0000,
    ensures
        ({
            let a = ValueView::Number(number::of_integer(m));
            let b = ValueView::Number(number::of_integer(n));
            &&& script::compared(a, Punct::Lt, b) == Ok::<bool, Seq<char>>(m < n)
            &&& script::compared(a, Punct::Le, b) == Ok::<bool, Seq<char>>(m <= n)
            &&& script::compared(a, Punct::Gt, b) == Ok::<bool, Seq<char>>(m > n)
            &&& script::compared(a, Punct::Ge, b) == Ok::<bool, Seq<char>>(m >= n)
            &&& script::compared(a, Punct::StrictEq, b) == Ok::<bool, Seq<char>>(m == n)
            &&& script::compared(a, Punct::StrictNe, b) == Ok::<bool, Seq<char>>(m != n)
        }),
{
    number::law_integers_are_exact(m, n);
    number::law_integers_are_exact(n, m);
    let (x, y) = (number::of_integer(m), number::of_integer(n));
    law_number_order(x, y);
    law_equal_numbers(x, y);
    law_strict_equality(ValueView::Number(x), ValueView::Number(y));
}

/// Texts compare by the first character in which they differ, and a text comes
/// after its own beginnings.
pub proof fn law_text_comparison(x: Seq<char>, y: Seq<char>, k: int)
    requires
        0 <= k <= x.len(),
        k <= y.len(),
        x.take(k) == y.take(k),
        k < x.len() && k < y.len() ==> x[k] != y[k],
    ensures
        ({
            let (a, b) = (ValueView::String(x), ValueView::String(y));
            let less = k < y.len() && (k == x.len() || x[k] < y[k]);
            let same = k == x.len() && k == y.len();
            &&& script::compared(a, Punct::Lt, b) == Ok::<bool, Seq<char>>(less)
            &&& script::compared(a, Punct::Le, b) == Ok::<bool, Seq<char>>(less || same)
            &&& script::compared(a, Punct::Gt, b) == Ok::<bool, Seq<char>>(!less && !same)
            &&& script::compared(a, Punct::Ge, b) == Ok::<bool, Seq<char>>(!less)
        }),
{
    reveal(script::compared);
    text_laws::law_text_order(x, y, k);
    if k == x.len() && k == y.len() {
        assert(x =~= x.take(k) && y =~= y.take(k));
    } else if x == y {
        assert(k < x.len());
        assert(x[k] == y[k]);
    }
}

/// A text compares with a number as the number that it holds, and not at all
/// if it holds none; values of other kinds have no order.
pub proof fn law_mixed_order(x: Number, s: Seq<char>, a: ValueView, b: ValueView, op: Punct)
    requires
        op == Punct::Lt || op == Punct::Le || op == Punct::Gt || op == Punct::Ge,
    ensures
        match number::read(s) {
            Some(y) => {
                &&& script::compared(ValueView::Number(x), op, ValueView::String(s)) is Ok
                    <==> script::compared(ValueView::Number(x), op, ValueView::Number(y)) is Ok
                &&& script::compared(ValueView::Number(x), op, ValueView::Number(y)) is Ok
                    ==> script::compared(ValueView::Number(x), op, ValueView::String(s))
                    == script::compared(ValueView::Number(x), op, ValueView::Number(y))
                &&& script::compared(ValueView::Number(y), op, ValueView::Number(x)) is Ok
                    ==> script::compared(ValueView::String(s), op, ValueView::Number(x))
                    == script::compared(ValueView::Number(y), op, ValueView::Number(x))
            },
            None => {
                &&& script::compared(ValueView::Number(x), op, ValueView::String(s)) is Err
                &&& script::compared(ValueView::String(s), op, ValueView::Number(x)) is Err
            },
        },
        !(a is Number) && !(a is String) ==> script::compared(a, op, b) is Err && script::compared(
            b,
            op,
            a,
        ) is Err,
{
    reveal(script::compared);
}

// ---------------------------------------------------------- operators ----

/// `+` adds numbers, and joins texts; any value joins a text as it is shown.
pub proof fn law_addition(m: nat, n: nat, s: Seq<char>, t: Seq<char>, v: ValueView, w: ValueView)
    requires
        m + n < 0x20_0000_0000_0000,
    ensures
        script::added(
            ValueView::Number(number::of_integer(m)),
            ValueView::Number(number::of_integer(n)),
        ) == Ok::<ValueView, Seq<char>>(ValueView::Number(number::of_integer(m + n))),
        script::added(ValueView::String(s), ValueView::String(t)) == Ok::<ValueView, Seq<char>>(
            ValueView::String(s + t),
        ),
        script::added(ValueView::String(s), v) == Ok::<ValueView, Seq<char>>(
            ValueView::String(s + v.shown()),
        ),
        script::added(v, ValueView::String(s)) == Ok::<ValueView, Seq<char>>(
            ValueView::String(v.shown() + s),
        ),
        !(v is String) && !(w is String) && !(v is Number && w is Number) ==> script::added(v, w)
            is Err,
{
    reveal(script::added);
    number::law_integers_are_exact(m, n);
}

/// How a value is shown: a text as it stands, an integer in decimal notation,
/// and anything else as compact JSON, which parses back.
pub proof fn law_shown(s: Seq<char>, n: nat, b: bool, v: ValueView)
    requires
        n < 1_000_000_000_000_000,
    ensures
        ValueView::String(s).shown() == s,
        ValueView::Number(number::of_integer(n)).shown() == text::decimal(n),
        ValueView::Bool(b).shown() == if b {
            "true"@
        } else {
            "false"@
        },
        ValueView::Null.shown() == "null"@,
        !(v is String) && json::ordered(v) && json::writable(v) && json::finite(v) ==> json::parsed(
            v.shown(),
        ) == Ok::<ValueView, Seq<char>>(v),
{
    number::law_integers_in_text(n);
    if json::ordered(v) && json::finite(v) {
        json::law_serialized_parses_back(v);
    }
}

/// What counts as true: all but `false`, `null`, the empty text, zero and what
/// is no number.
pub proof fn law_truth(v: ValueView)
    ensures
        v.truth() <==> match v {
            ValueView::Null => false,
            ValueView::Bool(b) => b,
            ValueView::Number(n) => number::numeric(n) && number::standing(n) != 0,
            ValueView::String(s) => s != Seq::<char>::empty(),
            ValueView::Array(_) => true,
            ValueView::Object(_) => true,
        },
{
    if let ValueView::Number(n) = v {
        assert(number::numeric(n) == !n.nan());
    }
    if let ValueView::String(s) = v {
        if s.len() == 0 {
            assert(s =~= Seq::<char>::empty());
        }
    }
}

proof fn lemma_member(members: Seq<(Seq<char>, ValueView)>, key: Seq<char>, i: int, k: int)
    requires
        0 <= i <= k <= members.len(),
        forall|j: int| i <= j < k ==> (#[trigger] members[j]).0 != key,
        k < members.len() ==> members[k].0 == key,
    ensures
        json::member_from(members, key, i) == if k < members.len() {
            Some(members[k].1)
        } else {
            None
        },
    decreases k - i,
{
    if i < k {
        lemma_member(members, key, i + 1, k);
    }
}

/// `v[i]` and `v["key"]`: the item at the place, the member with the key, and
/// null where there is none.
pub proof fn law_indexing(
    items: Seq<ValueView>,
    members: Seq<(Seq<char>, ValueView)>,
    i: nat,
    k: int,
    key: Seq<char>,
)
    requires
        i < 0x20_0000_0000_0000,
        i < usize::MAX,
        items.len() <= usize::MAX,
        0 <= k <= members.len(),
        forall|j: int| 0 <= j < k ==> (#[trigger] members[j]).0 != key,
        k < members.len() ==> members[k].0 == key,
    ensures
        script::indexed(ValueView::Array(items), ValueView::Number(number::of_integer(i))) == Ok::<
            ValueView,
            Seq<char>,
        >(
            if i < items.len() {
                items[i as int]
            } else {
                ValueView::Null
            },
        ),
        script::indexed(ValueView::Object(members), ValueView::String(key)) == Ok::<
            ValueView,
            Seq<char>,
        >(
            if k < members.len() {
                members[k].1
            } else {
                ValueView::Null
            },
        ),
{
    reveal(script::indexed);
    number::lemma_clamped_integer(i, usize::MAX as nat);
    lemma_member(members, key, 0, k);
}

// ------------------------------------------------------------ members ----

/// `v.name` on values: the member of an object, null where there is none; the
/// length of a text or an array; and a failure on null.
pub proof fn law_members(
    response: ResponseView,
    members: Seq<(Seq<char>, ValueView)>,
    k: int,
    key: Seq<char>,
    s: Seq<char>,
    items: Seq<ValueView>,
)
    requires
        0 <= k <= members.len(),
        forall|j: int| 0 <= j < k ==> (#[trigger] members[j]).0 != key,
        k < members.len() ==> members[k].0 == key,
    ensures
        script::member_of(response, OperandView::Value(ValueView::Object(members)), key) == Ok::<
            OperandView,
            Seq<char>,
        >(
            OperandView::Value(
                if k < members.len() {
                    members[k].1
                } else {
                    ValueView::Null
                },
            ),
        ),
        script::member_of(response, OperandView::Value(ValueView::String(s)), "length"@) == Ok::<
            OperandView,
            Seq<char>,
        >(OperandView::Value(ValueView::Number(number::of_integer(s.len())))),
        script::member_of(response, OperandView::Value(ValueView::Array(items)), "length"@) == Ok::<
            OperandView,
            Seq<char>,
        >(OperandView::Value(ValueView::Number(number::of_integer(items.len())))),
        script::member_of(response, OperandView::Value(ValueView::Null), key) is Err,
{
    reveal(script::member_of);
    lemma_member(members, key, 0, k);
}

/// `response.status` is the number of the status, and `response.body` what the
/// body holds: its JSON value where it is JSON, else its text.
pub proof fn law_response_members(response: ResponseView, v: ValueView)
    ensures
        script::member_of(response, OperandView::Response, "status"@) == Ok::<
            OperandView,
            Seq<char>,
        >(OperandView::Value(ValueView::Number(number::of_integer(response.status as nat)))),
        script::member_of(response, OperandView::Response, "headers"@) == Ok::<
            OperandView,
            Seq<char>,
        >(OperandView::Headers),
        script::member_of(response, OperandView::Response, "contentType"@) == Ok::<
            OperandView,
            Seq<char>,
        >(OperandView::ContentType),
        ({
            let body = script::body_text(response);
            let b = script::member_of(response, OperandView::Response, "body"@);
            &&& json::parsed(body) == Ok::<ValueView, Seq<char>>(v) && (v is Array || v is Object)
                ==> b == Ok::<OperandView, Seq<char>>(OperandView::Value(v))
            &&& json::parsed(body) == Ok::<ValueView, Seq<char>>(v) && text::contains(
                response.content_type().0,
                "json"@,
            ) ==> b == Ok::<OperandView, Seq<char>>(OperandView::Value(v))
            &&& json::parsed(body) is Err ==> b == Ok::<OperandView, Seq<char>>(
                OperandView::Value(ValueView::String(body)),
            )
        }),
{
    reveal(script::member_of);
    reveal_strlit("status");
    reveal_strlit("body");
    reveal_strlit("headers");
    reveal_strlit("contentType");
    assert("status"@.len() != "body"@.len() && "headers"@.len() != "body"@.len());
    let body = script::body_text(response);
    if json::parsed(body) == Ok::<ValueView, Seq<char>>(v) && (v is Array || v is Object) {
        lemma_structured(body);
    }
}

/// A text that holds an array or an object begins with its bracket, after
/// white space.
proof fn lemma_structured(s: Seq<char>)
    requires
        json::parsed(s) matches Ok(v) && (v is Array || v is Object),
    ensures
        script::looks_structured(s),
{
    let k = json::skip_blank(s, 0);
    lemma_blank_is_white(s, 0);
    json::lemma_skip_blank(s, 0);
    lemma_blank_twice(s, 0);
    assert(json::at(s, k, '{') || json::at(s, k, '['));
    lemma_white_end(s, 0, k);
    assert(text::ltrim(s)[0] == s[k]);
}

proof fn lemma_blank_twice(s: Seq<char>, i: int)
    ensures
        json::skip_blank(s, json::skip_blank(s, i)) == json::skip_blank(s, i),
    decreases s.len() - i,
{
    if 0 <= i < s.len() && json::blank(s[i]) {
        lemma_blank_twice(s, i + 1);
    }
}

proof fn lemma_blank_is_white(s: Seq<char>, i: int)
    requires
        0 <= i <= s.len(),
    ensures
        forall|j: int|
            i <= j < json::skip_blank(s, i) ==> j < s.len() && text::whitespace(#[trigger] s[j]),
    decreases s.len() - i,
{
    json::lemma_skip_blank(s, i);
    if i < s.len() && json::blank(s[i]) {
        lemma_blank_is_white(s, i + 1);
        assert(text::whitespace(s[i]));
        assert forall|j: int| i <= j < json::skip_blank(s, i) implies j < s.len()
            && text::whitespace(#[trigger] s[j]) by {
            if j > i {
                assert(j < json::skip_blank(s, i + 1));
            }
        }
    }
}

proof fn lemma_white_end(s: Seq<char>, i: int, k: int)
    requires
        0 <= i <= k < s.len(),
        forall|j: int| i <= j < k ==> text::whitespace(#[trigger] s[j]),
        !text::whitespace(s[k]),
    ensures
        text::skip_white(s, i) == k,
    decreases k - i,
{
    if i < k {
        lemma_white_end(s, i + 1, k);
    }
}

// ------------------------------------------------------------ methods ----

/// The methods of a text: `includes`, `startsWith` and `endsWith` hold for its
/// parts, `trim` takes white space off its ends.
pub proof fn law_string_methods(
    response: ResponseView,
    a: Seq<char>,
    p: Seq<char>,
    b: Seq<char>,
)
    ensures
        script::method_result(
            response,
            OperandView::Value(ValueView::String(a + p + b)),
            "includes"@,
            seq![ValueView::String(p)],
        ) == Ok::<ValueView, Seq<char>>(ValueView::Bool(true)),
        script::method_result(
            response,
            OperandView::Value(ValueView::String(p + b)),
            "startsWith"@,
            seq![ValueView::String(p)],
        ) == Ok::<ValueView, Seq<char>>(ValueView::Bool(true)),
        script::method_result(
            response,
            OperandView::Value(ValueView::String(a + p)),
            "endsWith"@,
            seq![ValueView::String(p)],
        ) == Ok::<ValueView, Seq<char>>(ValueView::Bool(true)),
        text_laws::white(a) && text_laws::flush(p) && text_laws::white(b) ==> script::method_result(
            response,
            OperandView::Value(ValueView::String(a + p + b)),
            "trim"@,
            seq![],
        ) == Ok::<ValueView, Seq<char>>(ValueView::String(p)),
{
    reveal(script::method_result);
    lemma_method_names();
    text_laws::law_parts(a, p, b);
    if text_laws::white(a) && text_laws::flush(p) && text_laws::white(b) {
        text_laws::law_trimmed(a, p, b);
    }
}

/// Where the methods of a text hold, the argument is a part of it.
pub proof fn law_string_methods_only(response: ResponseView, s: Seq<char>, p: Seq<char>)
    ensures
        ({
            let o = OperandView::Value(ValueView::String(s));
            let args = seq![ValueView::String(p)];
            let yes = Ok::<ValueView, Seq<char>>(ValueView::Bool(true));
            &&& script::method_result(response, o, "includes"@, args) == yes ==> exists|k: int|
                text_laws::occurs(s, p, k)
            &&& script::method_result(response, o, "startsWith"@, args) == yes
                ==> text_laws::occurs(s, p, 0)
            &&& script::method_result(response, o, "endsWith"@, args) == yes ==> text_laws::occurs(
                s,
                p,
                s.len() - p.len(),
            )
        }),
{
    reveal(script::method_result);
    lemma_method_names();
    text_laws::law_only_parts(s, p);
}

proof fn lemma_method_names()
    ensures
        "includes"@ != "startsWith"@,
        "includes"@ != "endsWith"@,
        "startsWith"@ != "endsWith"@,
        "trim"@ != "includes"@,
        "trim"@ != "startsWith"@,
        "trim"@ != "endsWith"@,
        "trim"@ != "toLowerCase"@,
        "valueOf"@ != "valuesOf"@,
{
    reveal_strlit("includes");
    reveal_strlit("startsWith");
    reveal_strlit("endsWith");
    reveal_strlit("trim");
    reveal_strlit("toLowerCase");
    reveal_strlit("valueOf");
    reveal_strlit("valuesOf");
    assert("includes"@[0] == 'i' && "endsWith"@[0] == 'e' && "trim"@[1] == 'r');
    assert("trim"@.len() == 4 && "startsWith"@.len() == 10 && "toLowerCase"@.len() == 11);
    assert("includes"@.len() == 8 && "endsWith"@.len() == 8);
    assert("valueOf"@.len() == 7 && "valuesOf"@.len() == 8);
}

/// `includes` on an array holds exactly where an item is strictly equal.
pub proof fn law_array_includes(response: ResponseView, items: Seq<ValueView>, v: ValueView)
    ensures
        script::method_result(
            response,
            OperandView::Value(ValueView::Array(items)),
            "includes"@,
            seq![v],
        ) == Ok::<ValueView, Seq<char>>(
            ValueView::Bool(
                exists|i: int|
                    0 <= i < items.len() && script::compared(
                        #[trigger] items[i],
                        Punct::StrictEq,
                        v,
                    ) == Ok::<bool, Seq<char>>(true),
            ),
        ),
{
    reveal(script::method_result);
    reveal(script::compared);
    if script::includes(items, v) {
        let i = choose|i: int| 0 <= i < items.len() && json::alike(#[trigger] items[i], v);
        assert(script::compared(items[i], Punct::StrictEq, v) == Ok::<bool, Seq<char>>(true));
    }
}

/// `headers.valueOf(name)` gives the first header whose name is the same up to
/// the case of letters, and null where there is none.
pub proof fn law_header_lookup(response: ResponseView, name: Seq<char>, k: int)
    requires
        0 <= k <= response.headers.len(),
        forall|j: int|
            0 <= j < k ==> !text::same_letters((#[trigger] response.headers[j]).0, name),
        k < response.headers.len() ==> text::same_letters(response.headers[k].0, name),
    ensures
        response.header(name) == if k < response.headers.len() {
            Some(response.headers[k].1)
        } else {
            None
        },
        script::method_result(
            response,
            OperandView::Headers,
            "valueOf"@,
            seq![ValueView::String(name)],
        ) == Ok::<ValueView, Seq<char>>(
            if k < response.headers.len() {
                ValueView::String(response.headers[k].1)
            } else {
                ValueView::Null
            },
        ),
{
    reveal(script::method_result);
    lemma_method_names();
    lemma_header_from(response.headers, name, 0, k);
}

proof fn lemma_header_from(
    headers: Seq<(Seq<char>, Seq<char>)>,
    name: Seq<char>,
    i: int,
    k: int,
)
    requires
        0 <= i <= k <= headers.len(),
        forall|j: int| i <= j < k ==> !text::same_letters((#[trigger] headers[j]).0, name),
        k < headers.len() ==> text::same_letters(headers[k].0, name),
    ensures
        crate::http::header_from(headers, name, i) == if k < headers.len() {
            Some(headers[k].1)
        } else {
            None
        },
    decreases k - i,
{
    if i < k {
        lemma_header_from(headers, name, i + 1, k);
    }
}

/// `headers.valuesOf(name)` gives the values of all such headers in order: it
/// grows by the value of each header that is added at the end.
pub proof fn law_header_values(
    headers: Seq<(Seq<char>, Seq<char>)>,
    h: (Seq<char>, Seq<char>),
    name: Seq<char>,
)
    ensures
        script::header_values(seq![], name, 0) == Seq::<ValueView>::empty(),
        script::header_values(headers.push(h), name, 0) == if text::same_letters(h.0, name) {
            script::header_values(headers, name, 0).push(ValueView::String(h.1))
        } else {
            script::header_values(headers, name, 0)
        },
{
    lemma_header_values(headers, h, name, 0);
}

proof fn lemma_header_values(
    headers: Seq<(Seq<char>, Seq<char>)>,
    h: (Seq<char>, Seq<char>),
    name: Seq<char>,
    i: int,
)
    requires
        0 <= i <= headers.len(),
    ensures
        script::header_values(headers.push(h), name, i) == if text::same_letters(h.0, name) {
            script::header_values(headers, name, i).push(ValueView::String(h.1))
        } else {
            script::header_values(headers, name, i)
        },
    decreases headers.len() - i,
{
    let more = headers.push(h);
    if i < headers.len() {
        assert(more[i] == headers[i]);
        lemma_header_values(headers, h, name, i + 1);
        assert(script::header_values(more, name, i) =~= if text::same_letters(h.0, name) {
            script::header_values(headers, name, i).push(ValueView::String(h.1))
        } else {
            script::header_values(headers, name, i)
        });
    } else {
        assert(more[i] == h);
        assert(script::header_values(more, name, i + 1) =~= seq![]);
        assert(script::header_values(more, name, i) =~= if text::same_letters(h.0, name) {
            seq![ValueView::String(h.1)]
        } else {
            seq![]
        });
    }
}

/// A body that is neither said to be JSON nor begins like an object or an
/// array is text, even where that text would be a JSON value.
pub proof fn law_plain_body(response: ResponseView, a: Seq<char>, c: char, b: Seq<char>)
    requires
        !text::contains(response.content_type().0, "json"@),
        text_laws::white(a),
        !text::whitespace(c),
        c != '{',
        c != '[',
        script::body_text(response) == a + seq![c] + b,
    ensures
        script::parsed_body(response) == ValueView::String(a + seq![c] + b),
{
    let s = a + seq![c] + b;
    let n = a.len() as int;
    assert forall|k: int| 0 <= k < n implies text::whitespace(#[trigger] s[k]) by {
        assert(s[k] == a[k]);
    }
    text_laws::lemma_skip_white(s, 0, n);
    assert(text::ltrim(s)[0] == c);
}

/// What a failure calls a value.
pub proof fn law_kinds(v: ValueView)
    ensures
        v is Null ==> v.kind() == "null"@,
        v is Bool ==> v.kind() == "boolean"@,
        v is Number ==> v.kind() == "number"@,
        v is String ==> v.kind() == "string"@,
        v is Array ==> v.kind() == "array"@,
        v is Object ==> v.kind() == "object"@,
{
}

/// A boolean, a null, an array or an object has no order against anything, nor
/// has a number against a string that holds none; the failure names both kinds.
pub proof fn law_no_order(a: ValueView, op: Punct, b: ValueView)
    requires
        op == Punct::Lt || op == Punct::Le || op == Punct::Gt || op == Punct::Ge,
        !(a is Number || a is String) || !(b is Number || b is String) || (a is Number && b
            is String && number::read(b->String_0) is None) || (a is String && b is Number
            && number::read(a->String_0) is None),
    ensures
        script::compared(a, op, b) == Err::<bool, Seq<char>>(
            "cannot order "@ + a.kind() + " against "@ + b.kind(),
        ),
{
    reveal(script::compared);
}

} // verus!
