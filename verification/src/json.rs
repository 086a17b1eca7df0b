//! JSON values: parser, serializer and member access.
//!
//! An object is a list of members ordered by key, so that serialization is
//! deterministic and a key occurs at most once.

use crate::number;
use crate::number::Number;
use crate::text;
use vstd::prelude::*;
use vstd::slice::slice_subrange;
use vstd::utf8::*;

verus! {

/// A JSON value.
#[derive(Debug, PartialEq)]
pub enum Value {
    Null,
    Bool(bool),
    Number(Number),
    String(String),
    Array(Vec<Value>),
    Object(Vec<(String, Value)>),
}

/// What a JSON value stands for.
#[verifier::ext_equal]
pub enum ValueView {
    Null,
    Bool(bool),
    Number(Number),
    String(Seq<char>),
    Array(Seq<ValueView>),
    Object(Seq<(Seq<char>, ValueView)>),
}

pub open spec fn shape(v: Value) -> ValueView
    decreases v,
{
    match v {
        Value::Null => ValueView::Null,
        Value::Bool(b) => ValueView::Bool(b),
        Value::Number(n) => ValueView::Number(n),
        Value::String(s) => ValueView::String(s@),
        Value::Array(items) => ValueView::Array(shapes(items@)),
        Value::Object(members) => ValueView::Object(member_shapes(members@)),
    }
}

pub open spec fn shapes(items: Seq<Value>) -> Seq<ValueView>
    decreases items,
{
    Seq::new(
        items.len(),
        |i: int|
            if 0 <= i < items.len() {
                shape(items[i])
            } else {
                ValueView::Null
            },
    )
}

pub open spec fn member_shapes(members: Seq<(String, Value)>) -> Seq<(Seq<char>, ValueView)>
    decreases members,
{
    Seq::new(
        members.len(),
        |i: int|
            if 0 <= i < members.len() {
                (members[i].0@, shape(members[i].1))
            } else {
                (seq![], ValueView::Null)
            },
    )
}

impl View for Value {
    type V = ValueView;

    open spec fn view(&self) -> ValueView {
        shape(*self)
    }
}

impl Clone for Value {
    fn clone(&self) -> (r: Value)
        ensures
            r@ == self@,
        decreases self,
    {
        match self {
            Value::Null => Value::Null,
            Value::Bool(b) => Value::Bool(*b),
            Value::Number(n) => Value::Number(*n),
            Value::String(s) => Value::String(text::owned(s.as_str())),
            Value::Array(items) => {
                let mut out: Vec<Value> = Vec::new();
                let mut i: usize = 0;
                while i < items.len()
                    invariant
                        self == Value::Array(*items),
                        i <= items.len(),
                        out@.len() == i,
                        forall|k: int| 0 <= k < i ==> shape(#[trigger] out@[k]) == shape(items@[k]),
                    decreases items.len() - i,
                {
                    assert(decreases_to!(*self => self->Array_0));
                    assert(decreases_to!(*items => items@));
                    assert(decreases_to!(items@ => items@[i as int]));
                    out.push(items[i].clone());
                    i += 1;
                }
                assert(shapes(out@) =~= shapes(items@));
                Value::Array(out)
            },
            Value::Object(members) => {
                let mut out: Vec<(String, Value)> = Vec::new();
                let mut i: usize = 0;
                while i < members.len()
                    invariant
                        self == Value::Object(*members),
                        i <= members.len(),
                        out@.len() == i,
                        forall|k: int|
                            0 <= k < i ==> (#[trigger] out@[k]).0@ == members@[k].0@ && shape(
                                out@[k].1,
                            ) == shape(members@[k].1),
                    decreases members.len() - i,
                {
                    let key: String = text::owned(members[i].0.as_str());
                    assert(decreases_to!(*self => self->Object_0));
                    assert(decreases_to!(*members => members@));
                    assert(decreases_to!(members@ => members@[i as int]));
                    assert(decreases_to!(members@[i as int] => members@[i as int].1));
                    let value: Value = members[i].1.clone();
                    out.push((key, value));
                    i += 1;
                }
                assert(member_shapes(out@) =~= member_shapes(members@));
                Value::Object(out)
            },
        }
    }
}

// ------------------------------------------------------------- access ----

/// The value of the first member from `i` on that has the key.
pub open spec fn member_from(
    members: Seq<(Seq<char>, ValueView)>,
    key: Seq<char>,
    i: int,
) -> Option<ValueView>
    decreases members.len() - i,
{
    if i < 0 || i >= members.len() {
        None
    } else if members[i].0 == key {
        Some(members[i].1)
    } else {
        member_from(members, key, i + 1)
    }
}

/// Equality as an assertion sees it: numbers compare by value.
pub open spec fn alike(a: ValueView, b: ValueView) -> bool
    decreases a,
{
    match (a, b) {
        (ValueView::Null, ValueView::Null) => true,
        (ValueView::Bool(x), ValueView::Bool(y)) => x == y,
        (ValueView::Number(x), ValueView::Number(y)) => number::equal(x, y),
        (ValueView::String(x), ValueView::String(y)) => x == y,
        (ValueView::Array(x), ValueView::Array(y)) => x.len() == y.len() && forall|i: int|
            0 <= i < x.len() ==> alike(#[trigger] x[i], y[i]),
        (ValueView::Object(x), ValueView::Object(y)) => x.len() == y.len() && forall|i: int|
            0 <= i < x.len() ==> (#[trigger] x[i]).0 == y[i].0 && alike(x[i].1, y[i].1),
        _ => false,
    }
}

impl ValueView {
    /// Member access: a value only on objects.
    pub open spec fn member(self, key: Seq<char>) -> Option<ValueView> {
        match self {
            ValueView::Object(members) => member_from(members, key, 0),
            _ => None,
        }
    }

    /// Index access: a value only on arrays.
    pub open spec fn element(self, i: int) -> Option<ValueView> {
        match self {
            ValueView::Array(items) => if 0 <= i < items.len() {
                Some(items[i])
            } else {
                None
            },
            _ => None,
        }
    }

    pub open spec fn string(self) -> Option<Seq<char>> {
        match self {
            ValueView::String(s) => Some(s),
            _ => None,
        }
    }

    /// `false`, `null`, zero, NaN and the empty string are not true.
    pub open spec fn truth(self) -> bool {
        match self {
            ValueView::Null => false,
            ValueView::Bool(b) => b,
            ValueView::Number(n) => n.nonzero(),
            ValueView::String(s) => s.len() > 0,
            ValueView::Array(_) | ValueView::Object(_) => true,
        }
    }

    pub open spec fn kind(self) -> Seq<char> {
        match self {
            ValueView::Null => "null"@,
            ValueView::Bool(_) => "boolean"@,
            ValueView::Number(_) => "number"@,
            ValueView::String(_) => "string"@,
            ValueView::Array(_) => "array"@,
            ValueView::Object(_) => "object"@,
        }
    }

    /// Compact JSON, but a bare string stands without quotes.
    pub open spec fn shown(self) -> Seq<char> {
        match self {
            ValueView::String(s) => s,
            _ => serialized(self),
        }
    }
}

/// What an optional value stands for.
pub open spec fn opt_shape(v: Option<&Value>) -> Option<ValueView> {
    match v {
        Some(w) => Some(w@),
        None => None,
    }
}

impl Value {
    /// Member access: `value.get("key")` on objects, `None` otherwise.
    pub fn get(&self, key: &str) -> (r: Option<&Value>)
        ensures
            opt_shape(r) == self@.member(key@),
    {
        match self {
            Value::Object(members) => {
                let mut i: usize = 0;
                while i < members.len()
                    invariant
                        self == Value::Object(*members),
                        i <= members.len(),
                        member_from(member_shapes(members@), key@, 0) == member_from(
                            member_shapes(members@),
                            key@,
                            i as int,
                        ),
                    decreases members.len() - i,
                {
                    if text::same_str(members[i].0.as_str(), key) {
                        return Some(&members[i].1);
                    }
                    i += 1;
                }
                None
            },
            _ => None,
        }
    }

    /// Index access on arrays.
    pub fn index(&self, idx: usize) -> (r: Option<&Value>)
        ensures
            opt_shape(r) == self@.element(idx as int),
    {
        match self {
            Value::Array(items) => if idx < items.len() {
                Some(&items[idx])
            } else {
                None
            },
            _ => None,
        }
    }

    pub fn as_str(&self) -> (r: Option<&str>)
        ensures
            text::opt_str(r) == self@.string(),
    {
        match self {
            Value::String(s) => Some(s.as_str()),
            _ => None,
        }
    }

    /// JS-style truthiness: `false`, `null`, `0` and `""` are falsy.
    pub fn truthy(&self) -> (r: bool)
        ensures
            r == self@.truth(),
    {
        match self {
            Value::Null => false,
            Value::Bool(b) => *b,
            Value::Number(n) => n.is_nonzero(),
            Value::String(s) => text::chars(s.as_str()).len() > 0,
            Value::Array(_) => true,
            Value::Object(_) => true,
        }
    }

    /// Human-readable type name used in script error messages.
    pub fn kind_name(&self) -> (r: &'static str)
        ensures
            r@ == self@.kind(),
    {
        match self {
            Value::Null => "null",
            Value::Bool(_) => "boolean",
            Value::Number(_) => "number",
            Value::String(_) => "string",
            Value::Array(_) => "array",
            Value::Object(_) => "object",
        }
    }

    /// Compact JSON; bare strings render without quotes so assertion messages
    /// read naturally.
    pub fn to_text(&self) -> (r: String)
        ensures
            r@ == self@.shown(),
    {
        match self {
            Value::String(s) => text::owned(s.as_str()),
            _ => serialize(self),
        }
    }

    /// Equality with numbers compared by value.
    pub fn same(&self, other: &Value) -> (r: bool)
        ensures
            r == alike(self@, other@),
        decreases self,
    {
        match (self, other) {
            (Value::Null, Value::Null) => true,
            (Value::Bool(x), Value::Bool(y)) => *x == *y,
            (Value::Number(x), Value::Number(y)) => number::is_equal(*x, *y),
            (Value::String(x), Value::String(y)) => text::same_str(x.as_str(), y.as_str()),
            (Value::Array(x), Value::Array(y)) => {
                if x.len() != y.len() {
                    return false;
                }
                let mut i: usize = 0;
                while i < x.len()
                    invariant
                        self == Value::Array(*x),
                        other == Value::Array(*y),
                        i <= x.len(),
                        x.len() == y.len(),
                        forall|k: int|
                            0 <= k < i ==> alike(#[trigger] shapes(x@)[k], shapes(y@)[k]),
                    decreases x.len() - i,
                {
                    assert(decreases_to!(*self => self->Array_0));
                    assert(decreases_to!(*x => x@));
                    assert(decreases_to!(x@ => x@[i as int]));
                    if !x[i].same(&y[i]) {
                        assert(!alike(shapes(x@)[i as int], shapes(y@)[i as int]));
                        return false;
                    }
                    i += 1;
                }
                proof {
                    let a = shapes(x@);
                    let b = shapes(y@);
                    assert(self@ == ValueView::Array(a) && other@ == ValueView::Array(b));
                    assert(alike(ValueView::Array(a), ValueView::Array(b)));
                }
                true
            },
            (Value::Object(x), Value::Object(y)) => {
                if x.len() != y.len() {
                    return false;
                }
                let mut i: usize = 0;
                while i < x.len()
                    invariant
                        self == Value::Object(*x),
                        other == Value::Object(*y),
                        i <= x.len(),
                        x.len() == y.len(),
                        forall|k: int|
                            0 <= k < i ==> (#[trigger] member_shapes(x@)[k]).0 == member_shapes(
                                y@,
                            )[k].0 && alike(member_shapes(x@)[k].1, member_shapes(y@)[k].1),
                    decreases x.len() - i,
                {
                    assert(decreases_to!(*self => self->Object_0));
                    assert(decreases_to!(*x => x@));
                    assert(decreases_to!(x@ => x@[i as int]));
                    assert(decreases_to!(x@[i as int] => x@[i as int].1));
                    if !text::same_str(x[i].0.as_str(), y[i].0.as_str()) || !x[i].1.same(&y[i].1) {
                        let ghost a = member_shapes(x@)[i as int];
                        let ghost b = member_shapes(y@)[i as int];
                        assert(a.0 != b.0 || !alike(a.1, b.1));
                        return false;
                    }
                    i += 1;
                }
                proof {
                    let a = member_shapes(x@);
                    let b = member_shapes(y@);
                    assert(self@ == ValueView::Object(a) && other@ == ValueView::Object(b));
                    assert(alike(ValueView::Object(a), ValueView::Object(b)));
                }
                true
            },
            _ => false,
        }
    }
}

// ------------------------------------------------------ serialization ----

/// One character inside a JSON string literal.
pub open spec fn escaped_char(c: char) -> Seq<char> {
    if c == '"' {
        seq!['\\', '"']
    } else if c == '\\' {
        seq!['\\', '\\']
    } else if c == '\n' {
        seq!['\\', 'n']
    } else if c == '\r' {
        seq!['\\', 'r']
    } else if c == '\t' {
        seq!['\\', 't']
    } else if (c as u32) < 0x20 {
        seq![
            '\\',
            'u',
            '0',
            '0',
            text::digit_char((c as u32 / 16) as nat),
            text::digit_char((c as u32 % 16) as nat),
        ]
    } else {
        seq![c]
    }
}

pub open spec fn escaped(s: Seq<char>) -> Seq<char>
    decreases s.len(),
{
    if s.len() == 0 {
        seq![]
    } else {
        escaped(s.drop_last()) + escaped_char(s.last())
    }
}

/// A JSON string literal.
pub open spec fn quoted(s: Seq<char>) -> Seq<char> {
    seq!['"'] + escaped(s) + seq!['"']
}

/// Compact JSON text.
pub open spec fn serialized(v: ValueView) -> Seq<char>
    decreases v, 0nat,
{
    match v {
        ValueView::Null => "null"@,
        ValueView::Bool(b) => if b {
            "true"@
        } else {
            "false"@
        },
        ValueView::Number(n) => number::display(n),
        ValueView::String(s) => quoted(s),
        ValueView::Array(items) => seq!['['] + serialized_items(items, items.len()) + seq![']'],
        ValueView::Object(members) => seq!['{'] + serialized_members(members, members.len())
            + seq!['}'],
    }
}

/// The first `n` items, separated by commas.
pub open spec fn serialized_items(items: Seq<ValueView>, n: nat) -> Seq<char>
    decreases items, n,
{
    if n == 0 || n > items.len() {
        seq![]
    } else if n == 1 {
        serialized(items[0])
    } else {
        serialized_items(items, (n - 1) as nat) + seq![','] + serialized(items[n - 1])
    }
}

/// One member of an object.
pub open spec fn serialized_member(member: (Seq<char>, ValueView)) -> Seq<char>
    decreases member, 0nat,
{
    quoted(member.0) + seq![':'] + serialized(member.1)
}

/// The first `n` members, separated by commas.
pub open spec fn serialized_members(members: Seq<(Seq<char>, ValueView)>, n: nat) -> Seq<char>
    decreases members, n,
{
    if n == 0 || n > members.len() {
        seq![]
    } else if n == 1 {
        serialized_member(members[0])
    } else {
        serialized_members(members, (n - 1) as nat) + seq![','] + serialized_member(members[n - 1])
    }
}

/// Serialize a value to compact JSON text.
pub fn serialize(value: &Value) -> (r: String)
    ensures
        r@ == serialized(value@),
{
    let mut out: String = String::new();
    write_value(value, &mut out);
    out
}

fn write_value(value: &Value, out: &mut String)
    ensures
        final(out)@ == old(out)@ + serialized(value@),
    decreases value,
{
    let ghost start = out@;
    match value {
        Value::Null => out.append("null"),
        Value::Bool(b) => if *b {
            out.append("true")
        } else {
            out.append("false")
        },
        Value::Number(n) => {
            let t: String = number::to_text(*n);
            out.append(t.as_str());
        },
        Value::String(s) => write_string(s.as_str(), out),
        Value::Array(items) => {
            out.push('[');
            let mut i: usize = 0;
            while i < items.len()
                invariant
                    value == Value::Array(*items),
                    i <= items.len(),
                    out@ == start + (seq!['['] + serialized_items(shapes(items@), i as nat)),
                decreases items.len() - i,
            {
                if i > 0 {
                    out.push(',');
                }
                assert(decreases_to!(*value => value->Array_0));
                assert(decreases_to!(*items => items@));
                assert(decreases_to!(items@ => items@[i as int]));
                write_value(&items[i], out);
                i += 1;
                assert(out@ =~= start + (seq!['['] + serialized_items(shapes(items@), i as nat)));
            }
            out.push(']');
        },
        Value::Object(members) => {
            out.push('{');
            let mut i: usize = 0;
            while i < members.len()
                invariant
                    value == Value::Object(*members),
                    i <= members.len(),
                    out@ == start + (seq!['{'] + serialized_members(
                        member_shapes(members@),
                        i as nat,
                    )),
                decreases members.len() - i,
            {
                if i > 0 {
                    out.push(',');
                }
                assert(decreases_to!(*value => value->Object_0));
                assert(decreases_to!(*members => members@));
                assert(decreases_to!(members@ => members@[i as int]));
                assert(decreases_to!(members@[i as int] => members@[i as int].1));
                write_string(members[i].0.as_str(), out);
                out.push(':');
                write_value(&members[i].1, out);
                proof {
                    let m = member_shapes(members@)[i as int];
                    assert(serialized_member(m) == quoted(m.0) + seq![':'] + serialized(m.1));
                }
                i += 1;
                assert(out@ =~= start + (seq!['{'] + serialized_members(
                    member_shapes(members@),
                    i as nat,
                )));
            }
            out.push('}');
        },
    }
    assert(out@ =~= start + serialized(value@));
}

#[verifier::loop_isolation(false)]
fn write_string(s: &str, out: &mut String)
    ensures
        final(out)@ == old(out)@ + quoted(s@),
{
    let ghost start = out@;
    out.push('"');
    let chars: Vec<char> = text::chars(s);
    let mut i: usize = 0;
    while i < chars.len()
        invariant
            i <= chars.len(),
            out@ == start + (seq!['"'] + escaped(chars@.take(i as int))),
        decreases chars.len() - i,
    {
        let c: char = chars[i];
        let code: u32 = c as u32;
        assert(chars@.take(i + 1).drop_last() == chars@.take(i as int));
        if c == '"' {
            out.push('\\');
            out.push('"');
        } else if c == '\\' {
            out.push('\\');
            out.push('\\');
        } else if c == '\n' {
            out.push('\\');
            out.push('n');
        } else if c == '\r' {
            out.push('\\');
            out.push('r');
        } else if c == '\t' {
            out.push('\\');
            out.push('t');
        } else if code < 0x20 {
            out.push('\\');
            out.push('u');
            out.push('0');
            out.push('0');
            out.push(text::to_digit_char((code / 16) as u64));
            out.push(text::to_digit_char((code % 16) as u64));
        } else {
            out.push(c);
        }
        i += 1;
        assert(out@ =~= start + (seq!['"'] + escaped(chars@.take(i as int))));
    }
    assert(chars@.take(chars@.len() as int) == s@);
    out.push('"');
    assert(out@ =~= start + quoted(s@));
}

// ------------------------------------------------------------ grammar ----

pub open spec fn blank(c: char) -> bool {
    c == ' ' || c == '\t' || c == '\n' || c == '\r'
}

/// The first position from `i` on that holds no JSON white space.
pub open spec fn skip_blank(s: Seq<char>, i: int) -> int
    decreases s.len() - i,
{
    if 0 <= i < s.len() && blank(s[i]) {
        skip_blank(s, i + 1)
    } else {
        i
    }
}

/// The byte offset of position `i`, in decimal.
pub open spec fn offset(s: Seq<char>, i: int) -> Seq<char> {
    text::decimal(encode_utf8(s.take(i)).len())
}

/// Position `i` holds the character `c`.
pub open spec fn at(s: Seq<char>, i: int, c: char) -> bool {
    0 <= i < s.len() && s[i] == c
}

pub open spec fn numeral_char(c: char) -> bool {
    text::ascii_digit(c) || c == '.' || c == 'e' || c == 'E' || c == '+' || c == '-'
}

/// The end of the run of numeral characters from `i` on.
pub open spec fn numeral_end(s: Seq<char>, i: int) -> int
    decreases s.len() - i,
{
    if 0 <= i < s.len() && numeral_char(s[i]) {
        numeral_end(s, i + 1)
    } else {
        i
    }
}

/// The four hexadecimal digits at `i`.
pub open spec fn hex_at(s: Seq<char>, i: int) -> Result<nat, Seq<char>> {
    if encode_utf8(s.skip(i)).len() < 4 {
        Err("truncated \\u escape at offset "@ + offset(s, i))
    } else if s.len() - i < 4 {
        Err("bad \\u escape at offset "@ + offset(s, i))
    } else {
        match text::unsigned(s.subrange(i, i + 4), 16, u32::MAX as nat) {
            Some(n) => Ok(n),
            None => Err("bad \\u escape at offset "@ + offset(s, i)),
        }
    }
}

/// The character of a code point, whose escape has its `u` at `i`.
pub open spec fn code_point(s: Seq<char>, i: int, code: nat, next: int) -> Result<
    (char, int),
    Seq<char>,
> {
    if code <= u32::MAX && is_scalar(code as u32) {
        Ok((code as char, next))
    } else {
        Err("invalid \\u code point at offset "@ + offset(s, i))
    }
}

/// The character of the escape whose `u` stands at `i`, and the position after
/// it. A high surrogate joins with the low surrogate of a second escape.
pub open spec fn unicode_escape(s: Seq<char>, i: int) -> Result<(char, int), Seq<char>> {
    match hex_at(s, i + 1) {
        Err(e) => Err(e),
        Ok(high) => if 0xD800 <= high < 0xDC00 && at(s, i + 5, '\\') && at(s, i + 6, 'u') {
            match hex_at(s, i + 7) {
                Err(e) => Err(e),
                Ok(low) => if 0xDC00 <= low < 0xE000 {
                    code_point(
                        s,
                        i,
                        (0x10000 + (high - 0xD800) * 1024 + (low - 0xDC00)) as nat,
                        i + 11,
                    )
                } else {
                    code_point(s, i, high, i + 5)
                },
            }
        } else {
            code_point(s, i, high, i + 5)
        },
    }
}

/// What a one-character escape stands for.
pub open spec fn simple_escape(c: char) -> Option<char> {
    if c == '"' {
        Some('"')
    } else if c == '\\' {
        Some('\\')
    } else if c == '/' {
        Some('/')
    } else if c == 'n' {
        Some('\n')
    } else if c == 't' {
        Some('\t')
    } else if c == 'r' {
        Some('\r')
    } else if c == 'b' {
        Some('\u{8}')
    } else if c == 'f' {
        Some('\u{c}')
    } else {
        None
    }
}

/// The rest of a string literal from `i` on, after the characters `out`.
pub open spec fn chars_from(s: Seq<char>, i: int, out: Seq<char>) -> Result<
    (Seq<char>, int),
    Seq<char>,
>
    decreases s.len() - i,
{
    if i < 0 || i >= s.len() {
        Err("unterminated string at offset "@ + offset(s, s.len() as int))
    } else if s[i] == '"' {
        Ok((out, i + 1))
    } else if s[i] != '\\' {
        chars_from(s, i + 1, out.push(s[i]))
    } else if at(s, i + 1, 'u') {
        match unicode_escape(s, i + 1) {
            Err(e) => Err(e),
            Ok((c, j)) => if i < j <= s.len() {
                chars_from(s, j, out.push(c))
            } else {
                Err(seq![])
            },
        }
    } else if i + 1 < s.len() && simple_escape(s[i + 1]) is Some {
        chars_from(s, i + 2, out.push(simple_escape(s[i + 1])->0))
    } else {
        Err("invalid escape at offset "@ + offset(s, i + 1))
    }
}

/// A single expected character.
pub open spec fn expected(s: Seq<char>, i: int, c: char) -> Seq<char> {
    "expected '"@ + seq![c] + "' at offset "@ + offset(s, i)
}

/// The string literal at `i`, and the position after it.
pub open spec fn string_at(s: Seq<char>, i: int) -> Result<(Seq<char>, int), Seq<char>> {
    if at(s, i, '"') {
        chars_from(s, i + 1, seq![])
    } else {
        Err(expected(s, i, '"'))
    }
}

/// The number of leading keys, from `i` on, that come before `key`.
pub open spec fn slot(
    members: Seq<(Seq<char>, ValueView)>,
    key: Seq<char>,
    i: int,
) -> int
    decreases members.len() - i,
{
    if 0 <= i < members.len() && text::precedes(members[i].0, key, 0) {
        slot(members, key, i + 1)
    } else {
        i
    }
}

/// The members with `key` set to `value`, in key order.
pub open spec fn put(
    members: Seq<(Seq<char>, ValueView)>,
    key: Seq<char>,
    value: ValueView,
) -> Seq<(Seq<char>, ValueView)> {
    let i = slot(members, key, 0);
    if i < members.len() && members[i].0 == key {
        members.update(i, (key, value))
    } else {
        members.insert(i, (key, value))
    }
}

pub proof fn lemma_skip_blank(s: Seq<char>, i: int)
    ensures
        i <= skip_blank(s, i),
        0 <= i <= s.len() ==> skip_blank(s, i) <= s.len(),
    decreases s.len() - i,
{
    if 0 <= i < s.len() && blank(s[i]) {
        lemma_skip_blank(s, i + 1);
    }
}

/// A keyword at `i`, and the position after it.
pub open spec fn keyword(s: Seq<char>, i: int, word: Seq<char>, value: ValueView) -> Result<
    (ValueView, int),
    Seq<char>,
> {
    if text::starts(s.skip(i), word) {
        Ok((value, i + word.len()))
    } else {
        Err("invalid literal at offset "@ + offset(s, i))
    }
}

/// The number at `i`, and the position after it.
pub open spec fn number_at(s: Seq<char>, i: int) -> Result<(ValueView, int), Seq<char>> {
    let j = numeral_end(s, i);
    match number::read(s.subrange(i, j)) {
        Some(n) => Ok((ValueView::Number(n), j)),
        None => Err(
            "invalid number '"@ + s.subrange(i, j) + "' at offset "@ + offset(s, i),
        ),
    }
}

/// The value from `i` on, after white space, and the position after it.
pub open spec fn value_at(s: Seq<char>, i: int) -> Result<(ValueView, int), Seq<char>>
    decreases s.len() - i, 0nat,
{
    let k = skip_blank(s, i);
    proof {
        lemma_skip_blank(s, i);
        lemma_skip_blank(s, k + 1);
    }
    if at(s, k, '{') {
        let m = skip_blank(s, k + 1);
        if at(s, m, '}') {
            Ok((ValueView::Object(seq![]), m + 1))
        } else {
            members_from(s, m, seq![])
        }
    } else if at(s, k, '[') {
        let m = skip_blank(s, k + 1);
        if at(s, m, ']') {
            Ok((ValueView::Array(seq![]), m + 1))
        } else {
            items_from(s, m, seq![])
        }
    } else if at(s, k, '"') {
        match string_at(s, k) {
            Ok((t, j)) => Ok((ValueView::String(t), j)),
            Err(e) => Err(e),
        }
    } else if at(s, k, 't') {
        keyword(s, k, "true"@, ValueView::Bool(true))
    } else if at(s, k, 'f') {
        keyword(s, k, "false"@, ValueView::Bool(false))
    } else if at(s, k, 'n') {
        keyword(s, k, "null"@, ValueView::Null)
    } else if 0 <= k < s.len() && (s[k] == '-' || text::ascii_digit(s[k])) {
        number_at(s, k)
    } else {
        Err("unexpected input at offset "@ + offset(s, k))
    }
}

/// The items of an array from `i` on, after the items `acc`.
pub open spec fn items_from(s: Seq<char>, i: int, acc: Seq<ValueView>) -> Result<
    (ValueView, int),
    Seq<char>,
>
    decreases s.len() - i, 1nat,
{
    match value_at(s, i) {
        Err(e) => Err(e),
        Ok((v, j)) => if i < j <= s.len() {
            let k = skip_blank(s, j);
            proof {
                lemma_skip_blank(s, j);
            }
            if at(s, k, ',') {
                items_from(s, k + 1, acc.push(v))
            } else if at(s, k, ']') {
                Ok((ValueView::Array(acc.push(v)), k + 1))
            } else {
                Err("expected ',' or ']' at offset "@ + offset(s, k))
            }
        } else {
            Err(seq![])
        },
    }
}

/// The members of an object from `i` on, after the members `acc`.
pub open spec fn members_from(s: Seq<char>, i: int, acc: Seq<(Seq<char>, ValueView)>) -> Result<
    (ValueView, int),
    Seq<char>,
>
    decreases s.len() - i, 1nat,
{
    match string_at(s, skip_blank(s, i)) {
        Err(e) => Err(e),
        Ok((key, j)) => {
            let c = skip_blank(s, j);
            if !(i < j <= s.len()) {
                Err(seq![])
            } else if !at(s, c, ':') {
                Err(expected(s, c, ':'))
            } else {
                proof {
                    lemma_skip_blank(s, j);
                }
                match value_at(s, c + 1) {
                    Err(e) => Err(e),
                    Ok((v, n)) => if c + 1 < n <= s.len() {
                        let k = skip_blank(s, n);
                        proof {
                            lemma_skip_blank(s, n);
                        }
                        if at(s, k, ',') {
                            members_from(s, k + 1, put(acc, key, v))
                        } else if at(s, k, '}') {
                            Ok((ValueView::Object(put(acc, key, v)), k + 1))
                        } else {
                            Err("expected ',' or '}' at offset "@ + offset(s, k))
                        }
                    } else {
                        Err(seq![])
                    },
                }
            }
        },
    }
}

/// The value that a document holds.
pub open spec fn parsed(s: Seq<char>) -> Result<ValueView, Seq<char>> {
    match value_at(s, skip_blank(s, 0)) {
        Err(e) => Err(e),
        Ok((v, j)) => {
            let k = skip_blank(s, j);
            if k != s.len() {
                Err("trailing characters at offset "@ + offset(s, k))
            } else {
                Ok(v)
            }
        },
    }
}

// ------------------------------------------------------------- parser ----

fn skip_ws(s: &[char], from: usize) -> (r: usize)
    requires
        from <= s@.len(),
    ensures
        from <= r <= s@.len(),
        r == skip_blank(s@, from as int),
{
    let mut i: usize = from;
    while i < s.len() && (s[i] == ' ' || s[i] == '\t' || s[i] == '\n' || s[i] == '\r')
        invariant
            from <= i <= s.len(),
            skip_blank(s@, from as int) == skip_blank(s@, i as int),
        decreases s.len() - i,
    {
        i += 1;
    }
    i
}

fn peek(s: &[char], i: usize, c: char) -> (r: bool)
    ensures
        r == at(s@, i as int, c),
{
    i < s.len() && s[i] == c
}

/// `message` followed by the byte offset of position `i`.
fn with_offset(message: &str, s: &[char], i: usize) -> (r: String)
    requires
        i <= s@.len(),
    ensures
        r@ == message@ + offset(s@, i as int),
{
    let bytes: usize = text::utf8_len(slice_subrange(s, 0, i));
    let digits: String = text::decimal_string(bytes as u64);
    text::concat2(message, digits.as_str())
}

fn expect_failed(s: &[char], i: usize, c: char) -> (r: String)
    requires
        i <= s@.len(),
    ensures
        r@ == expected(s@, i as int, c),
{
    let mut message: String = text::owned("expected '");
    message.push(c);
    message.append("' at offset ");
    assert(message@ == "expected '"@ + seq![c] + "' at offset "@);
    with_offset(message.as_str(), s, i)
}

/// Every character takes at least one byte.
pub proof fn lemma_utf8_len(s: Seq<char>)
    ensures
        encode_utf8(s).len() >= s.len(),
    decreases s.len(),
{
    if s.len() > 0 {
        lemma_utf8_len(s.drop_first());
        encode_utf8_first_scalar(s);
        char_is_scalar(s[0]);
    }
}

/// What the result of reading a hexadecimal number stands for.
spec fn hex_result(r: Result<u32, String>) -> Result<nat, Seq<char>> {
    match r {
        Ok(n) => Ok(n as nat),
        Err(e) => Err(e@),
    }
}

fn parse_hex(s: &[char], i: usize) -> (r: Result<u32, String>)
    requires
        i <= s@.len(),
    ensures
        hex_result(r) == hex_at(s@, i as int),
        r is Ok ==> i + 4 <= s@.len(),
{
    let rest: usize = s.len() - i;
    proof {
        lemma_utf8_len(s@.skip(i as int));
    }
    if rest < 4 {
        if text::utf8_len(slice_subrange(s, i, s.len())) < 4 {
            return Err(with_offset("truncated \\u escape at offset ", s, i));
        }
        return Err(with_offset("bad \\u escape at offset ", s, i));
    }
    match text::parse_unsigned(slice_subrange(s, i, i + 4), 16, u32::MAX as u64) {
        Some(n) => Ok(n as u32),
        None => Err(with_offset("bad \\u escape at offset ", s, i)),
    }
}

/// What the result of reading an escape stands for.
spec fn escape_result(r: Result<(char, usize), String>) -> Result<(char, int), Seq<char>> {
    match r {
        Ok((c, j)) => Ok((c, j as int)),
        Err(e) => Err(e@),
    }
}

fn char_of(s: &[char], i: usize, code: u32, next: usize) -> (r: Result<(char, usize), String>)
    requires
        i <= s@.len(),
    ensures
        escape_result(r) == code_point(s@, i as int, code as nat, next as int),
        r matches Ok((_, j)) ==> j == next,
{
    match char::from_u32(code) {
        Some(c) => {
            proof {
                char_u32_cast(c, code);
            }
            Ok((c, next))
        },
        None => Err(with_offset("invalid \\u code point at offset ", s, i)),
    }
}

fn parse_unicode_escape(s: &[char], i: usize) -> (r: Result<(char, usize), String>)
    requires
        i < s@.len(),
    ensures
        escape_result(r) == unicode_escape(s@, i as int),
        r matches Ok((_, j)) ==> i < j <= s@.len(),
{
    assert(s.len() == s@.len());
    let high: u32 = match parse_hex(s, i + 1) {
        Ok(n) => n,
        Err(e) => {
            return Err(e);
        },
    };
    if 0xD800 <= high && high < 0xDC00 && peek(s, i + 5, '\\') && i + 6 < s.len() && peek(
        s,
        i + 6,
        'u',
    ) {
        let low: u32 = match parse_hex(s, i + 7) {
            Ok(n) => n,
            Err(e) => {
                return Err(e);
            },
        };
        if 0xDC00 <= low && low < 0xE000 {
            return char_of(s, i, 0x10000 + (high - 0xD800) * 1024 + (low - 0xDC00), i + 11);
        }
    }
    char_of(s, i, high, i + 5)
}

fn unescape(c: char) -> (r: Option<char>)
    ensures
        r == simple_escape(c),
{
    match c {
        '"' => Some('"'),
        '\\' => Some('\\'),
        '/' => Some('/'),
        'n' => Some('\n'),
        't' => Some('\t'),
        'r' => Some('\r'),
        'b' => Some('\u{8}'),
        'f' => Some('\u{c}'),
        _ => None,
    }
}

/// What the result of reading a string literal stands for.
spec fn text_result(r: Result<(String, usize), String>) -> Result<(Seq<char>, int), Seq<char>> {
    match r {
        Ok((t, j)) => Ok((t@, j as int)),
        Err(e) => Err(e@),
    }
}

fn parse_string(s: &[char], start: usize) -> (r: Result<(String, usize), String>)
    requires
        start <= s@.len(),
    ensures
        text_result(r) == string_at(s@, start as int),
        r matches Ok((_, j)) ==> start < j <= s@.len(),
{
    if start >= s.len() || s[start] != '"' {
        return Err(expect_failed(s, start, '"'));
    }
    let mut out: String = String::new();
    let mut i: usize = start + 1;
    assert(out@ == Seq::<char>::empty());
    while i < s.len()
        invariant
            start < i <= s.len(),
            string_at(s@, start as int) == chars_from(s@, i as int, out@),
        decreases s.len() - i,
    {
        let c: char = s[i];
        if c == '"' {
            return Ok((out, i + 1));
        }
        if c != '\\' {
            out.push(c);
            i += 1;
            continue;
        }
        if peek(s, i + 1, 'u') {
            match parse_unicode_escape(s, i + 1) {
                Ok((c, j)) => {
                    out.push(c);
                    i = j;
                },
                Err(e) => {
                    return Err(e);
                },
            }
            continue;
        }
        let plain: Option<char> = if i + 1 < s.len() {
            unescape(s[i + 1])
        } else {
            None
        };
        match plain {
            Some(c) => {
                out.push(c);
                i += 2;
            },
            None => {
                return Err(with_offset("invalid escape at offset ", s, i + 1));
            },
        }
    }
    Err(with_offset("unterminated string at offset ", s, s.len()))
}

/// What the result of reading a value stands for.
spec fn value_result(r: Result<(Value, usize), String>) -> Result<(ValueView, int), Seq<char>> {
    match r {
        Ok((v, j)) => Ok((v@, j as int)),
        Err(e) => Err(e@),
    }
}

fn parse_keyword(s: &[char], i: usize, word: &str, value: Value) -> (r: Result<
    (Value, usize),
    String,
>)
    requires
        i <= s@.len(),
        word@.len() > 0,
    ensures
        value_result(r) == keyword(s@, i as int, word@, value@),
        r matches Ok((_, j)) ==> i < j <= s@.len(),
{
    let rest: &[char] = slice_subrange(s, i, s.len());
    if text::starts_with(rest, word) {
        let n: usize = text::chars(word).len();
        Ok((value, i + n))
    } else {
        Err(with_offset("invalid literal at offset ", s, i))
    }
}

fn parse_number(s: &[char], start: usize) -> (r: Result<(Value, usize), String>)
    requires
        start < s@.len(),
        numeral_char(s@[start as int]),
    ensures
        value_result(r) == number_at(s@, start as int),
        r matches Ok((_, j)) ==> start < j <= s@.len(),
{
    let mut i: usize = start;
    while i < s.len() && (text::is_ascii_digit(s[i]) || s[i] == '.' || s[i] == 'e' || s[i] == 'E'
        || s[i] == '+' || s[i] == '-')
        invariant
            start <= i <= s.len(),
            i == start ==> numeral_char(s@[start as int]),
            start < s@.len(),
            numeral_end(s@, start as int) == numeral_end(s@, i as int),
        decreases s.len() - i,
    {
        i += 1;
    }
    let numeral: &[char] = slice_subrange(s, start, i);
    match number::parse(numeral) {
        Some(n) => Ok((Value::Number(n), i)),
        None => {
            let numeral: String = text::string(numeral);
            let message: String = text::concat3(
                "invalid number '",
                numeral.as_str(),
                "' at offset ",
            );
            Err(with_offset(message.as_str(), s, start))
        },
    }
}

fn parse_value(s: &[char], i: usize) -> (r: Result<(Value, usize), String>)
    requires
        i <= s@.len(),
    ensures
        value_result(r) == value_at(s@, i as int),
        r matches Ok((_, j)) ==> i < j <= s@.len(),
    decreases s@.len() - i, 0nat,
{
    let k: usize = skip_ws(s, i);
    if k >= s.len() {
        return Err(with_offset("unexpected input at offset ", s, k));
    }
    let c: char = s[k];
    proof {
        reveal_strlit("true");
        reveal_strlit("false");
        reveal_strlit("null");
    }
    if c == '{' {
        let m: usize = skip_ws(s, k + 1);
        if peek(s, m, '}') {
            let none: Vec<(String, Value)> = Vec::new();
            assert(member_shapes(none@) == Seq::<(Seq<char>, ValueView)>::empty());
            return Ok((Value::Object(none), m + 1));
        }
        parse_members(s, m)
    } else if c == '[' {
        let m: usize = skip_ws(s, k + 1);
        if peek(s, m, ']') {
            let none: Vec<Value> = Vec::new();
            assert(shapes(none@) == Seq::<ValueView>::empty());
            return Ok((Value::Array(none), m + 1));
        }
        parse_items(s, m)
    } else if c == '"' {
        match parse_string(s, k) {
            Ok((t, j)) => Ok((Value::String(t), j)),
            Err(e) => Err(e),
        }
    } else if c == 't' {
        parse_keyword(s, k, "true", Value::Bool(true))
    } else if c == 'f' {
        parse_keyword(s, k, "false", Value::Bool(false))
    } else if c == 'n' {
        parse_keyword(s, k, "null", Value::Null)
    } else if c == '-' || text::is_ascii_digit(c) {
        parse_number(s, k)
    } else {
        Err(with_offset("unexpected input at offset ", s, k))
    }
}

/// The items of an array, from the first one on.
fn parse_items(s: &[char], start: usize) -> (r: Result<(Value, usize), String>)
    requires
        start <= s@.len(),
    ensures
        value_result(r) == items_from(s@, start as int, seq![]),
        r matches Ok((_, j)) ==> start < j <= s@.len(),
    decreases s@.len() - start, 1nat,
{
    let mut items: Vec<Value> = Vec::new();
    let mut i: usize = start;
    assert(shapes(items@) == Seq::<ValueView>::empty());
    loop
        invariant
            start <= i <= s.len(),
            items_from(s@, start as int, seq![]) == items_from(s@, i as int, shapes(items@)),
        decreases s.len() - i,
    {
        let ghost before = shapes(items@);
        match parse_value(s, i) {
            Err(e) => {
                return Err(e);
            },
            Ok((v, j)) => {
                items.push(v);
                assert(shapes(items@) == before.push(v@));
                let k: usize = skip_ws(s, j);
                if peek(s, k, ',') {
                    i = k + 1;
                } else if peek(s, k, ']') {
                    return Ok((Value::Array(items), k + 1));
                } else {
                    return Err(with_offset("expected ',' or ']' at offset ", s, k));
                }
            },
        }
    }
}

/// Set a member, keeping the keys in order.
fn insert_member(members: &mut Vec<(String, Value)>, key: String, value: Value)
    ensures
        member_shapes(final(members)@) == put(member_shapes(old(members)@), key@, value@),
{
    let ghost before = member_shapes(members@);
    let name: Vec<char> = text::chars(key.as_str());
    let mut i: usize = 0;
    while i < members.len() && text::is_before(
        text::chars(members[i].0.as_str()).as_slice(),
        name.as_slice(),
    )
        invariant
            i <= members.len(),
            name@ == key@,
            before == member_shapes(members@),
            slot(before, key@, 0) == slot(before, key@, i as int),
        decreases members.len() - i,
    {
        i += 1;
    }
    if i < members.len() && text::same_str(members[i].0.as_str(), key.as_str()) {
        members[i] = (key, value);
        assert(member_shapes(members@) =~= before.update(i as int, (key@, value@)));
    } else {
        members.insert(i, (key, value));
        assert(member_shapes(members@) =~= before.insert(i as int, (key@, value@)));
    }
}

/// The members of an object, from the first one on.
fn parse_members(s: &[char], start: usize) -> (r: Result<(Value, usize), String>)
    requires
        start <= s@.len(),
    ensures
        value_result(r) == members_from(s@, start as int, seq![]),
        r matches Ok((_, j)) ==> start < j <= s@.len(),
    decreases s@.len() - start, 1nat,
{
    let mut members: Vec<(String, Value)> = Vec::new();
    let mut i: usize = start;
    assert(member_shapes(members@) == Seq::<(Seq<char>, ValueView)>::empty());
    loop
        invariant
            start <= i <= s.len(),
            members_from(s@, start as int, seq![]) == members_from(
                s@,
                i as int,
                member_shapes(members@),
            ),
        decreases s.len() - i,
    {
        let (key, j): (String, usize) = match parse_string(s, skip_ws(s, i)) {
            Ok(p) => p,
            Err(e) => {
                return Err(e);
            },
        };
        let c: usize = skip_ws(s, j);
        if !peek(s, c, ':') {
            return Err(expect_failed(s, c, ':'));
        }
        match parse_value(s, c + 1) {
            Err(e) => {
                return Err(e);
            },
            Ok((v, n)) => {
                insert_member(&mut members, key, v);
                let k: usize = skip_ws(s, n);
                if peek(s, k, ',') {
                    i = k + 1;
                } else if peek(s, k, '}') {
                    return Ok((Value::Object(members), k + 1));
                } else {
                    return Err(with_offset("expected ',' or '}' at offset ", s, k));
                }
            },
        }
    }
}

/// What the result of parsing a document stands for.
pub open spec fn parse_result(r: Result<Value, String>) -> Result<ValueView, Seq<char>> {
    match r {
        Ok(v) => Ok(v@),
        Err(e) => Err(e@),
    }
}

/// Parse a JSON document. Errors carry the byte offset of the failure so
/// env-file problems point at the right spot.
pub fn parse(input: &str) -> (r: Result<Value, String>)
    ensures
        parse_result(r) == parsed(input@),
{
    let chars: Vec<char> = text::chars(input);
    let s: &[char] = chars.as_slice();
    match parse_value(s, skip_ws(s, 0)) {
        Err(e) => Err(e),
        Ok((value, j)) => {
            let k: usize = skip_ws(s, j);
            if k != s.len() {
                return Err(with_offset("trailing characters at offset ", s, k));
            }
            Ok(value)
        },
    }
}

// --------------------------------------------------------------- laws ----

/// Keys come in order, so that each occurs once.
pub open spec fn keys_ordered(members: Seq<(Seq<char>, ValueView)>) -> bool {
    forall|i: int, j: int|
        0 <= i < j < members.len() ==> text::precedes(
            (#[trigger] members[i]).0,
            (#[trigger] members[j]).0,
            0,
        )
}

/// The keys of every object inside a value come in order.
pub open spec fn ordered(v: ValueView) -> bool
    decreases v,
{
    match v {
        ValueView::Array(items) => forall|i: int|
            0 <= i < items.len() ==> ordered(#[trigger] items[i]),
        ValueView::Object(members) => keys_ordered(members) && forall|i: int|
            0 <= i < members.len() ==> ordered((#[trigger] members[i]).1),
        _ => true,
    }
}

/// Every number inside a value is finite, and none is the negative zero.
pub open spec fn writable(v: ValueView) -> bool
    decreases v,
{
    match v {
        ValueView::Number(n) => n.finite() && n.bits != 0x8000_0000_0000_0000,
        ValueView::Array(items) => forall|i: int|
            0 <= i < items.len() ==> writable(#[trigger] items[i]),
        ValueView::Object(members) => forall|i: int|
            0 <= i < members.len() ==> writable((#[trigger] members[i]).1),
        _ => true,
    }
}

/// Every number inside a value is finite.
pub open spec fn finite(v: ValueView) -> bool
    decreases v,
{
    match v {
        ValueView::Number(n) => n.finite(),
        ValueView::Array(items) => forall|i: int|
            0 <= i < items.len() ==> finite(#[trigger] items[i]),
        ValueView::Object(members) => forall|i: int|
            0 <= i < members.len() ==> finite((#[trigger] members[i]).1),
        _ => true,
    }
}

pub(crate) proof fn lemma_slot(members: Seq<(Seq<char>, ValueView)>, key: Seq<char>, i: int)
    requires
        0 <= i <= members.len(),
    ensures
        i <= slot(members, key, i) <= members.len(),
        forall|k: int|
            i <= k < slot(members, key, i) ==> text::precedes((#[trigger] members[k]).0, key, 0),
        slot(members, key, i) < members.len() ==> !text::precedes(
            members[slot(members, key, i)].0,
            key,
            0,
        ),
    decreases members.len() - i,
{
    if i < members.len() && text::precedes(members[i].0, key, 0) {
        lemma_slot(members, key, i + 1);
    }
}

pub(crate) proof fn lemma_put_keeps_order(
    members: Seq<(Seq<char>, ValueView)>,
    key: Seq<char>,
    value: ValueView,
)
    requires
        ordered(ValueView::Object(members)),
        ordered(value),
    ensures
        ordered(ValueView::Object(put(members, key, value))),
{
    let at = slot(members, key, 0);
    lemma_slot(members, key, 0);
    let after = put(members, key, value);
    if at < members.len() && members[at].0 == key {
        assert(keys_ordered(after));
    } else {
        assert forall|i: int, j: int| 0 <= i < j < after.len() implies text::precedes(
            (#[trigger] after[i]).0,
            (#[trigger] after[j]).0,
            0,
        ) by {
            let a = if i < at {
                i
            } else {
                i - 1
            };
            let b = if j < at {
                j
            } else {
                j - 1
            };
            if i == at {
                text::lemma_precedes_total(members[at].0, key, 0);
                if b > at {
                    text::lemma_precedes_transitive(key, members[at].0, members[b].0, 0);
                }
            } else if j == at {
            } else {
                assert(text::precedes(members[a].0, members[b].0, 0));
            }
        }
    }
    assert forall|i: int| 0 <= i < after.len() implies ordered((#[trigger] after[i]).1) by {
        if i < at {
            assert(after[i] == members[i]);
        } else if i > at {
            assert(after[i] == members[i] || after[i] == members[i - 1]);
        }
    }
}

proof fn lemma_push_keeps_order(items: Seq<ValueView>, v: ValueView)
    requires
        ordered(ValueView::Array(items)),
        ordered(v),
    ensures
        ordered(ValueView::Array(items.push(v))),
{
    let more = items.push(v);
    let all = ValueView::Array(items);
    assert forall|n: int| 0 <= n < more.len() implies ordered(#[trigger] more[n]) by {
        if n < items.len() {
            assert(ordered(all->Array_0[n]));
        }
    }
}

proof fn lemma_value_ordered(s: Seq<char>, i: int)
    ensures
        value_at(s, i) matches Ok((v, _)) ==> ordered(v),
    decreases s.len() - i, 0nat,
{
    let k = skip_blank(s, i);
    lemma_skip_blank(s, i);
    lemma_skip_blank(s, k + 1);
    let m = skip_blank(s, k + 1);
    if at(s, k, '{') {
        if !at(s, m, '}') {
            lemma_members_ordered(s, m, seq![]);
        }
    } else if at(s, k, '[') {
        if !at(s, m, ']') {
            lemma_items_ordered(s, m, seq![]);
        }
    }
}

proof fn lemma_items_ordered(s: Seq<char>, i: int, acc: Seq<ValueView>)
    requires
        ordered(ValueView::Array(acc)),
    ensures
        items_from(s, i, acc) matches Ok((v, _)) ==> ordered(v),
    decreases s.len() - i, 1nat,
{
    lemma_value_ordered(s, i);
    if let Ok((v, j)) = value_at(s, i) {
        if i < j <= s.len() {
            let k = skip_blank(s, j);
            lemma_skip_blank(s, j);
            lemma_push_keeps_order(acc, v);
            if at(s, k, ',') {
                lemma_items_ordered(s, k + 1, acc.push(v));
            }
        }
    }
}

proof fn lemma_members_ordered(s: Seq<char>, i: int, acc: Seq<(Seq<char>, ValueView)>)
    requires
        ordered(ValueView::Object(acc)),
    ensures
        members_from(s, i, acc) matches Ok((v, _)) ==> ordered(v),
    decreases s.len() - i, 1nat,
{
    if let Ok((key, j)) = string_at(s, skip_blank(s, i)) {
        let c = skip_blank(s, j);
        if i < j <= s.len() && at(s, c, ':') {
            lemma_skip_blank(s, j);
            lemma_value_ordered(s, c + 1);
            if let Ok((v, n)) = value_at(s, c + 1) {
                if c + 1 < n <= s.len() {
                    let k = skip_blank(s, n);
                    lemma_skip_blank(s, n);
                    lemma_put_keeps_order(acc, key, v);
                    if at(s, k, ',') {
                        lemma_members_ordered(s, k + 1, put(acc, key, v));
                    }
                }
            }
        }
    }
}

/// The keys of every object in a parsed document come in order, each once.
pub proof fn law_parsed_keys_are_ordered(s: Seq<char>)
    ensures
        parsed(s) matches Ok(v) ==> ordered(v),
{
    lemma_value_ordered(s, skip_blank(s, 0));
}

/// The failure names a byte offset within the text.
pub open spec fn names_offset(s: Seq<char>, e: Seq<char>) -> bool {
    exists|head: Seq<char>, k: nat|
        e == #[trigger] (head + text::decimal(k)) && text::ends(head, "offset "@) && k
            <= encode_utf8(s).len()
}

/// The bytes of a beginning are no more than those of the whole.
proof fn lemma_offset_within(s: Seq<char>, i: int)
    requires
        0 <= i <= s.len(),
    ensures
        encode_utf8(s.take(i)).len() <= encode_utf8(s).len(),
    decreases i,
{
    if i > 0 {
        lemma_offset_within(s.drop_first(), i - 1);
        assert(s.take(i).drop_first() =~= s.drop_first().take(i - 1));
    }
}

/// A message that ends in the offset of a position names an offset.
pub proof fn lemma_names_offset(s: Seq<char>, head: Seq<char>, i: int)
    requires
        0 <= i <= s.len(),
        text::ends(head, "offset "@),
    ensures
        names_offset(s, head + offset(s, i)),
{
    lemma_offset_within(s, i);
    let k = encode_utf8(s.take(i)).len();
    assert(head + offset(s, i) == head + text::decimal(k));
}

proof fn lemma_escape_located(s: Seq<char>, i: int)
    requires
        0 <= i < s.len(),
    ensures
        unicode_escape(s, i) matches Ok((_, j)) ==> i < j <= s.len(),
        unicode_escape(s, i) matches Err(e) ==> names_offset(s, e),
{
    lemma_hex_located(s, i + 1);
    if let Ok(high) = hex_at(s, i + 1) {
        reveal_strlit("offset ");
        reveal_strlit("invalid \\u code point at offset ");
        assert(text::ends("invalid \\u code point at offset "@, "offset "@)) by {
            assert("invalid \\u code point at offset "@.skip(25) =~= "offset "@);
        }
        lemma_names_offset(s, "invalid \\u code point at offset "@, i);
        if 0xD800 <= high < 0xDC00 && at(s, i + 5, '\\') && at(s, i + 6, 'u') {
            lemma_hex_located(s, i + 7);
        }
    }
}

proof fn lemma_hex_located(s: Seq<char>, i: int)
    requires
        0 <= i <= s.len(),
    ensures
        hex_at(s, i) is Ok ==> i + 4 <= s.len(),
        hex_at(s, i) matches Err(e) ==> names_offset(s, e),
{
    reveal_strlit("offset ");
    reveal_strlit("truncated \\u escape at offset ");
    reveal_strlit("bad \\u escape at offset ");
    assert("truncated \\u escape at offset "@.skip(23) =~= "offset "@);
    assert("bad \\u escape at offset "@.skip(17) =~= "offset "@);
    lemma_names_offset(s, "truncated \\u escape at offset "@, i);
    lemma_names_offset(s, "bad \\u escape at offset "@, i);
}

proof fn lemma_chars_located(s: Seq<char>, i: int, out: Seq<char>)
    requires
        0 <= i <= s.len(),
    ensures
        chars_from(s, i, out) matches Ok((_, j)) ==> i < j <= s.len(),
        chars_from(s, i, out) matches Err(e) ==> names_offset(s, e),
    decreases s.len() - i,
{
    if i >= s.len() {
        reveal_strlit("offset ");
        reveal_strlit("unterminated string at offset ");
        assert("unterminated string at offset "@.skip(23) =~= "offset "@);
        lemma_names_offset(s, "unterminated string at offset "@, s.len() as int);
    } else if s[i] == '"' {
    } else if s[i] != '\\' {
        lemma_chars_located(s, i + 1, out.push(s[i]));
    } else if at(s, i + 1, 'u') {
        lemma_escape_located(s, i + 1);
        if let Ok((c, j)) = unicode_escape(s, i + 1) {
            lemma_chars_located(s, j, out.push(c));
        }
    } else if i + 1 < s.len() && simple_escape(s[i + 1]) is Some {
        lemma_chars_located(s, i + 2, out.push(simple_escape(s[i + 1])->0));
    } else {
        reveal_strlit("offset ");
        reveal_strlit("invalid escape at offset ");
        assert("invalid escape at offset "@.skip(18) =~= "offset "@);
        lemma_names_offset(s, "invalid escape at offset "@, i + 1);
    }
}

/// The failure about a missing character names an offset.
proof fn lemma_expected_located(s: Seq<char>, i: int, c: char)
    requires
        0 <= i <= s.len(),
    ensures
        names_offset(s, expected(s, i, c)),
{
    reveal_strlit("offset ");
    reveal_strlit("' at offset ");
    let head = "expected '"@ + seq![c] + "' at offset "@;
    assert(head.skip(head.len() - 7) =~= "offset "@);
    lemma_names_offset(s, head, i);
}

proof fn lemma_string_located(s: Seq<char>, i: int)
    requires
        0 <= i <= s.len(),
    ensures
        string_at(s, i) matches Ok((_, j)) ==> i < j <= s.len(),
        string_at(s, i) matches Err(e) ==> names_offset(s, e),
{
    lemma_expected_located(s, i, '"');
    if at(s, i, '"') {
        lemma_chars_located(s, i + 1, seq![]);
    }
}

proof fn lemma_numeral_located(s: Seq<char>, i: int)
    requires
        0 <= i <= s.len(),
    ensures
        i <= numeral_end(s, i) <= s.len(),
    decreases s.len() - i,
{
    if i < s.len() && numeral_char(s[i]) {
        lemma_numeral_located(s, i + 1);
    }
}

proof fn lemma_number_located(s: Seq<char>, i: int)
    requires
        0 <= i < s.len(),
        numeral_char(s[i]),
    ensures
        number_at(s, i) matches Ok((_, j)) ==> i < j <= s.len(),
        number_at(s, i) matches Err(e) ==> names_offset(s, e),
{
    lemma_numeral_located(s, i + 1);
    let j = numeral_end(s, i);
    reveal_strlit("offset ");
    reveal_strlit("' at offset ");
    let head = "invalid number '"@ + s.subrange(i, j) + "' at offset "@;
    assert(head.skip(head.len() - 7) =~= "offset "@);
    lemma_names_offset(s, head, i);
}

proof fn lemma_keyword_located(s: Seq<char>, i: int, word: Seq<char>, value: ValueView)
    requires
        0 <= i <= s.len(),
        word.len() > 0,
    ensures
        keyword(s, i, word, value) matches Ok((_, j)) ==> i < j <= s.len(),
        keyword(s, i, word, value) matches Err(e) ==> names_offset(s, e),
{
    reveal_strlit("offset ");
    reveal_strlit("invalid literal at offset ");
    assert("invalid literal at offset "@.skip(19) =~= "offset "@);
    lemma_names_offset(s, "invalid literal at offset "@, i);
}

proof fn lemma_value_located(s: Seq<char>, i: int)
    requires
        0 <= i <= s.len(),
    ensures
        value_at(s, i) matches Ok((_, j)) ==> i < j <= s.len(),
        value_at(s, i) matches Err(e) ==> names_offset(s, e),
    decreases s.len() - i, 0nat,
{
    let k = skip_blank(s, i);
    lemma_skip_blank(s, i);
    reveal_strlit("true");
    reveal_strlit("false");
    reveal_strlit("null");
    reveal_strlit("offset ");
    reveal_strlit("unexpected input at offset ");
    assert("unexpected input at offset "@.skip(20) =~= "offset "@);
    lemma_names_offset(s, "unexpected input at offset "@, k);
    if k < s.len() {
        let m = skip_blank(s, k + 1);
        lemma_skip_blank(s, k + 1);
        if s[k] == '{' {
            if !at(s, m, '}') {
                lemma_members_located(s, m, seq![]);
            }
        } else if s[k] == '[' {
            if !at(s, m, ']') {
                lemma_items_located(s, m, seq![]);
            }
        } else if s[k] == '"' {
            lemma_string_located(s, k);
        } else if s[k] == 't' {
            lemma_keyword_located(s, k, "true"@, ValueView::Bool(true));
        } else if s[k] == 'f' {
            lemma_keyword_located(s, k, "false"@, ValueView::Bool(false));
        } else if s[k] == 'n' {
            lemma_keyword_located(s, k, "null"@, ValueView::Null);
        } else if s[k] == '-' || text::ascii_digit(s[k]) {
            lemma_number_located(s, k);
        }
    }
}

proof fn lemma_items_located(s: Seq<char>, i: int, acc: Seq<ValueView>)
    requires
        0 <= i <= s.len(),
    ensures
        items_from(s, i, acc) matches Ok((_, j)) ==> i < j <= s.len(),
        items_from(s, i, acc) matches Err(e) ==> names_offset(s, e),
    decreases s.len() - i, 1nat,
{
    lemma_value_located(s, i);
    if let Ok((v, j)) = value_at(s, i) {
        let k = skip_blank(s, j);
        lemma_skip_blank(s, j);
        reveal_strlit("offset ");
        reveal_strlit("expected ',' or ']' at offset ");
        assert("expected ',' or ']' at offset "@.skip(23) =~= "offset "@);
        lemma_names_offset(s, "expected ',' or ']' at offset "@, k);
        if at(s, k, ',') {
            lemma_items_located(s, k + 1, acc.push(v));
        }
    }
}

proof fn lemma_members_located(s: Seq<char>, i: int, acc: Seq<(Seq<char>, ValueView)>)
    requires
        0 <= i <= s.len(),
    ensures
        members_from(s, i, acc) matches Ok((_, j)) ==> i < j <= s.len(),
        members_from(s, i, acc) matches Err(e) ==> names_offset(s, e),
    decreases s.len() - i, 1nat,
{
    lemma_skip_blank(s, i);
    lemma_string_located(s, skip_blank(s, i));
    if let Ok((key, j)) = string_at(s, skip_blank(s, i)) {
        let c = skip_blank(s, j);
        lemma_skip_blank(s, j);
        lemma_expected_located(s, c, ':');
        if at(s, c, ':') {
            lemma_value_located(s, c + 1);
            if let Ok((v, n)) = value_at(s, c + 1) {
                let k = skip_blank(s, n);
                lemma_skip_blank(s, n);
                reveal_strlit("offset ");
                reveal_strlit("expected ',' or '}' at offset ");
                assert("expected ',' or '}' at offset "@.skip(23) =~= "offset "@);
                lemma_names_offset(s, "expected ',' or '}' at offset "@, k);
                if at(s, k, ',') {
                    lemma_members_located(s, k + 1, put(acc, key, v));
                }
            }
        }
    }
}

/// Every failure to parse names the byte offset at which it happened, which
/// lies within the document.
pub proof fn law_parse_errors_name_an_offset(s: Seq<char>)
    ensures
        parsed(s) matches Err(e) ==> names_offset(s, e),
{
    lemma_skip_blank(s, 0);
    let i = skip_blank(s, 0);
    lemma_value_located(s, i);
    if let Ok((v, j)) = value_at(s, i) {
        lemma_skip_blank(s, j);
        reveal_strlit("offset ");
        reveal_strlit("trailing characters at offset ");
        assert("trailing characters at offset "@.skip(23) =~= "offset "@);
        lemma_names_offset(s, "trailing characters at offset "@, skip_blank(s, j));
    }
}

/// The text `t` stands in `s` at `i`.
spec fn stands(s: Seq<char>, i: int, t: Seq<char>) -> bool {
    0 <= i && i + t.len() <= s.len() && s.subrange(i, i + t.len()) == t
}

proof fn lemma_stands_parts(s: Seq<char>, i: int, a: Seq<char>, b: Seq<char>)
    requires
        stands(s, i, a + b),
    ensures
        stands(s, i, a),
        stands(s, i + a.len(), b),
{
    let w = s.subrange(i, i + (a + b).len());
    assert(s.subrange(i, i + a.len()) =~= w.subrange(0, a.len() as int));
    assert(w.subrange(0, a.len() as int) =~= a);
    assert(s.subrange(i + a.len(), i + a.len() + b.len()) =~= w.subrange(
        a.len() as int,
        (a + b).len() as int,
    ));
    assert(w.subrange(a.len() as int, (a + b).len() as int) =~= b);
}

proof fn lemma_stands_char(s: Seq<char>, i: int, c: char)
    ensures
        stands(s, i, seq![c]) == at(s, i, c),
{
    if stands(s, i, seq![c]) {
        assert(s.subrange(i, i + 1)[0] == s[i]);
    }
    if at(s, i, c) {
        assert(s.subrange(i, i + 1) =~= seq![c]);
    }
}

proof fn lemma_escaped_first(t: Seq<char>)
    requires
        t.len() > 0,
    ensures
        escaped(t) == escaped_char(t[0]) + escaped(t.drop_first()),
    decreases t.len(),
{
    if t.len() == 1 {
        assert(t.drop_last() =~= Seq::<char>::empty());
        assert(t.drop_first() =~= Seq::<char>::empty());
        assert(escaped(t.drop_last()) =~= Seq::<char>::empty());
        assert(escaped(t) =~= escaped_char(t[0]) + escaped(t.drop_first()));
    } else {
        lemma_escaped_first(t.drop_last());
        assert(t.drop_last().drop_first() =~= t.drop_first().drop_last());
        assert(escaped(t) =~= escaped_char(t[0]) + escaped(t.drop_first()));
    }
}

/// A control character's escape reads back as the character.
proof fn lemma_control_escape(s: Seq<char>, i: int, c: char)
    requires
        (c as u32) < 0x20,
        stands(
            s,
            i,
            seq![
                '\\',
                'u',
                '0',
                '0',
                text::digit_char((c as u32 / 16) as nat),
                text::digit_char((c as u32 % 16) as nat),
            ],
        ),
    ensures
        unicode_escape(s, i + 1) == Ok::<(char, int), Seq<char>>((c, i + 6)),
{
    let code = c as u32;
    let high = text::digit_char((code / 16) as nat);
    let low = text::digit_char((code % 16) as nat);
    let w = s.subrange(i, i + 6);
    let d = s.subrange(i + 2, i + 6);
    assert(d[0] == w[2] && d[1] == w[3] && d[2] == w[4] && d[3] == w[5]);
    assert(d =~= seq!['0', '0', high, low]);
    lemma_utf8_len(s.skip(i + 2));
    assert(text::digit_value(high, 16) == Some((code / 16) as nat));
    assert(text::digit_value(low, 16) == Some((code % 16) as nat));
    let d1 = d.drop_last();
    let d2 = d1.drop_last();
    let d3 = d2.drop_last();
    assert(d3.drop_last() =~= Seq::<char>::empty());
    assert(text::digits_value(d3.drop_last(), 16) == Some(0nat));
    assert(text::digits_value(d3, 16) == Some(0nat));
    assert(text::digits_value(d2, 16) == Some(0nat));
    assert(text::digits_value(d1, 16) == Some((code / 16) as nat));
    assert(text::digits_value(d, 16) == Some(code as nat));
    char_is_scalar(c);
    char_u32_cast(c, code);
    assert((code as nat) as u32 == code);
}

/// One escaped character reads back as the character.
proof fn lemma_char_reads_back(s: Seq<char>, i: int, c: char, out: Seq<char>)
    requires
        stands(s, i, escaped_char(c)),
    ensures
        chars_from(s, i, out) == chars_from(s, i + escaped_char(c).len(), out.push(c)),
{
    let e = escaped_char(c);
    let w = s.subrange(i, i + e.len());
    assert(s[i] == w[0]);
    if e.len() > 1 {
        assert(s[i + 1] == w[1]);
    }
    if e.len() == 6 {
        lemma_control_escape(s, i, c);
    }
}

/// An escaped text and its closing quote read back as the text.
proof fn lemma_chars_read_back(s: Seq<char>, i: int, t: Seq<char>, out: Seq<char>)
    requires
        stands(s, i, escaped(t) + seq!['"']),
    ensures
        chars_from(s, i, out) == Ok::<(Seq<char>, int), Seq<char>>(
            (out + t, i + escaped(t).len() + 1),
        ),
    decreases t.len(),
{
    if t.len() == 0 {
        assert(escaped(t) + seq!['"'] =~= seq!['"']);
        lemma_stands_char(s, i, '"');
        assert(out + t =~= out);
    } else {
        let rest = t.drop_first();
        let e = escaped_char(t[0]);
        lemma_escaped_first(t);
        assert(escaped(t) + seq!['"'] =~= e + (escaped(rest) + seq!['"']));
        lemma_stands_parts(s, i, e, escaped(rest) + seq!['"']);
        lemma_char_reads_back(s, i, t[0], out);
        lemma_chars_read_back(s, i + e.len(), rest, out.push(t[0]));
        assert(out.push(t[0]) + rest =~= out + t);
    }
}

/// A string literal reads back as the text.
proof fn lemma_string_reads_back(s: Seq<char>, i: int, t: Seq<char>)
    requires
        stands(s, i, quoted(t)),
    ensures
        at(s, i, '"'),
        string_at(s, i) == Ok::<(Seq<char>, int), Seq<char>>((t, i + quoted(t).len())),
{
    assert(quoted(t) =~= seq!['"'] + (escaped(t) + seq!['"']));
    lemma_stands_parts(s, i, seq!['"'], escaped(t) + seq!['"']);
    lemma_stands_char(s, i, '"');
    lemma_chars_read_back(s, i + 1, t, seq![]);
    assert(Seq::<char>::empty() + t =~= t);
}

/// No numeral goes on at `i`.
spec fn numeral_stops(s: Seq<char>, i: int) -> bool {
    i >= s.len() || !numeral_char(s[i])
}

proof fn lemma_numeral_end(s: Seq<char>, i: int, j: int)
    requires
        0 <= i <= j <= s.len(),
        forall|k: int| i <= k < j ==> numeral_char(#[trigger] s[k]),
        numeral_stops(s, j),
    ensures
        numeral_end(s, i) == j,
    decreases j - i,
{
    if i < j {
        lemma_numeral_end(s, i + 1, j);
    }
}

proof fn lemma_number_reads_back(s: Seq<char>, i: int, n: Number)
    requires
        n.finite(),
        n.bits != 0x8000_0000_0000_0000,
        stands(s, i, number::display(n)),
        numeral_stops(s, i + number::display(n).len()),
    ensures
        number_at(s, i) == Ok::<(ValueView, int), Seq<char>>(
            (ValueView::Number(n), i + number::display(n).len()),
        ),
{
    let t = number::display(n);
    let j = i + t.len();
    number::law_display_reads_back(n);
    number::law_display_is_a_numeral(n);
    assert forall|k: int| i <= k < j implies numeral_char(#[trigger] s[k]) by {
        assert(s.subrange(i, j)[k - i] == s[k]);
        assert(t[k - i] == s[k]);
    }
    lemma_numeral_end(s, i, j);
}

/// Serialized text is not empty, and tells by its first character what it
/// holds.
proof fn lemma_serialized_first(v: ValueView)
    requires
        writable(v),
    ensures
        serialized(v).len() > 0,
        ({
            let c = serialized(v)[0];
            match v {
                ValueView::Null => c == 'n',
                ValueView::Bool(b) => c == if b {
                    't'
                } else {
                    'f'
                },
                ValueView::Number(_) => c == '-' || text::ascii_digit(c),
                ValueView::String(_) => c == '"',
                ValueView::Array(_) => c == '[',
                ValueView::Object(_) => c == '{',
            }
        }),
{
    reveal_strlit("null");
    reveal_strlit("true");
    reveal_strlit("false");
    match v {
        ValueView::Number(n) => {
            number::law_display_is_a_numeral(n);
        },
        _ => {},
    }
}

/// The items from `n` on, separated by commas.
spec fn items_tail(items: Seq<ValueView>, n: int) -> Seq<char>
    decreases items.len() - n,
{
    if n < 0 || n >= items.len() {
        seq![]
    } else if n + 1 == items.len() {
        serialized(items[n])
    } else {
        serialized(items[n]) + (seq![','] + items_tail(items, n + 1))
    }
}

proof fn lemma_items_tail(items: Seq<ValueView>, n: int)
    requires
        0 <= n < items.len(),
    ensures
        serialized_items(items, items.len()) == serialized_items(items, n as nat) + (if n == 0 {
            seq![]
        } else {
            seq![',']
        }) + items_tail(items, n),
    decreases items.len() - n,
{
    let a = serialized_items(items, n as nat);
    let b = serialized_items(items, (n + 1) as nat);
    if n == 0 {
        assert(b =~= a + serialized(items[n]));
    }
    if n + 1 == items.len() {
        assert(b =~= a + (if n == 0 {
            seq![]
        } else {
            seq![',']
        }) + items_tail(items, n));
    } else {
        lemma_items_tail(items, n + 1);
        assert(b + seq![','] + items_tail(items, n + 1) =~= a + (if n == 0 {
            seq![]
        } else {
            seq![',']
        }) + items_tail(items, n));
    }
}

/// The members from `n` on, separated by commas.
spec fn members_tail(members: Seq<(Seq<char>, ValueView)>, n: int) -> Seq<char>
    decreases members.len() - n,
{
    if n < 0 || n >= members.len() {
        seq![]
    } else if n + 1 == members.len() {
        serialized_member(members[n])
    } else {
        serialized_member(members[n]) + (seq![','] + members_tail(members, n + 1))
    }
}

proof fn lemma_members_tail(members: Seq<(Seq<char>, ValueView)>, n: int)
    requires
        0 <= n < members.len(),
    ensures
        serialized_members(members, members.len()) == serialized_members(members, n as nat) + (
        if n == 0 {
            seq![]
        } else {
            seq![',']
        }) + members_tail(members, n),
    decreases members.len() - n,
{
    let a = serialized_members(members, n as nat);
    let b = serialized_members(members, (n + 1) as nat);
    if n == 0 {
        assert(b =~= a + serialized_member(members[n]));
    }
    if n + 1 == members.len() {
        assert(b =~= a + (if n == 0 {
            seq![]
        } else {
            seq![',']
        }) + members_tail(members, n));
    } else {
        lemma_members_tail(members, n + 1);
        assert(b + seq![','] + members_tail(members, n + 1) =~= a + (if n == 0 {
            seq![]
        } else {
            seq![',']
        }) + members_tail(members, n));
    }
}

proof fn lemma_keyword_reads_back(s: Seq<char>, i: int, word: Seq<char>, v: ValueView)
    requires
        stands(s, i, word),
    ensures
        keyword(s, i, word, v) == Ok::<(ValueView, int), Seq<char>>((v, i + word.len())),
{
    assert(s.skip(i).take(word.len() as int) =~= s.subrange(i, i + word.len()));
}

/// The text of a value reads back as the value, wherever it stands, unless a
/// numeral goes on behind it.
proof fn lemma_value_reads_back(s: Seq<char>, i: int, v: ValueView)
    requires
        ordered(v),
        writable(v),
        stands(s, i, serialized(v)),
        numeral_stops(s, i + serialized(v).len()),
    ensures
        value_at(s, i) == Ok::<(ValueView, int), Seq<char>>((v, i + serialized(v).len())),
    decreases v, 1int,
{
    let t = serialized(v);
    lemma_serialized_first(v);
    assert(s[i] == s.subrange(i, i + t.len())[0]);
    assert(skip_blank(s, i) == i);
    match v {
        ValueView::Null => lemma_keyword_reads_back(s, i, "null"@, v),
        ValueView::Bool(true) => lemma_keyword_reads_back(s, i, "true"@, v),
        ValueView::Bool(false) => lemma_keyword_reads_back(s, i, "false"@, v),
        ValueView::Number(n) => lemma_number_reads_back(s, i, n),
        ValueView::String(x) => lemma_string_reads_back(s, i, x),
        ValueView::Array(_) => lemma_array_reads_back(s, i, v),
        ValueView::Object(_) => lemma_object_reads_back(s, i, v),
    }
}

/// The text of an array reads back.
proof fn lemma_array_reads_back(s: Seq<char>, i: int, v: ValueView)
    requires
        v is Array,
        ordered(v),
        writable(v),
        stands(s, i, serialized(v)),
        at(s, i, '['),
    ensures
        value_at(s, i) == Ok::<(ValueView, int), Seq<char>>((v, i + serialized(v).len())),
    decreases v, 0int,
{
    let items = v->Array_0;
    let t = serialized(v);
    assert(skip_blank(s, i) == i);
    let inner = serialized_items(items, items.len());
    assert(t =~= seq!['['] + (inner + seq![']']));
    lemma_stands_parts(s, i, seq!['['], inner + seq![']']);
    if items.len() == 0 {
        assert(inner + seq![']'] =~= seq![']']);
        lemma_stands_char(s, i + 1, ']');
        assert(skip_blank(s, i + 1) == i + 1);
        assert(items =~= seq![]);
    } else {
        lemma_items_tail(items, 0);
        assert(inner =~= items_tail(items, 0));
        assert(writable(v->Array_0[0]));
        lemma_serialized_first(items[0]);
        lemma_stands_parts(s, i + 1, inner, seq![']']);
        assert(items_tail(items, 0)[0] == serialized(items[0])[0]);
        assert(s[i + 1] == s.subrange(i + 1, i + 1 + inner.len())[0]);
        assert(skip_blank(s, i + 1) == i + 1);
        lemma_items_read_back(s, i + 1, items, 0);
        assert(items.take(0) =~= seq![]);
    }
}

/// The text of an object reads back.
proof fn lemma_object_reads_back(s: Seq<char>, i: int, v: ValueView)
    requires
        v is Object,
        ordered(v),
        writable(v),
        stands(s, i, serialized(v)),
        at(s, i, '{'),
    ensures
        value_at(s, i) == Ok::<(ValueView, int), Seq<char>>((v, i + serialized(v).len())),
    decreases v, 0int,
{
    let members = v->Object_0;
    let t = serialized(v);
    assert(skip_blank(s, i) == i);
    let inner = serialized_members(members, members.len());
    assert(t =~= seq!['{'] + (inner + seq!['}']));
    lemma_stands_parts(s, i, seq!['{'], inner + seq!['}']);
    if members.len() == 0 {
        assert(inner + seq!['}'] =~= seq!['}']);
        lemma_stands_char(s, i + 1, '}');
        assert(skip_blank(s, i + 1) == i + 1);
        assert(members =~= seq![]);
    } else {
        lemma_members_tail(members, 0);
        assert(inner =~= members_tail(members, 0));
        lemma_stands_parts(s, i + 1, inner, seq!['}']);
        assert(serialized_member(members[0])[0] == '"');
        assert(members_tail(members, 0)[0] == '"');
        assert(s[i + 1] == s.subrange(i + 1, i + 1 + inner.len())[0]);
        assert(skip_blank(s, i + 1) == i + 1);
        lemma_members_read_back(s, i + 1, members, 0);
        assert(members.take(0) =~= seq![]);
    }
}

proof fn lemma_items_read_back(s: Seq<char>, i: int, items: Seq<ValueView>, n: int)
    requires
        ordered(ValueView::Array(items)),
        writable(ValueView::Array(items)),
        0 <= n < items.len(),
        stands(s, i, items_tail(items, n) + seq![']']),
    ensures
        items_from(s, i, items.take(n)) == Ok::<(ValueView, int), Seq<char>>(
            (ValueView::Array(items), i + items_tail(items, n).len() + 1),
        ),
    decreases items, items.len() - n,
{
    let all = ValueView::Array(items);
    assert(ordered(all->Array_0[n]) && writable(all->Array_0[n]));
    let v = items[n];
    let t = serialized(v);
    let j = i + t.len();
    lemma_serialized_first(v);
    if n + 1 == items.len() {
        lemma_stands_parts(s, i, t, seq![']']);
        lemma_stands_char(s, j, ']');
        lemma_value_reads_back(s, i, v);
        assert(skip_blank(s, j) == j);
        assert(items.take(n).push(v) =~= items);
    } else {
        let rest = items_tail(items, n + 1) + seq![']'];
        assert(items_tail(items, n) + seq![']'] =~= t + (seq![','] + rest));
        lemma_stands_parts(s, i, t, seq![','] + rest);
        lemma_stands_parts(s, j, seq![','], rest);
        lemma_stands_char(s, j, ',');
        lemma_value_reads_back(s, i, v);
        assert(skip_blank(s, j) == j);
        lemma_items_read_back(s, j + 1, items, n + 1);
        assert(items.take(n).push(v) =~= items.take(n + 1));
    }
}

/// A member whose key comes after all others goes to the end.
pub(crate) proof fn lemma_put_last(members: Seq<(Seq<char>, ValueView)>, n: int)
    requires
        keys_ordered(members),
        0 <= n < members.len(),
    ensures
        put(members.take(n), members[n].0, members[n].1) == members.take(n + 1),
{
    let before = members.take(n);
    lemma_slot(before, members[n].0, 0);
    let k = slot(before, members[n].0, 0);
    if k < n {
        assert(before[k] == members[k]);
    }
    assert(before.insert(n, members[n]) =~= members.take(n + 1));
}

#[verifier::spinoff_prover]
#[verifier::rlimit(40)]
proof fn lemma_members_read_back(
    s: Seq<char>,
    i: int,
    members: Seq<(Seq<char>, ValueView)>,
    n: int,
)
    requires
        ordered(ValueView::Object(members)),
        writable(ValueView::Object(members)),
        0 <= n < members.len(),
        stands(s, i, members_tail(members, n) + seq!['}']),
    ensures
        members_from(s, i, members.take(n)) == Ok::<(ValueView, int), Seq<char>>(
            (ValueView::Object(members), i + members_tail(members, n).len() + 1),
        ),
    decreases members, members.len() - n,
{
    let all = ValueView::Object(members);
    assert(ordered(all->Object_0[n].1) && writable(all->Object_0[n].1));
    let m = members[n];
    let key = quoted(m.0);
    let t = serialized(m.1);
    let last = n + 1 == members.len();
    let rest = if last {
        seq!['}']
    } else {
        seq![','] + (members_tail(members, n + 1) + seq!['}'])
    };
    assert(members_tail(members, n) + seq!['}'] =~= key + (seq![':'] + (t + rest)));
    lemma_stands_parts(s, i, key, seq![':'] + (t + rest));
    let c = i + key.len();
    lemma_stands_parts(s, c, seq![':'], t + rest);
    lemma_stands_char(s, c, ':');
    lemma_stands_parts(s, c + 1, t, rest);
    lemma_string_reads_back(s, i, m.0);
    assert(skip_blank(s, i) == i);
    assert(skip_blank(s, c) == c);
    let j = c + 1 + t.len();
    lemma_serialized_first(m.1);
    lemma_put_last(members, n);
    assert(decreases_to!(members => members[n]));
    assert(decreases_to!(members[n] => members[n].1));
    if last {
        lemma_stands_char(s, j, '}');
        lemma_value_reads_back(s, c + 1, m.1);
        assert(skip_blank(s, j) == j);
        assert(members.take(n + 1) =~= members);
    } else {
        lemma_stands_parts(s, j, seq![','], members_tail(members, n + 1) + seq!['}']);
        lemma_stands_char(s, j, ',');
        lemma_value_reads_back(s, c + 1, m.1);
        assert(skip_blank(s, j) == j);
        lemma_members_read_back(s, j + 1, members, n + 1);
    }
}

proof fn lemma_serialized_parses_back(v: ValueView)
    requires
        ordered(v),
        writable(v),
    ensures
        parsed(serialized(v)) == Ok::<ValueView, Seq<char>>(v),
{
    let s = serialized(v);
    assert(s.subrange(0, s.len() as int) =~= s);
    lemma_serialized_first(v);
    assert(skip_blank(s, 0) == 0);
    lemma_value_reads_back(s, 0, v);
}

/// `w` has the text of `v`, is like it, and holds no negative zero.
spec fn twins(w: ValueView, v: ValueView) -> bool {
    &&& serialized(w) == serialized(v)
    &&& ordered(w)
    &&& writable(w)
    &&& alike(w, v)
    &&& writable(v) ==> w == v
}

proof fn lemma_same_items(a: Seq<ValueView>, b: Seq<ValueView>, n: nat)
    requires
        a.len() == b.len(),
        forall|i: int| 0 <= i < a.len() ==> serialized(#[trigger] a[i]) == serialized(b[i]),
    ensures
        serialized_items(a, n) == serialized_items(b, n),
    decreases n,
{
    if 0 < n <= a.len() {
        assert(serialized(a[n - 1]) == serialized(b[n - 1]));
        lemma_same_items(a, b, (n - 1) as nat);
    }
}

proof fn lemma_same_members(
    a: Seq<(Seq<char>, ValueView)>,
    b: Seq<(Seq<char>, ValueView)>,
    n: nat,
)
    requires
        a.len() == b.len(),
        forall|i: int|
            0 <= i < a.len() ==> (#[trigger] a[i]).0 == b[i].0 && serialized(a[i].1) == serialized(
                b[i].1,
            ),
    ensures
        serialized_members(a, n) == serialized_members(b, n),
    decreases n,
{
    if 0 < n <= a.len() {
        assert(a[n - 1].0 == b[n - 1].0);
        assert(serialized_member(a[n - 1]) == serialized_member(b[n - 1]));
        lemma_same_members(a, b, (n - 1) as nat);
    }
}

/// The twins of the first `n` items.
proof fn lemma_item_twins(items: Seq<ValueView>, n: nat) -> (r: Seq<ValueView>)
    requires
        ordered(ValueView::Array(items)),
        finite(ValueView::Array(items)),
        n <= items.len(),
    ensures
        r.len() == n,
        forall|i: int| 0 <= i < n ==> twins(#[trigger] r[i], items[i]),
    decreases items, n,
{
    if n == 0 {
        seq![]
    } else {
        let all = ValueView::Array(items);
        assert(ordered(all->Array_0[n - 1]) && finite(all->Array_0[n - 1]));
        let before = lemma_item_twins(items, (n - 1) as nat);
        assert(decreases_to!(items => items[n - 1]));
        let last = lemma_twin(items[n - 1]);
        before.push(last)
    }
}

/// The twins of the first `n` members.
proof fn lemma_member_twins(members: Seq<(Seq<char>, ValueView)>, n: nat) -> (r: Seq<
    (Seq<char>, ValueView),
>)
    requires
        ordered(ValueView::Object(members)),
        finite(ValueView::Object(members)),
        n <= members.len(),
    ensures
        r.len() == n,
        forall|i: int|
            0 <= i < n ==> (#[trigger] r[i]).0 == members[i].0 && twins(r[i].1, members[i].1),
    decreases members, n,
{
    if n == 0 {
        seq![]
    } else {
        let all = ValueView::Object(members);
        assert(ordered(all->Object_0[n - 1].1) && finite(all->Object_0[n - 1].1));
        let before = lemma_member_twins(members, (n - 1) as nat);
        assert(decreases_to!(members => members[n - 1]));
        assert(decreases_to!(members[n - 1] => members[n - 1].1));
        let last = lemma_twin(members[n - 1].1);
        before.push((members[n - 1].0, last))
    }
}

/// Every value with finite numbers has a twin.
proof fn lemma_twin(v: ValueView) -> (w: ValueView)
    requires
        ordered(v),
        finite(v),
    ensures
        twins(w, v),
    decreases v, 0nat,
{
    match v {
        ValueView::Number(x) => {
            if x.bits == 0x8000_0000_0000_0000 {
                number::lemma_negative_zero(x);
                ValueView::Number(number::zero(false))
            } else {
                v
            }
        },
        ValueView::Array(items) => {
            assert(decreases_to!(v => items));
            let other = lemma_item_twins(items, items.len());
            let w = ValueView::Array(other);
            lemma_same_items(other, items, items.len());
            assert(ordered(w) && writable(w) && alike(w, v)) by {
                assert forall|i: int| 0 <= i < other.len() implies ordered(#[trigger] other[i])
                    && writable(other[i]) && alike(other[i], items[i]) by {
                    assert(twins(other[i], items[i]));
                }
            }
            if writable(v) {
                assert forall|i: int| 0 <= i < other.len() implies other[i] == items[i] by {
                    assert(twins(other[i], items[i]));
                    assert(writable(v->Array_0[i]));
                }
                assert(other =~= items);
            }
            w
        },
        ValueView::Object(members) => {
            assert(decreases_to!(v => members));
            let other = lemma_member_twins(members, members.len());
            let w = ValueView::Object(other);
            lemma_same_members(other, members, members.len());
            assert(keys_ordered(other));
            assert(ordered(w) && writable(w) && alike(w, v)) by {
                assert forall|i: int| 0 <= i < other.len() implies ordered(
                    (#[trigger] other[i]).1,
                ) && writable(other[i].1) && other[i].0 == members[i].0 && alike(
                    other[i].1,
                    members[i].1,
                ) by {
                    assert(twins(other[i].1, members[i].1));
                }
            }
            if writable(v) {
                assert forall|i: int| 0 <= i < other.len() implies other[i] == members[i] by {
                    assert(twins(other[i].1, members[i].1));
                    assert(writable(v->Object_0[i].1));
                }
                assert(other =~= members);
            }
            w
        },
        _ => v,
    }
}

/// What is written reads back: the text of a value whose object keys are in
/// order and whose numbers are finite parses to a value like it, and but for
/// the sign of a zero to that very value.
pub proof fn law_serialized_parses_back(v: ValueView)
    requires
        ordered(v),
        finite(v),
    ensures
        parsed(serialized(v)) matches Ok(w) && alike(w, v),
        writable(v) ==> parsed(serialized(v)) == Ok::<ValueView, Seq<char>>(v),
{
    let w = lemma_twin(v);
    lemma_serialized_parses_back(w);
}

} // verus!
