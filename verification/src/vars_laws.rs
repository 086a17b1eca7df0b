//! What comes of placeholders.

use crate::calendar;
use crate::files::FileView;
use crate::json;
use crate::json::ValueView;
use crate::random;
use crate::text;
use crate::text_laws;
use crate::vars;
use crate::vars::{Draw, VarsView};
use vstd::prelude::*;

verus! {

/// A piece of text and the placeholder behind it, with white space around its
/// name.
pub struct Slot {
    pub before: Seq<char>,
    pub left: Seq<char>,
    pub name: Seq<char>,
    pub right: Seq<char>,
}

/// Text in which no brace pair opens, not even with a brace behind it.
pub open spec fn closed_text(s: Seq<char>) -> bool {
    &&& forall|k: int| 0 <= k && k + 1 < s.len() ==> !(#[trigger] s[k] == '{' && s[k + 1] == '{')
    &&& s.len() > 0 ==> s.last() != '{'
}

/// Text in which no brace pair opens.
pub open spec fn last_text(s: Seq<char>) -> bool {
    forall|k: int| 0 <= k && k + 1 < s.len() ==> !(#[trigger] s[k] == '{' && s[k + 1] == '{')
}

/// A slot that is read as it is meant.
pub open spec fn plain_slot(p: Slot) -> bool {
    &&& closed_text(p.before)
    &&& text_laws::white(p.left)
    &&& text_laws::white(p.right)
    &&& text_laws::flush(p.name)
    &&& forall|k: int| 0 <= k < p.name.len() ==> #[trigger] p.name[k] != '}'
}

/// The text of a slot.
pub open spec fn slot_text(p: Slot) -> Seq<char> {
    p.before + seq!['{', '{'] + (p.left + p.name + p.right) + seq!['}', '}']
}

/// The text of slots and what follows them.
pub open spec fn template(slots: Seq<Slot>, end: Seq<char>) -> Seq<char>
    decreases slots.len(),
{
    if slots.len() == 0 {
        end
    } else {
        slot_text(slots[0]) + template(slots.drop_first(), end)
    }
}

/// What stands in the place of a name.
pub open spec fn filled(v: VarsView, name: Seq<char>) -> Seq<char> {
    match v.lookup(name) {
        Some(value) => value,
        None => seq!['{', '{'] + name + seq!['}', '}'],
    }
}

/// The pieces and what stands in the places of the names, in order.
pub open spec fn filled_template(v: VarsView, slots: Seq<Slot>, end: Seq<char>) -> Seq<char>
    decreases slots.len(),
{
    if slots.len() == 0 {
        end
    } else {
        slots[0].before + filled(v, slots[0].name) + filled_template(v, slots.drop_first(), end)
    }
}

/// The name is not that of a dynamic variable.
pub open spec fn static_name(name: Seq<char>) -> bool {
    name.len() > 0 ==> name[0] != '$'
}

proof fn lemma_open(s: Seq<char>, i: int, p: Slot)
    requires
        0 <= i,
        i + slot_text(p).len() <= s.len(),
        s.subrange(i, i + slot_text(p).len()) == slot_text(p),
        plain_slot(p),
    ensures
        ({
            let a = i + p.before.len();
            let b = a + 2 + p.left.len() + p.name.len() + p.right.len();
            &&& text::find(s, "{{"@, i) == Some(a as int)
            &&& text::find(s, "}}"@, a + 2) == Some(b as int)
            &&& text::trimmed(s.subrange(a + 2, b as int)) == p.name
            &&& s.subrange(i, a as int) == p.before
            &&& b + 2 == i + slot_text(p).len()
        }),
{
    reveal_strlit("{{");
    reveal_strlit("}}");
    let t = slot_text(p);
    let n = p.before.len() as int;
    let inner = p.left + p.name + p.right;
    let m = inner.len() as int;
    let a = i + n;
    let b = a + 2 + m;
    assert forall|k: int| 0 <= k < t.len() implies s[i + k] == #[trigger] t[k] by {
        assert(s.subrange(i, i + t.len())[k] == s[i + k]);
    }
    assert(t[n] == '{' && t[n + 1] == '{');
    assert(text_laws::occurs(s, "{{"@, a)) by {
        assert(s[i + n] == t[n] && s[i + (n + 1)] == t[n + 1]);
    }
    assert forall|k: int| i <= k < a implies !#[trigger] text_laws::occurs(s, "{{"@, k) by {
        let j = k - i;
        assert(s[i + j] == t[j] && s[i + (j + 1)] == t[j + 1]);
        assert(t[j] == p.before[j]);
        if text_laws::occurs(s, "{{"@, k) {
            assert("{{"@[0] == s[k + 0] && "{{"@[1] == s[k + 1]);
            if j + 1 < n {
                assert(t[j + 1] == p.before[j + 1]);
            } else {
                assert(p.before[j] == p.before.last());
            }
        }
    }
    text_laws::lemma_find_at(s, "{{"@, i, a);
    assert(t[n + 2 + m] == '}' && t[n + 3 + m] == '}');
    assert(text_laws::occurs(s, "}}"@, b)) by {
        assert(s[i + (n + 2 + m)] == t[n + 2 + m] && s[i + (n + 3 + m)] == t[n + 3 + m]);
    }
    assert forall|k: int| a + 2 <= k < b implies !#[trigger] text_laws::occurs(s, "}}"@, k) by {
        let j = k - i;
        assert(s[i + j] == t[j]);
        let q = j - n - 2;
        assert(t[j] == inner[q]);
        if text_laws::occurs(s, "}}"@, k) {
            assert("}}"@[0] == s[k + 0]);
            if q < p.left.len() {
                assert(inner[q] == p.left[q]);
                assert(text::whitespace(p.left[q]));
            } else if q < p.left.len() + p.name.len() {
                assert(inner[q] == p.name[q - p.left.len()]);
            } else {
                let r = q - p.left.len() - p.name.len();
                assert(inner[q] == p.right[r]);
                assert(text::whitespace(p.right[r]));
            }
        }
    }
    text_laws::lemma_find_at(s, "}}"@, a + 2, b);
    assert(s.subrange(a + 2, b) =~= inner) by {
        assert forall|k: int| 0 <= k < m implies s[a + 2 + k] == inner[k] by {
            assert(s[i + (n + 2 + k)] == t[n + 2 + k]);
        }
    }
    text_laws::law_trimmed(p.left, p.name, p.right);
    assert(s.subrange(i, a) =~= p.before) by {
        assert forall|k: int| 0 <= k < n implies s[i + k] == p.before[k] by {
            assert(s[i + k] == t[k]);
        }
    }
}

proof fn lemma_static(v: VarsView, name: Seq<char>, lenient: bool, clock: Seq<u64>)
    requires
        static_name(name),
        lenient || v.lookup(name) is Some,
    ensures
        vars::placeholder_value(v, name, lenient, clock) == (Draw {
            result: Ok(filled(v, name)),
            vars: v,
        }),
{
    reveal_strlit("$");
    reveal_strlit("{{");
    reveal_strlit("}}");
    if text::starts(name, "$"@) {
        assert(name.take(1)[0] == '$');
    }
    assert("{{"@ =~= seq!['{', '{']);
    assert("}}"@ =~= seq!['}', '}']);
}

proof fn lemma_template(
    v: VarsView,
    s: Seq<char>,
    i: int,
    out: Seq<char>,
    slots: Seq<Slot>,
    end: Seq<char>,
    lenient: bool,
    clock: Seq<u64>,
)
    requires
        0 <= i <= s.len(),
        s.skip(i) == template(slots, end),
        forall|k: int|
            0 <= k < slots.len() ==> plain_slot(#[trigger] slots[k]) && static_name(slots[k].name)
                && (lenient || v.lookup(slots[k].name) is Some),
        last_text(end),
    ensures
        vars::replaced_from(v, s, i, out, lenient, clock) == (Draw {
            result: Ok(out + filled_template(v, slots, end)),
            vars: v,
        }),
    decreases slots.len(),
{
    if slots.len() == 0 {
        reveal_strlit("{{");
        assert forall|k: int| i <= k implies !#[trigger] text_laws::occurs(s, "{{"@, k) by {
            if text_laws::occurs(s, "{{"@, k) {
                assert("{{"@[0] == s[k + 0] && "{{"@[1] == s[k + 1]);
                assert(s[k] == s.skip(i)[k - i] && s[k + 1] == s.skip(i)[k - i + 1]);
                assert(end[k - i] == '{' && end[k - i + 1] == '{');
            }
        }
        text_laws::lemma_find_none(s, "{{"@, i);
    } else {
        let p = slots[0];
        let rest = slots.drop_first();
        let t = slot_text(p);
        let n = t.len() as int;
        let all = s.skip(i);
        assert(plain_slot(slots[0]));
        assert(all.len() >= n);
        assert(s.subrange(i, i + n) =~= all.subrange(0, n));
        assert(all.subrange(0, n) =~= t);
        lemma_open(s, i, p);
        lemma_static(v, p.name, lenient, clock);
        assert(s.skip(i + n) =~= all.skip(n));
        assert(all.skip(n) =~= template(rest, end));
        assert forall|k: int| 0 <= k < rest.len() implies plain_slot(#[trigger] rest[k])
            && static_name(rest[k].name) && (lenient || v.lookup(rest[k].name) is Some) by {
            assert(rest[k] == slots[k + 1]);
        }
        let more = out + p.before + filled(v, p.name);
        lemma_template(v, s, i + n, more, rest, end, lenient, clock);
        assert(out + filled_template(v, slots, end) =~= more + filled_template(v, rest, end));
        reveal_strlit("{{");
        reveal_strlit("}}");
        text::lemma_find_bounds(s, "{{"@, i);
        text::lemma_find_bounds(s, "}}"@, i + p.before.len() + 2);
    }
}

/// Every placeholder is replaced by the value of its variable, whole and as it
/// stands, and the text between them stays. Where substitution is lenient, a
/// name without a value stays too.
pub proof fn law_placeholders_are_filled(
    v: VarsView,
    slots: Seq<Slot>,
    end: Seq<char>,
    lenient: bool,
    clock: Seq<u64>,
)
    requires
        forall|k: int|
            0 <= k < slots.len() ==> plain_slot(#[trigger] slots[k]) && static_name(slots[k].name)
                && (lenient || v.lookup(slots[k].name) is Some),
        last_text(end),
    ensures
        vars::replaced(v, template(slots, end), lenient, clock) == (Draw {
            result: Ok(filled_template(v, slots, end)),
            vars: v,
        }),
{
    reveal(vars::replaced);
    let s = template(slots, end);
    assert(s.skip(0) =~= s);
    lemma_template(v, s, 0, seq![], slots, end, lenient, clock);
    assert(Seq::<char>::empty() + filled_template(v, slots, end) =~= filled_template(
        v,
        slots,
        end,
    ));
}

/// One placeholder between two texts.
pub proof fn law_one_placeholder(
    v: VarsView,
    a: Seq<char>,
    name: Seq<char>,
    b: Seq<char>,
    value: Seq<char>,
    lenient: bool,
    clock: Seq<u64>,
)
    requires
        closed_text(a),
        last_text(b),
        static_name(name),
        text_laws::flush(name),
        forall|k: int| 0 <= k < name.len() ==> #[trigger] name[k] != '}',
        v.lookup(name) == Some(value),
    ensures
        vars::replaced(
            v,
            a + seq!['{', '{'] + name + seq!['}', '}'] + b,
            lenient,
            clock,
        ) == (Draw { result: Ok(a + value + b), vars: v }),
{
    let e = Seq::<char>::empty();
    let p = Slot { before: a, left: e, name, right: e };
    let slots = seq![p];
    assert(plain_slot(p));
    law_placeholders_are_filled(v, slots, b, lenient, clock);
    assert(slots.drop_first() =~= Seq::<Slot>::empty());
    assert(template(slots.drop_first(), b) == b);
    assert(filled_template(v, slots.drop_first(), b) == b);
    assert(template(slots, b) =~= a + seq!['{', '{'] + name + seq!['}', '}'] + b);
    assert(filled_template(v, slots, b) =~= a + value + b);
}

/// A dynamic variable in a text: what it gives stands in its place, and a
/// failure is the failure of the whole.
pub proof fn law_one_dynamic(
    v: VarsView,
    a: Seq<char>,
    name: Seq<char>,
    b: Seq<char>,
    lenient: bool,
    clock: Seq<u64>,
)
    requires
        closed_text(a),
        last_text(b),
        name.len() > 0,
        text_laws::flush(name),
        forall|k: int| 0 <= k < name.len() ==> #[trigger] name[k] != '}',
    ensures
        ({
            let d = vars::dynamic_value(v, name, clock);
            let r = vars::replaced(
                v,
                a + seq!['{', '{', '$'] + name + seq!['}', '}'] + b,
                lenient,
                clock,
            );
            &&& r.vars == d.vars
            &&& r.result == match d.result {
                Ok(t) => Ok::<Seq<char>, Seq<char>>(a + t + b),
                Err(e) => Err(e),
            }
        }),
{
    reveal(vars::replaced);
    let e = Seq::<char>::empty();
    let full = seq!['$'] + name;
    let p = Slot { before: a, left: e, name: full, right: e };
    assert(full.last() == name.last());
    assert(plain_slot(p)) by {
        assert forall|k: int| 0 <= k < full.len() implies #[trigger] full[k] != '}' by {
            if k > 0 {
                assert(full[k] == name[k - 1]);
            }
        }
    }
    let s = a + seq!['{', '{', '$'] + name + seq!['}', '}'] + b;
    let t = slot_text(p);
    let n = t.len() as int;
    assert(s =~= t + b);
    assert(s.subrange(0, n) =~= t);
    lemma_open(s, 0, p);
    reveal_strlit("$");
    reveal_strlit("{{");
    reveal_strlit("}}");
    assert(full.take(1) =~= "$"@);
    assert(full.skip(1) =~= name);
    text::lemma_find_bounds(s, "{{"@, 0);
    text::lemma_find_bounds(s, "}}"@, a.len() as int + 2);
    let d = vars::dynamic_value(v, name, clock);
    assert(vars::placeholder_value(v, full, lenient, clock) == d);
    if let Ok(u) = d.result {
        let more = e + a + u;
        assert(s.skip(n) =~= b);
        lemma_template(d.vars, s, n, more, seq![], b, lenient, clock);
        assert(more + filled_template(d.vars, seq![], b) =~= a + u + b);
        assert(e + s.subrange(0, a.len() as int) + u =~= more);
    }
}

/// `timestamp` is the time in seconds, `isoTimestamp` the same time as a date,
/// and `env.NAME` a variable of the process, which must be set.
pub proof fn law_dynamic_values(v: VarsView, clock: Seq<u64>, name: Seq<char>)
    ensures
        ({
            let t = clock[v.readings.len() as int];
            let w = VarsView { readings: v.readings.push(t), ..v };
            &&& vars::dynamic_value(v, "timestamp"@, clock) == (Draw {
                result: Ok(text::decimal(t as nat)),
                vars: w,
            })
            &&& vars::dynamic_value(v, "isoTimestamp"@, clock) == (Draw {
                result: Ok(calendar::iso_text(t)),
                vars: w,
            })
        }),
        ({
            let d = vars::dynamic_value(v, "env."@ + name, clock);
            &&& d.vars == v
            &&& if v.process_env.contains_key(name) {
                d.result == Ok::<Seq<char>, Seq<char>>(v.process_env[name])
            } else {
                d.result is Err
            }
        }),
{
    reveal(vars::dynamic_value);
    reveal_strlit("uuid");
    reveal_strlit("random.uuid");
    reveal_strlit("timestamp");
    reveal_strlit("isoTimestamp");
    reveal_strlit("randomInt");
    reveal_strlit("env.");
    let full = "env."@ + name;
    assert(full[0] == 'e');
    assert(full.take(4) =~= "env."@);
    assert(full.skip(4) =~= name);
    assert("timestamp"@[0] == 't' && "isoTimestamp"@[0] == 'i' && "uuid"@[0] == 'u'
        && "random.uuid"@[0] == 'r' && "randomInt"@[0] == 'r');
}

/// A brace pair that is not closed is a failure.
pub proof fn law_unclosed_placeholder_fails(
    v: VarsView,
    a: Seq<char>,
    b: Seq<char>,
    lenient: bool,
    clock: Seq<u64>,
)
    requires
        closed_text(a),
        forall|k: int| 0 <= k && k + 1 < b.len() ==> !(#[trigger] b[k] == '}' && b[k + 1] == '}'),
    ensures
        vars::replaced(v, a + seq!['{', '{'] + b, lenient, clock).result is Err,
{
    reveal(vars::replaced);
    reveal_strlit("{{");
    reveal_strlit("}}");
    let s = a + seq!['{', '{'] + b;
    let n = a.len() as int;
    assert(text_laws::occurs(s, "{{"@, n)) by {
        assert(s[n] == '{' && s[n + 1] == '{');
    }
    assert forall|k: int| 0 <= k < n implies !#[trigger] text_laws::occurs(s, "{{"@, k) by {
        if text_laws::occurs(s, "{{"@, k) {
            assert("{{"@[0] == s[k + 0] && "{{"@[1] == s[k + 1]);
            assert(s[k] == a[k]);
            if k + 1 < n {
                assert(s[k + 1] == a[k + 1]);
            } else {
                assert(a[k] == a.last());
            }
        }
    }
    text_laws::lemma_find_at(s, "{{"@, 0, n);
    assert forall|k: int| n + 2 <= k implies !#[trigger] text_laws::occurs(s, "}}"@, k) by {
        if text_laws::occurs(s, "}}"@, k) {
            assert("}}"@[0] == s[k + 0] && "}}"@[1] == s[k + 1]);
            assert(s[k] == b[k - n - 2] && s[k + 1] == b[k - n - 2 + 1]);
        }
    }
    text_laws::lemma_find_none(s, "}}"@, n + 2);
}

/// File variables are declared in order: each is resolved with those before it,
/// and a later one of the same name wins.
pub proof fn law_file_variables_in_order(
    v: VarsView,
    pairs: Seq<(Seq<char>, Seq<char>)>,
    i: int,
    clock: Seq<u64>,
    value: Seq<char>,
)
    requires
        0 <= i < pairs.len(),
        vars::replaced(v, pairs[i].1, false, clock).result == Ok::<Seq<char>, Seq<char>>(value),
    ensures
        ({
            let w = vars::replaced(v, pairs[i].1, false, clock).vars;
            vars::file_vars_from(v, pairs, i, clock) == vars::file_vars_from(
                VarsView { file_vars: v.file_vars.insert(pairs[i].0, value), ..w },
                pairs,
                i + 1,
                clock,
            )
        }),
        vars::file_vars_from(v, pairs, pairs.len() as int, clock) == (None::<Seq<char>>, v),
{
    vars::law_substitution_keeps_variables(v, pairs[i].1, false, clock);
}

proof fn lemma_env_members(
    table: Map<Seq<char>, Seq<char>>,
    members: Seq<(Seq<char>, ValueView)>,
    i: int,
    key: Seq<char>,
)
    requires
        0 <= i <= members.len(),
        forall|k: int| i <= k < members.len() ==> (#[trigger] members[k]).0 != key,
    ensures
        vars::env_vars_from(table, members, i).get(key) == table.get(key),
    decreases members.len() - i,
{
    if i < members.len() {
        let next = table.insert(members[i].0, members[i].1.shown());
        lemma_env_members(next, members, i + 1, key);
    }
}

proof fn lemma_env_member(
    table: Map<Seq<char>, Seq<char>>,
    members: Seq<(Seq<char>, ValueView)>,
    i: int,
    k: int,
)
    requires
        0 <= i <= k < members.len(),
        forall|j: int| k < j < members.len() ==> (#[trigger] members[j]).0 != members[k].0,
    ensures
        vars::env_vars_from(table, members, i).get(members[k].0) == Some(members[k].1.shown()),
    decreases members.len() - i,
{
    let next = table.insert(members[i].0, members[i].1.shown());
    if i < k {
        lemma_env_member(next, members, i + 1, k);
    } else {
        lemma_env_members(next, members, i + 1, members[k].0);
    }
}

/// Loading an environment sets every member of the object with its name, texts
/// as they stand, and keeps the variables that it does not name; an
/// environment that the file does not have is a failure.
pub proof fn law_environment_loads(
    table: Map<Seq<char>, Seq<char>>,
    path: Seq<char>,
    content: Seq<char>,
    name: Seq<char>,
    envs: Seq<(Seq<char>, ValueView)>,
    e: int,
    members: Seq<(Seq<char>, ValueView)>,
    key: Seq<char>,
)
    requires
        json::parsed(content) == Ok::<ValueView, Seq<char>>(ValueView::Object(envs)),
        0 <= e <= envs.len(),
        forall|j: int| 0 <= j < e ==> (#[trigger] envs[j]).0 != name,
        e < envs.len() ==> envs[e] == (name, ValueView::Object(members)),
        json::keys_ordered(members),
    ensures
        ({
            let file = FileView { path, content: Ok(content) };
            let (failure, after) = vars::env_loaded(table, file, None, name);
            if e == envs.len() {
                failure is Some && after == table
            } else {
                &&& failure is None
                &&& forall|k: int|
                    0 <= k < members.len() ==> after.get((#[trigger] members[k]).0) == Some(
                        match members[k].1 {
                            ValueView::String(s) => s,
                            other => json::serialized(other),
                        },
                    )
                &&& (forall|k: int| 0 <= k < members.len() ==> (#[trigger] members[k]).0 != key)
                    ==> after.get(key) == table.get(key)
            }
        }),
{
    lemma_first_member(envs, name, 0, e);
    if e < envs.len() {
        assert forall|k: int| 0 <= k < members.len() implies vars::env_vars_from(
            table,
            members,
            0,
        ).get((#[trigger] members[k]).0) == Some(members[k].1.shown()) by {
            assert forall|j: int| k < j < members.len() implies (#[trigger] members[j]).0
                != members[k].0 by {
                lemma_irreflexive(members[k].0, 0);
                assert(text::precedes(members[k].0, members[j].0, 0));
            }
            lemma_env_member(table, members, 0, k);
        }
        if forall|k: int| 0 <= k < members.len() ==> (#[trigger] members[k]).0 != key {
            lemma_env_members(table, members, 0, key);
        }
    }
}

proof fn lemma_irreflexive(a: Seq<char>, i: int)
    ensures
        !text::precedes(a, a, i),
    decreases a.len() - i,
{
    if i < a.len() {
        lemma_irreflexive(a, i + 1);
    }
}

proof fn lemma_first_member(
    members: Seq<(Seq<char>, ValueView)>,
    key: Seq<char>,
    i: int,
    k: int,
)
    requires
        0 <= i <= k <= members.len(),
        forall|j: int| i <= j < k ==> (#[trigger] members[j]).0 != key,
        k < members.len() ==> members[k].0 == key,
    ensures
        json::member_from(members, key, i) == if k < members.len() {
            Some(members[k].1)
        } else {
            None
        },
    decreases k - i,
{
    if i < k {
        lemma_first_member(members, key, i + 1, k);
    }
}

// -------------------------------------------------------------- random ----

proof fn lemma_dynamic_names()
    ensures
        "uuid"@.len() == 4,
        "random.uuid"@.len() == 11,
        "timestamp"@.len() == 9,
        "isoTimestamp"@.len() == 12,
        "randomInt"@.len() == 9,
        "env."@.len() == 4,
        "random.integer("@.len() == 15,
        "timestamp"@[0] == 't',
        "randomInt"@[0] == 'r',
        "env."@[0] == 'e',
        "random.integer("@[0] == 'r',
        "random.uuid"@[0] == 'r',
        "uuid"@[0] == 'u',
        "isoTimestamp"@[0] == 'i',
        ")"@ == seq![')'],
        ","@ == seq![','],
{
    reveal_strlit("uuid");
    reveal_strlit("random.uuid");
    reveal_strlit("timestamp");
    reveal_strlit("isoTimestamp");
    reveal_strlit("randomInt");
    reveal_strlit("env.");
    reveal_strlit("random.integer(");
    reveal_strlit(")");
    reveal_strlit(",");
    assert(")"@ =~= seq![')']);
    assert(","@ =~= seq![',']);
}

/// `randomInt` is what a draw leaves over when a thousand divides it, and
/// `uuid` an identifier made of two draws, under either of its names; each draw
/// moves the generator on, and nothing else changes.
pub proof fn law_drawn_values(v: VarsView, clock: Seq<u64>, n: nat, q: nat)
    requires
        n < 1000,
        random::drawn(v.rng) == 1000 * q + n,
    ensures
        vars::dynamic_value(v, "randomInt"@, clock) == (Draw {
            result: Ok(text::decimal(n)),
            vars: VarsView { rng: random::next_state(v.rng), ..v },
        }),
        vars::dynamic_value(v, "uuid"@, clock) == (Draw {
            result: Ok(random::uuid(random::drawn(v.rng), random::drawn(random::next_state(v.rng)))),
            vars: VarsView { rng: random::next_state(random::next_state(v.rng)), ..v },
        }),
        vars::dynamic_value(v, "random.uuid"@, clock) == vars::dynamic_value(v, "uuid"@, clock),
{
    reveal(vars::dynamic_value);
    lemma_dynamic_names();
}

/// `random.integer(lo, hi)`, with any white space around the bounds, is the
/// lower bound and what a draw leaves over when the width of the range divides
/// it; an empty range is refused, and then nothing is drawn.
pub proof fn law_random_integer(
    v: VarsView,
    clock: Seq<u64>,
    a: Seq<char>,
    lo: nat,
    b: Seq<char>,
    c: Seq<char>,
    hi: nat,
    d: Seq<char>,
    n: nat,
    q: nat,
)
    requires
        text_laws::white(a),
        text_laws::white(b),
        text_laws::white(c),
        text_laws::white(d),
        lo <= u64::MAX,
        hi <= u64::MAX,
        lo < hi ==> n < hi - lo && random::drawn(v.rng) == (hi - lo) * q + n,
    ensures
        ({
            let args = (a + text::decimal(lo) + b) + seq![','] + (c + text::decimal(hi) + d);
            let drawn = vars::dynamic_value(
                v,
                "random.integer("@ + (args + seq![')']),
                clock,
            );
            &&& lo < hi ==> drawn == (Draw {
                result: Ok(text::decimal(lo + n)),
                vars: VarsView { rng: random::next_state(v.rng), ..v },
            })
            &&& lo >= hi ==> drawn.result is Err && drawn.vars == v
        }),
{
    let left = a + text::decimal(lo) + b;
    let right = c + text::decimal(hi) + d;
    let args = left + seq![','] + right;
    lemma_bounds(a, lo, b, c, hi, d);
    lemma_integer_call(v, args, lo, hi, clock);
    if lo < hi {
        let w = (hi - lo) as nat;
        assert((hi - lo) * q == q * w) by (nonlinear_arith)
            requires
                w == hi - lo,
        ;
        assert(random::drawn(v.rng) as nat % w == n) by {
            vstd::arithmetic::div_mod::lemma_fundamental_div_mod_converse(
                random::drawn(v.rng) as int,
                w as int,
                q as int,
                n as int,
            );
        }
    }
}

proof fn lemma_bounds(
    a: Seq<char>,
    lo: nat,
    b: Seq<char>,
    c: Seq<char>,
    hi: nat,
    d: Seq<char>,
)
    requires
        text_laws::white(a),
        text_laws::white(b),
        text_laws::white(c),
        text_laws::white(d),
        lo <= u64::MAX,
        hi <= u64::MAX,
    ensures
        vars::bounds(
            (a + text::decimal(lo) + b) + seq![','] + (c + text::decimal(hi) + d),
        ) == Some((lo, hi)),
{
    lemma_dynamic_names();
    lemma_bound(a, lo, b);
    lemma_bound(c, hi, d);
    text::lemma_split_once(a + text::decimal(lo) + b, ',', c + text::decimal(hi) + d);
}

#[verifier::spinoff_prover]
proof fn lemma_integer_call(v: VarsView, args: Seq<char>, lo: nat, hi: nat, clock: Seq<u64>)
    requires
        vars::bounds(args) == Some((lo, hi)),
    ensures
        ({
            let drawn = vars::dynamic_value(v, "random.integer("@ + (args + seq![')']), clock);
            &&& lo < hi ==> drawn == (Draw {
                result: Ok(
                    text::decimal(lo + random::drawn(v.rng) as nat % (hi - lo) as nat),
                ),
                vars: VarsView { rng: random::next_state(v.rng), ..v },
            })
            &&& lo >= hi ==> drawn.result is Err && drawn.vars == v
        }),
{
    let name = "random.integer("@ + (args + seq![')']);
    lemma_integer_args(args);
    reveal(vars::dynamic_value);
    lemma_dynamic_names();
    assert(name[0] == 'r');
}

proof fn lemma_integer_args(args: Seq<char>)
    ensures
        ({
            let name = "random.integer("@ + (args + seq![')']);
            &&& name.len() >= 16
            &&& name[0] == 'r'
            &&& !text::starts(name, "env."@)
            &&& vars::integer_args(name) == Some(args)
        }),
{
    lemma_dynamic_names();
    let head = "random.integer("@;
    let rest = args + seq![')'];
    let name = head + rest;
    assert(name[0] == 'r');
    assert(name.take(15) =~= head);
    assert(name.skip(15) =~= rest);
    assert(rest.skip(args.len() as int) =~= seq![')']);
    assert(rest.take(args.len() as int) =~= args);
    if text::starts(name, "env."@) {
        assert(name.take(4)[0] == 'e');
    }
}

proof fn lemma_bound(a: Seq<char>, n: nat, b: Seq<char>)
    requires
        text_laws::white(a),
        text_laws::white(b),
        n <= u64::MAX,
    ensures
        text::unsigned(text::trimmed(a + text::decimal(n) + b), 10, u64::MAX as nat) == Some(n),
        !(a + text::decimal(n) + b).contains(','),
{
    let t = text::decimal(n);
    text::lemma_decimal(n);
    assert(text::ascii_digit(t[0]) && text::ascii_digit(t[t.len() - 1]));
    text_laws::law_trimmed(a, t, b);
    text_laws::law_unsigned_decimal(n, u64::MAX as nat, seq!['x'], 0);
    let s = a + t + b;
    assert forall|k: int| 0 <= k < s.len() implies s[k] != ',' by {
        if k < a.len() {
            assert(s[k] == a[k]);
        } else if k < a.len() + t.len() {
            assert(s[k] == t[k - a.len()]);
            assert(text::ascii_digit(t[k - a.len()]));
        } else {
            assert(s[k] == b[k - a.len() - t.len()]);
        }
    }
}

/// Any other dynamic name is a failure, also where unknown variables are let
/// through, and nothing is drawn.
pub proof fn law_unknown_dynamic_fails(v: VarsView, name: Seq<char>, lenient: bool, clock: Seq<u64>)
    requires
        name != "uuid"@,
        name != "random.uuid"@,
        name != "timestamp"@,
        name != "isoTimestamp"@,
        name != "randomInt"@,
        !text::starts(name, "env."@),
        !text::starts(name, "random.integer("@),
    ensures
        vars::placeholder_value(v, seq!['$'] + name, lenient, clock) == (Draw {
            result: Err("unknown dynamic variable '{{$"@ + name + "}}'"@),
            vars: v,
        }),
{
    reveal(vars::dynamic_value);
    reveal_strlit("$");
    let s = seq!['$'] + name;
    assert(s.take(1) =~= "$"@);
    assert(s.skip(1) =~= name);
}

} // verus!
