//! JSON texts in any layout.

use crate::json;
use crate::json::ValueView;
use crate::number;
use crate::text;
use crate::text_laws;
use vstd::prelude::*;
use vstd::utf8::*;

verus! {

// -------------------------------------------------------------- layout ----

/// A JSON text as its tokens with the gaps between them: a string, number or
/// word as it is written, or a list or record of further texts.
pub enum Tree {
    Leaf { text: Seq<char> },
    List { gap: Seq<char>, items: Seq<Item> },
    Record { gap: Seq<char>, members: Seq<Member> },
}

/// An item of a list with the gaps around it.
pub struct Item {
    pub before: Seq<char>,
    pub tree: Tree,
    pub after: Seq<char>,
}

/// A member of a record: its key as it is written, its value, and the gaps
/// around both.
pub struct Member {
    pub before: Seq<char>,
    pub key: Seq<char>,
    pub between: Seq<char>,
    pub item: Item,
}

/// A run of spaces, tabs, line feeds and carriage returns.
pub open spec fn gap(s: Seq<char>) -> bool {
    forall|k: int|
        0 <= k < s.len() ==> #[trigger] s[k] == ' ' || s[k] == '\t' || s[k] == '\n' || s[k] == '\r'
}

/// Text that neither begins nor ends with a gap, and does not begin with a
/// bracket.
pub open spec fn compact_text(s: Seq<char>) -> bool {
    &&& s.len() > 0
    &&& !gap(seq![s[0]])
    &&& !gap(seq![s.last()])
    &&& s[0] != '['
    &&& s[0] != '{'
}

/// The text of a tree.
pub open spec fn layout(t: Tree) -> Seq<char>
    decreases t, 0nat,
{
    match t {
        Tree::Leaf { text } => text,
        Tree::List { gap, items } => seq!['['] + (if items.len() == 0 {
            gap
        } else {
            items_layout(items, 0)
        }) + seq![']'],
        Tree::Record { gap, members } => seq!['{'] + (if members.len() == 0 {
            gap
        } else {
            members_layout(members, 0)
        }) + seq!['}'],
    }
}

/// The items from `n` on, with commas between them.
pub open spec fn items_layout(items: Seq<Item>, n: int) -> Seq<char>
    decreases items, items.len() - n,
{
    if n < 0 || n >= items.len() {
        seq![]
    } else {
        items[n].before + layout(items[n].tree) + (items[n].after + (if n + 1 < items.len() {
            seq![','] + items_layout(items, n + 1)
        } else {
            seq![]
        }))
    }
}

/// The members from `n` on, with commas between them.
pub open spec fn members_layout(members: Seq<Member>, n: int) -> Seq<char>
    decreases members, members.len() - n,
{
    if n < 0 || n >= members.len() {
        seq![]
    } else {
        let m = members[n];
        m.before + m.key + (m.between + (seq![':'] + (m.item.before + layout(m.item.tree) + (
        m.item.after + (if n + 1 < members.len() {
            seq![','] + members_layout(members, n + 1)
        } else {
            seq![]
        })))))
    }
}

/// The gaps are gaps, each leaf alone is a JSON text, and each key a JSON
/// string.
pub open spec fn sound(t: Tree) -> bool
    decreases t,
{
    match t {
        Tree::Leaf { text } => compact_text(text) && json::parsed(text) is Ok,
        Tree::List { gap: g, items } => gap(g) && forall|k: int|
            0 <= k < items.len() ==> gap((#[trigger] items[k]).before) && gap(items[k].after)
                && sound(items[k].tree),
        Tree::Record { gap: g, members } => gap(g) && forall|k: int|
            0 <= k < members.len() ==> gap((#[trigger] members[k]).before) && gap(
                members[k].between,
            ) && gap(members[k].item.before) && gap(members[k].item.after) && compact_text(
                members[k].key,
            ) && (json::parsed(members[k].key) matches Ok(v) && v is String) && sound(
                members[k].item.tree,
            ),
    }
}

/// The value of a tree, from the values of its leaves.
pub open spec fn meaning(t: Tree) -> ValueView
    decreases t, 0nat,
{
    match t {
        Tree::Leaf { text } => json::parsed(text)->Ok_0,
        Tree::List { items, .. } => ValueView::Array(meanings(items, items.len())),
        Tree::Record { members, .. } => ValueView::Object(entries(members, members.len())),
    }
}

/// The values of the first `n` items.
pub open spec fn meanings(items: Seq<Item>, n: nat) -> Seq<ValueView>
    decreases items, n,
{
    if n == 0 || n > items.len() {
        seq![]
    } else {
        meanings(items, (n - 1) as nat).push(meaning(items[n - 1].tree))
    }
}

/// The key of a member.
pub open spec fn key_of(m: Member) -> Seq<char> {
    json::parsed(m.key)->Ok_0->String_0
}

/// The entries of the first `n` members; a later one with the same key wins.
pub open spec fn entries(members: Seq<Member>, n: nat) -> Seq<(Seq<char>, ValueView)>
    decreases members, n,
{
    if n == 0 || n > members.len() {
        seq![]
    } else {
        json::put(
            entries(members, (n - 1) as nat),
            key_of(members[n - 1]),
            meaning(members[n - 1].item.tree),
        )
    }
}

// -------------------------------------------------------------- leaves ----

#[verifier::opaque]
spec fn stands(s: Seq<char>, i: int, t: Seq<char>) -> bool {
    &&& 0 <= i
    &&& i + t.len() <= s.len()
    &&& forall|k: int| 0 <= k < t.len() ==> s[i + k] == #[trigger] t[k]
}

proof fn lemma_parts(s: Seq<char>, i: int, a: Seq<char>, b: Seq<char>)
    requires
        stands(s, i, a + b),
    ensures
        stands(s, i, a),
        stands(s, i + a.len(), b),
{
    reveal(stands);
    let c = a + b;
    assert forall|k: int| 0 <= k < a.len() implies s[i + k] == #[trigger] a[k] by {
        assert(c[k] == a[k]);
    }
    assert forall|k: int| 0 <= k < b.len() implies s[i + a.len() + k] == #[trigger] b[k] by {
        assert(c[a.len() + k] == b[k]);
        assert(s[i + (a.len() + k)] == c[a.len() + k]);
    }
}

proof fn lemma_char(s: Seq<char>, i: int, c: char)
    requires
        stands(s, i, seq![c]),
    ensures
        0 <= i < s.len(),
        s[i] == c,
        json::at(s, i, c),
{
    reveal(stands);
    assert(s[i + 0] == seq![c][0]);
}

proof fn lemma_stands_at(s: Seq<char>, i: int, t: Seq<char>, k: int)
    requires
        stands(s, i, t),
        0 <= k < t.len(),
    ensures
        0 <= i,
        i + t.len() <= s.len(),
        s[i + k] == t[k],
{
    reveal(stands);
}

/// A gap is skipped up to what is none.
proof fn lemma_gap(s: Seq<char>, i: int, g: Seq<char>)
    requires
        stands(s, i, g),
        gap(g),
        i + g.len() == s.len() || !gap(seq![s[i + g.len()]]),
    ensures
        json::skip_blank(s, i) == i + g.len(),
    decreases g.len(),
{
    reveal(stands);
    if g.len() == 0 {
        if i < s.len() {
            let one = seq![s[i]];
            if json::blank(s[i]) {
                assert forall|k: int| 0 <= k < one.len() implies #[trigger] one[k] == ' ' || one[k]
                    == '\t' || one[k] == '\n' || one[k] == '\r' by {}
                assert(gap(one));
            }
        }
    } else {
        assert(s[i + 0] == g[0]);
        let rest = g.drop_first();
        assert forall|k: int| 0 <= k < rest.len() implies s[i + 1 + k] == #[trigger] rest[k] by {
            assert(s[i + (k + 1)] == g[k + 1]);
        }
        assert(gap(rest)) by {
            assert forall|k: int| 0 <= k < rest.len() implies #[trigger] rest[k] == ' ' || rest[k]
                == '\t' || rest[k] == '\n' || rest[k] == '\r' by {
                assert(rest[k] == g[k + 1]);
            }
        }
        lemma_gap(s, i + 1, rest);
    }
}

/// A single character that is no gap.
proof fn lemma_no_gap(c: char)
    requires
        c != ' ' && c != '\t' && c != '\n' && c != '\r',
    ensures
        !gap(seq![c]),
{
    let one = seq![c];
    if gap(one) {
        assert(one[0] == ' ' || one[0] == '\t' || one[0] == '\n' || one[0] == '\r');
    }
}

proof fn lemma_hex(s: Seq<char>, i: int, t: Seq<char>, k: int)
    requires
        stands(s, i, t),
        0 <= k <= t.len(),
        json::hex_at(t, k) is Ok,
    ensures
        json::hex_at(s, i + k) == json::hex_at(t, k),
        k + 4 <= t.len(),
{
    reveal(stands);
    json::lemma_utf8_len(s.skip(i + k));
    assert(s.subrange(i + k, i + k + 4) =~= t.subrange(k, k + 4)) by {
        assert(s[i + k] == t[k]);
        assert(s[i + (k + 1)] == t[k + 1]);
        assert(s[i + (k + 2)] == t[k + 2]);
        assert(s[i + (k + 3)] == t[k + 3]);
    }
}

proof fn lemma_escape(s: Seq<char>, i: int, t: Seq<char>, k: int)
    requires
        stands(s, i, t),
        0 <= k < t.len(),
        json::unicode_escape(t, k) is Ok,
    ensures
        json::unicode_escape(t, k) matches Ok((c, j)) && k < j && json::unicode_escape(s, i + k)
            == Ok::<(char, int), Seq<char>>((c, i + j)),
{
    reveal(stands);
    lemma_hex(s, i, t, k + 1);
    let high = json::hex_at(t, k + 1)->Ok_0;
    if 0xD800 <= high < 0xDC00 {
        assert(json::at(t, k + 5, '\\') && json::at(t, k + 6, 'u'));
        assert(s[i + (k + 5)] == t[k + 5] && s[i + (k + 6)] == t[k + 6]);
        lemma_hex(s, i, t, k + 7);
    }
}

proof fn lemma_chars(s: Seq<char>, i: int, t: Seq<char>, k: int, out: Seq<char>)
    requires
        stands(s, i, t),
        0 <= k,
        json::chars_from(t, k, out) is Ok,
    ensures
        json::chars_from(t, k, out) matches Ok((u, j)) && k < j <= t.len() && json::chars_from(
            s,
            i + k,
            out,
        ) == Ok::<(Seq<char>, int), Seq<char>>((u, i + j)),
    decreases t.len() - k,
{
    reveal(stands);
    assert(s[i + k] == t[k]);
    if t[k] == '"' {
    } else if t[k] != '\\' {
        lemma_chars(s, i, t, k + 1, out.push(t[k]));
    } else {
        if k + 1 < t.len() {
            assert(s[i + (k + 1)] == t[k + 1]);
        }
        if json::at(t, k + 1, 'u') {
            lemma_escape(s, i, t, k + 1);
            let (c, j) = json::unicode_escape(t, k + 1)->Ok_0;
            lemma_chars(s, i, t, j, out.push(c));
        } else {
            lemma_chars(s, i, t, k + 2, out.push(json::simple_escape(t[k + 1])->0));
        }
    }
}

proof fn lemma_numeral_run(s: Seq<char>, i: int, t: Seq<char>, k: int)
    requires
        stands(s, i, t),
        0 <= k <= t.len(),
        json::numeral_end(t, k) == t.len(),
        i + t.len() == s.len() || !json::numeral_char(s[i + t.len()]),
    ensures
        json::numeral_end(s, i + k) == i + t.len(),
    decreases t.len() - k,
{
    reveal(stands);
    if k < t.len() {
        assert(s[i + k] == t[k]);
        lemma_numeral_run(s, i, t, k + 1);
    }
}

/// A text that parses and neither begins nor ends with a gap is read from its
/// first to its last character.
proof fn lemma_whole(t: Seq<char>)
    requires
        compact_text(t),
        json::parsed(t) is Ok,
    ensures
        json::value_at(t, 0) == Ok::<(ValueView, int), Seq<char>>(
            (json::parsed(t)->Ok_0, t.len() as int),
        ),
        json::skip_blank(t, 0) == 0,
{
    reveal(stands);
    let e = Seq::<char>::empty();
    lemma_gap(t, 0, e);
    let (v, j) = json::value_at(t, 0)->Ok_0;
    lemma_value_end(t);
    if j < t.len() {
        lemma_blank_end(t, j);
    }
}

/// White space up to the end of the text makes the last character white.
proof fn lemma_blank_end(t: Seq<char>, j: int)
    requires
        0 <= j < t.len(),
        json::skip_blank(t, j) == t.len(),
    ensures
        gap(seq![t.last()]),
    decreases t.len() - j,
{
    assert(json::blank(t[j]));
    if j + 1 < t.len() {
        lemma_blank_end(t, j + 1);
    } else {
        let one = seq![t.last()];
        assert forall|k: int| 0 <= k < one.len() implies #[trigger] one[k] == ' ' || one[k] == '\t'
            || one[k] == '\n' || one[k] == '\r' by {}
    }
}

proof fn lemma_value_end(t: Seq<char>)
    requires
        compact_text(t),
        json::skip_blank(t, 0) == 0,
        json::value_at(t, 0) is Ok,
    ensures
        json::value_at(t, 0) matches Ok((_, j)) && 0 <= j <= t.len(),
{
    reveal(stands);
    reveal_strlit("true");
    reveal_strlit("false");
    reveal_strlit("null");
    if t[0] == '"' {
        assert(stands(t, 0, t));
        lemma_chars(t, 0, t, 1, seq![]);
    } else {
        lemma_numeral_bound(t, 0);
        assert(t.skip(0) =~= t);
    }
}

proof fn lemma_numeral_bound(t: Seq<char>, k: int)
    requires
        0 <= k <= t.len(),
    ensures
        k <= json::numeral_end(t, k) <= t.len(),
    decreases t.len() - k,
{
    if k < t.len() && json::numeral_char(t[k]) {
        lemma_numeral_bound(t, k + 1);
    }
}

/// A leaf reads the same wherever it stands.
proof fn lemma_leaf(s: Seq<char>, p: int, i: int, t: Seq<char>)
    requires
        stands(s, i, t),
        json::skip_blank(s, p) == i,
        compact_text(t),
        json::parsed(t) is Ok,
        i + t.len() == s.len() || !json::numeral_char(s[i + t.len()]),
    ensures
        json::value_at(s, p) == Ok::<(ValueView, int), Seq<char>>(
            (json::parsed(t)->Ok_0, i + t.len()),
        ),
{
    reveal(stands);
    lemma_whole(t);
    assert(s[i + 0] == t[0]);
    reveal_strlit("true");
    reveal_strlit("false");
    reveal_strlit("null");
    let n = t.len() as int;
    if t[0] == '"' {
        lemma_chars(s, i, t, 1, seq![]);
    } else if t[0] == 't' {
        lemma_word(s, i, t, "true"@);
    } else if t[0] == 'f' {
        lemma_word(s, i, t, "false"@);
    } else if t[0] == 'n' {
        lemma_word(s, i, t, "null"@);
    } else {
        assert(json::numeral_end(t, 0) == n);
        lemma_numeral_run(s, i, t, 0);
        assert(t.subrange(0, n) =~= t);
        assert(s.subrange(i, i + n) =~= t) by {
            assert forall|k: int| 0 <= k < n implies s[i + k] == t[k] by {}
        }
    }
}

proof fn lemma_word(s: Seq<char>, i: int, t: Seq<char>, word: Seq<char>)
    requires
        stands(s, i, t),
        text::starts(t.skip(0), word),
        word.len() == t.len(),
    ensures
        text::starts(s.skip(i), word),
{
    reveal(stands);
    assert(t.skip(0) =~= t);
    assert(t.take(t.len() as int) =~= t);
    assert(s.skip(i).take(word.len() as int) =~= word) by {
        assert forall|k: int| 0 <= k < word.len() implies s[i + k] == word[k] by {
            assert(s[i + k] == t[k]);
        }
    }
}

/// A key reads the same wherever it stands.
proof fn lemma_key(s: Seq<char>, i: int, t: Seq<char>)
    requires
        stands(s, i, t),
        compact_text(t),
        json::parsed(t) matches Ok(v) && v is String,
    ensures
        json::string_at(s, i) == Ok::<(Seq<char>, int), Seq<char>>(
            (json::parsed(t)->Ok_0->String_0, i + t.len()),
        ),
        s[i] == '"',
        i < s.len(),
{
    reveal(stands);
    lemma_whole(t);
    assert(s[i + 0] == t[0]);
    assert(t[0] == '"');
    lemma_chars(s, i, t, 1, seq![]);
}

// --------------------------------------------------------------- trees ----

proof fn lemma_first(t: Tree)
    requires
        sound(t),
    ensures
        layout(t).len() > 0,
        !gap(seq![layout(t)[0]]),
        layout(t)[0] != ']',
        layout(t)[0] != '}',
{
    match t {
        Tree::Leaf { text } => {
            lemma_whole(text);
        },
        Tree::List { .. } => lemma_no_gap('['),
        Tree::Record { .. } => lemma_no_gap('{'),
    }
}

/// A tree reads as its meaning, wherever it stands and whatever blanks were
/// before it.
proof fn lemma_tree(s: Seq<char>, p: int, i: int, t: Tree)
    requires
        stands(s, i, layout(t)),
        json::skip_blank(s, p) == i,
        sound(t),
        i + layout(t).len() == s.len() || !json::numeral_char(s[i + layout(t).len()]),
    ensures
        json::value_at(s, p) == Ok::<(ValueView, int), Seq<char>>(
            (meaning(t), i + layout(t).len()),
        ),
    decreases t, 1nat,
{
    match t {
        Tree::Leaf { text } => lemma_leaf(s, p, i, text),
        Tree::List { .. } => lemma_list(s, p, i, t),
        Tree::Record { .. } => lemma_record(s, p, i, t),
    }
}

#[verifier::spinoff_prover]
#[verifier::rlimit(40)]
proof fn lemma_list(s: Seq<char>, p: int, i: int, t: Tree)
    requires
        t is List,
        stands(s, i, layout(t)),
        json::skip_blank(s, p) == i,
        sound(t),
    ensures
        json::value_at(s, p) == Ok::<(ValueView, int), Seq<char>>(
            (meaning(t), i + layout(t).len()),
        ),
    decreases t, 0nat,
{
    let g = t->List_gap;
    let items = t->items;
    assert(t == Tree::List { gap: g, items });
    let inner = if items.len() == 0 {
        g
    } else {
        items_layout(items, 0)
    };
    assert(layout(t) =~= seq!['['] + (inner + seq![']']));
    lemma_parts(s, i, seq!['['], inner + seq![']']);
    lemma_char(s, i, '[');
    lemma_no_gap(']');
    if items.len() == 0 {
        lemma_parts(s, i + 1, g, seq![']']);
        lemma_char(s, i + 1 + g.len(), ']');
        lemma_gap(s, i + 1, g);
        assert(meanings(items, 0) =~= seq![]);
    } else {
        assert(gap(items[0].before));
        assert(decreases_to!(t => t->items));
        lemma_items_head(s, i + 1, items, 0);
        assert(meanings(items, 0) =~= seq![]);
        lemma_items(s, i + 1 + items[0].before.len(), i + 1, items, 0);
    }
}

/// An opening brace with something other than a closing one behind it.
proof fn lemma_object_at(s: Seq<char>, p: int, i: int, m: int)
    requires
        json::skip_blank(s, p) == i,
        json::at(s, i, '{'),
        json::skip_blank(s, i + 1) == m,
        !json::at(s, m, '}'),
    ensures
        json::value_at(s, p) == json::members_from(s, m, seq![]),
{
}

/// The braces of a record.
proof fn lemma_braces(s: Seq<char>, i: int, t: Tree)
    requires
        t is Record,
        stands(s, i, layout(t)),
    ensures
        json::at(s, i, '{'),
        t->members.len() == 0 ==> stands(s, i + 1, t->Record_gap) && json::at(
            s,
            i + 1 + t->Record_gap.len(),
            '}',
        ) && layout(t).len() == t->Record_gap.len() + 2,
        t->members.len() > 0 ==> stands(s, i + 1, members_layout(t->members, 0) + seq!['}'])
            && layout(t).len() == members_layout(t->members, 0).len() + 2,
{
    let inner = if t->members.len() == 0 {
        t->Record_gap
    } else {
        members_layout(t->members, 0)
    };
    assert(layout(t) =~= seq!['{'] + (inner + seq!['}']));
    lemma_parts(s, i, seq!['{'], inner + seq!['}']);
    lemma_char(s, i, '{');
    lemma_parts(s, i + 1, inner, seq!['}']);
    lemma_char(s, i + 1 + inner.len(), '}');
}

#[verifier::spinoff_prover]
#[verifier::rlimit(40)]
proof fn lemma_record(s: Seq<char>, p: int, i: int, t: Tree)
    requires
        t is Record,
        stands(s, i, layout(t)),
        json::skip_blank(s, p) == i,
        sound(t),
    ensures
        json::value_at(s, p) == Ok::<(ValueView, int), Seq<char>>(
            (meaning(t), i + layout(t).len()),
        ),
    decreases t, 0nat,
{
    let members = t->members;
    let g = t->Record_gap;
    lemma_braces(s, i, t);
    assert(entries(members, 0) =~= seq![]);
    if members.len() == 0 {
        lemma_no_gap('}');
        lemma_gap(s, i + 1, g);
    } else {
        assert(gap(members[0].before));
        assert(decreases_to!(t => t->members));
        lemma_members_head(s, i + 1, members, 0);
        let m = i + 1 + members[0].before.len();
        lemma_object_at(s, p, i, m);
        lemma_members(s, m, i + 1, members, 0);
    }
}

/// The gap before item `n` and its first character.
proof fn lemma_items_head(s: Seq<char>, i: int, items: Seq<Item>, n: int)
    requires
        0 <= n < items.len(),
        stands(s, i, items_layout(items, n) + seq![']']),
        gap(items[n].before),
        sound(items[n].tree),
    ensures
        json::skip_blank(s, i) == i + items[n].before.len(),
        json::skip_blank(s, i + items[n].before.len()) == i + items[n].before.len(),
        !json::at(s, i + items[n].before.len(), ']'),
        i + items[n].before.len() < s.len(),
        s[i + items[n].before.len()] == layout(items[n].tree)[0],
{
    reveal(stands);
    let item = items[n];
    let a = item.before;
    let b = layout(item.tree);
    let whole = items_layout(items, n) + seq![']'];
    let rest = whole.skip((a.len() + b.len()) as int);
    assert(whole =~= a + (b + rest));
    lemma_parts(s, i, a, b + rest);
    let j = i + a.len();
    lemma_parts(s, j, b, rest);
    lemma_first(item.tree);
    assert(s[j + 0] == b[0]);
    lemma_gap(s, i, a);
    let e = Seq::<char>::empty();
    lemma_gap(s, j, e);
}

/// Where the pieces of item `n` stand.
proof fn lemma_item_places(s: Seq<char>, i: int, items: Seq<Item>, n: int)
    requires
        0 <= n < items.len(),
        stands(s, i, items_layout(items, n) + seq![']']),
        gap(items[n].after),
    ensures
        stands(s, i + items[n].before.len(), layout(items[n].tree)),
        ({
            let k = i + items[n].before.len() + layout(items[n].tree).len();
            let m = k + items[n].after.len();
            &&& 0 <= i
            &&& k <= m < s.len()
            &&& !json::numeral_char(s[k])
            &&& json::skip_blank(s, k) == m
            &&& n + 1 == items.len() ==> s[m] == ']' && m + 1 == i + items_layout(items, n).len()
                + 1
            &&& n + 1 < items.len() ==> s[m] == ',' && stands(
                s,
                m + 1,
                items_layout(items, n + 1) + seq![']'],
            ) && m + 1 + items_layout(items, n + 1).len() == i + items_layout(items, n).len()
        }),
{
    let item = items[n];
    let (a, b, c) = (item.before, layout(item.tree), item.after);
    let last = n + 1 == items.len();
    let rest = if last {
        seq![']']
    } else {
        seq![','] + (items_layout(items, n + 1) + seq![']'])
    };
    assert(items_layout(items, n) + seq![']'] =~= a + (b + (c + rest)));
    lemma_parts(s, i, a, b + (c + rest));
    let j = i + a.len();
    lemma_parts(s, j, b, c + rest);
    let k = j + b.len();
    lemma_parts(s, k, c, rest);
    let m = k + c.len();
    lemma_stands_at(s, m, rest, 0);
    lemma_no_gap(s[m]);
    lemma_gap(s, k, c);
    lemma_gap_first(s, k, c);
    assert(0 <= i) by {
        reveal(stands);
    }
    if !last {
        lemma_parts(s, m, seq![','], items_layout(items, n + 1) + seq![']']);
    }
}

/// What stands where a gap begins is no part of a number, unless the gap is
/// empty.
proof fn lemma_gap_first(s: Seq<char>, i: int, g: Seq<char>)
    requires
        stands(s, i, g),
        gap(g),
        g.len() > 0 || !json::numeral_char(s[i]),
    ensures
        !json::numeral_char(s[i]),
{
    if g.len() > 0 {
        lemma_stands_at(s, i, g, 0);
        assert(g[0] == ' ' || g[0] == '\t' || g[0] == '\n' || g[0] == '\r');
    }
}

#[verifier::spinoff_prover]
#[verifier::rlimit(40)]
proof fn lemma_items(s: Seq<char>, p: int, i: int, items: Seq<Item>, n: int)
    requires
        0 <= n < items.len(),
        stands(s, i, items_layout(items, n) + seq![']']),
        i <= p,
        json::skip_blank(s, p) == i + items[n].before.len(),
        p <= i + items[n].before.len(),
        forall|k: int|
            0 <= k < items.len() ==> gap((#[trigger] items[k]).before) && gap(items[k].after)
                && sound(items[k].tree),
    ensures
        json::items_from(s, p, meanings(items, n as nat)) == Ok::<(ValueView, int), Seq<char>>(
            (
                ValueView::Array(meanings(items, items.len())),
                i + items_layout(items, n).len() + 1,
            ),
        ),
    decreases items, items.len() - n,
{
    let item = items[n];
    assert(gap(items[n].before) && gap(items[n].after) && sound(items[n].tree));
    lemma_item_places(s, i, items, n);
    let j = i + item.before.len();
    let k = j + layout(item.tree).len();
    let m = k + item.after.len();
    lemma_first(item.tree);
    assert(decreases_to!(items => items[n]));
    assert(decreases_to!(items[n] => items[n].tree));
    lemma_tree(s, p, j, item.tree);
    assert(meanings(items, (n + 1) as nat) == meanings(items, n as nat).push(meaning(item.tree)));
    if n + 1 < items.len() {
        assert(gap(items[n + 1].before) && sound(items[n + 1].tree));
        lemma_items_head(s, m + 1, items, n + 1);
        lemma_items(s, m + 1, m + 1, items, n + 1);
    }
}

/// The gap before member `n` and the quote of its key.
proof fn lemma_members_head(s: Seq<char>, i: int, members: Seq<Member>, n: int)
    requires
        0 <= n < members.len(),
        stands(s, i, members_layout(members, n) + seq!['}']),
        gap(members[n].before),
        compact_text(members[n].key),
        json::parsed(members[n].key) matches Ok(v) && v is String,
    ensures
        json::skip_blank(s, i) == i + members[n].before.len(),
        json::skip_blank(s, i + members[n].before.len()) == i + members[n].before.len(),
        !json::at(s, i + members[n].before.len(), '}'),
{
    reveal(stands);
    let a = members[n].before;
    let b = members[n].key;
    let whole = members_layout(members, n) + seq!['}'];
    let rest = whole.skip((a.len() + b.len()) as int);
    assert(whole =~= a + (b + rest));
    lemma_parts(s, i, a, b + rest);
    let j = i + a.len();
    lemma_parts(s, j, b, rest);
    lemma_key(s, j, b);
    lemma_no_gap('"');
    lemma_gap(s, i, a);
    let e = Seq::<char>::empty();
    lemma_gap(s, j, e);
}

/// What follows the value of member `n` and the gap behind it.
spec fn member_rest(members: Seq<Member>, n: int) -> Seq<char> {
    if n + 1 == members.len() {
        seq!['}']
    } else {
        seq![','] + (members_layout(members, n + 1) + seq!['}'])
    }
}

/// The pieces of member `n` one after another.
proof fn lemma_member_text(members: Seq<Member>, n: int)
    requires
        0 <= n < members.len(),
    ensures
        ({
            let m = members[n];
            members_layout(members, n) + seq!['}'] == m.before + (m.key + (m.between + (seq![':']
                + (m.item.before + (layout(m.item.tree) + (m.item.after + member_rest(
                members,
                n,
            )))))))
        }),
{
    let m = members[n];
    assert(members_layout(members, n) + seq!['}'] =~= m.before + (m.key + (m.between + (seq![':'] + (
    m.item.before + (layout(m.item.tree) + (m.item.after + member_rest(members, n))))))));
}

/// Where the pieces of member `n` stand.
#[verifier::spinoff_prover]
#[verifier::rlimit(60)]
proof fn lemma_member_places(s: Seq<char>, i: int, members: Seq<Member>, n: int)
    requires
        0 <= n < members.len(),
        stands(s, i, members_layout(members, n) + seq!['}']),
        gap(members[n].between),
        gap(members[n].item.before),
        gap(members[n].item.after),
        sound(members[n].item.tree),
    ensures
        stands(s, i + members[n].before.len(), members[n].key),
        ({
            let m = members[n];
            let k1 = i + m.before.len() + m.key.len();
            let k2 = k1 + m.between.len();
            let k3 = k2 + 1 + m.item.before.len();
            let k4 = k3 + layout(m.item.tree).len();
            let k5 = k4 + m.item.after.len();
            &&& 0 <= i
            &&& k5 < s.len()
            &&& json::skip_blank(s, k1) == k2
            &&& s[k2] == ':'
            &&& json::skip_blank(s, k2 + 1) == k3
            &&& stands(s, k3, layout(m.item.tree))
            &&& !json::numeral_char(s[k4])
            &&& json::skip_blank(s, k4) == k5
            &&& n + 1 == members.len() ==> s[k5] == '}' && k5 == i + members_layout(
                members,
                n,
            ).len()
            &&& n + 1 < members.len() ==> s[k5] == ',' && stands(
                s,
                k5 + 1,
                members_layout(members, n + 1) + seq!['}'],
            ) && k5 + 1 + members_layout(members, n + 1).len() == i + members_layout(
                members,
                n,
            ).len()
        }),
{
    let member = members[n];
    let item = member.item;
    let (a, key, g) = (member.before, member.key, member.between);
    let (b, body, c) = (item.before, layout(item.tree), item.after);
    let last = n + 1 == members.len();
    let rest = member_rest(members, n);
    let tail = c + rest;
    lemma_member_text(members, n);
    lemma_parts(s, i, a, key + (g + (seq![':'] + (b + (body + tail)))));
    let j = i + a.len();
    lemma_parts(s, j, key, g + (seq![':'] + (b + (body + tail))));
    let k1 = j + key.len();
    lemma_parts(s, k1, g, seq![':'] + (b + (body + tail)));
    let k2 = k1 + g.len();
    lemma_parts(s, k2, seq![':'], b + (body + tail));
    lemma_char(s, k2, ':');
    lemma_parts(s, k2 + 1, b, body + tail);
    let k3 = k2 + 1 + b.len();
    lemma_parts(s, k3, body, tail);
    let k4 = k3 + body.len();
    lemma_parts(s, k4, c, rest);
    let m = k4 + c.len();
    lemma_no_gap(':');
    lemma_gap(s, k1, g);
    lemma_first(item.tree);
    lemma_stands_at(s, k3, body, 0);
    lemma_gap(s, k2 + 1, b);
    lemma_stands_at(s, m, rest, 0);
    lemma_no_gap(s[m]);
    lemma_gap(s, k4, c);
    lemma_gap_first(s, k4, c);
    assert(0 <= i) by {
        reveal(stands);
    }
    if !last {
        lemma_parts(s, m, seq![','], members_layout(members, n + 1) + seq!['}']);
    }
}

#[verifier::spinoff_prover]
#[verifier::rlimit(60)]
proof fn lemma_members(s: Seq<char>, p: int, i: int, members: Seq<Member>, n: int)
    requires
        0 <= n < members.len(),
        stands(s, i, members_layout(members, n) + seq!['}']),
        i <= p,
        json::skip_blank(s, p) == i + members[n].before.len(),
        p <= i + members[n].before.len(),
        forall|k: int|
            0 <= k < members.len() ==> gap((#[trigger] members[k]).before) && gap(
                members[k].between,
            ) && gap(members[k].item.before) && gap(members[k].item.after) && compact_text(
                members[k].key,
            ) && (json::parsed(members[k].key) matches Ok(v) && v is String) && sound(
                members[k].item.tree,
            ),
    ensures
        json::members_from(s, p, entries(members, n as nat)) == Ok::<(ValueView, int), Seq<char>>(
            (
                ValueView::Object(entries(members, members.len())),
                i + members_layout(members, n).len() + 1,
            ),
        ),
    decreases members, members.len() - n,
{
    let member = members[n];
    let item = member.item;
    assert(gap(members[n].before));
    lemma_member_places(s, i, members, n);
    let j = i + member.before.len();
    let k1 = j + member.key.len();
    let k2 = k1 + member.between.len();
    let k3 = k2 + 1 + item.before.len();
    let k4 = k3 + layout(item.tree).len();
    let m = k4 + item.after.len();
    lemma_key(s, j, member.key);
    lemma_first(item.tree);
    assert(decreases_to!(members => members[n]));
    assert(decreases_to!(members[n] => members[n].item));
    assert(decreases_to!(members[n].item => members[n].item.tree));
    lemma_tree(s, k2 + 1, k3, item.tree);
    assert(entries(members, (n + 1) as nat) == json::put(
        entries(members, n as nat),
        key_of(member),
        meaning(item.tree),
    ));
    if n + 1 < members.len() {
        assert(gap(members[n + 1].before));
        lemma_members_head(s, m + 1, members, n + 1);
        lemma_members(s, m + 1, m + 1, members, n + 1);
    }
}

/// White space between tokens changes nothing: a JSON text parses to the value
/// that its tokens stand for, whatever runs of spaces, tabs, line feeds and
/// carriage returns stand before, between and after them.
pub proof fn law_layout_changes_nothing(before: Seq<char>, t: Tree, after: Seq<char>)
    requires
        sound(t),
        gap(before),
        gap(after),
    ensures
        json::parsed(before + layout(t) + after) == Ok::<ValueView, Seq<char>>(meaning(t)),
{
    reveal(stands);
    let b = layout(t);
    let s = before + b + after;
    let i = before.len() as int;
    lemma_first(t);
    assert(stands(s, 0, before));
    assert(stands(s, i, b));
    let j = i + b.len();
    assert(stands(s, j, after)) by {
        assert forall|k: int| 0 <= k < after.len() implies s[j + k] == #[trigger] after[k] by {}
    }
    assert(s[i] == b[0]);
    lemma_gap(s, 0, before);
    let e = Seq::<char>::empty();
    lemma_gap(s, i, e);
    if j < s.len() {
        assert(s[j] == after[0]);
        assert(after[0] == ' ' || after[0] == '\t' || after[0] == '\n' || after[0] == '\r');
    }
    lemma_tree(s, i, i, t);
    lemma_gap(s, j, after);
}

/// A text ends with its value: anything but white space behind it is refused.
pub proof fn law_nothing_follows(
    before: Seq<char>,
    t: Tree,
    after: Seq<char>,
    c: char,
    rest: Seq<char>,
)
    requires
        sound(t),
        gap(before),
        gap(after),
        !gap(seq![c]),
        after.len() > 0 || !(('0' <= c <= '9') || c == '.' || c == 'e' || c == 'E' || c == '+' || c
            == '-'),
    ensures
        json::parsed(before + layout(t) + after + seq![c] + rest) is Err,
{
    let b = layout(t);
    let s = before + b + after + seq![c] + rest;
    let i = before.len() as int;
    let j = i + b.len();
    let k = j + after.len();
    lemma_first(t);
    assert(stands(s, 0, before) && stands(s, i, b) && stands(s, j, after)) by {
        reveal(stands);
        assert forall|x: int| 0 <= x < after.len() implies s[j + x] == #[trigger] after[x] by {}
    }
    assert(s[i] == b[0]);
    assert(s[k] == c);
    lemma_gap(s, 0, before);
    let e = Seq::<char>::empty();
    assert(stands(s, i, e)) by {
        reveal(stands);
    }
    lemma_gap(s, i, e);
    if after.len() > 0 {
        assert(s[j] == after[0]);
        assert(after[0] == ' ' || after[0] == '\t' || after[0] == '\n' || after[0] == '\r');
    }
    lemma_tree(s, i, i, t);
    lemma_gap(s, j, after);
}

// ---------------------------------------------------------- renderings ----

/// The tree is a rendering of the value: its leaves and keys are the compact
/// texts, in any layout.
pub open spec fn renders(t: Tree, v: ValueView) -> bool
    decreases t,
{
    match (t, v) {
        (Tree::List { gap: g, items }, ValueView::Array(values)) => gap(g) && items.len()
            == values.len() && forall|k: int|
            0 <= k < items.len() ==> gap((#[trigger] items[k]).before) && gap(items[k].after)
                && renders(items[k].tree, values[k]),
        (Tree::Record { gap: g, members }, ValueView::Object(values)) => gap(g) && members.len()
            == values.len() && forall|k: int|
            0 <= k < members.len() ==> gap((#[trigger] members[k]).before) && gap(
                members[k].between,
            ) && gap(members[k].item.before) && gap(members[k].item.after) && members[k].key
                == json::serialized(ValueView::String(values[k].0)) && renders(
                members[k].item.tree,
                values[k].1,
            ),
        (Tree::Leaf { text }, _) => !(v is Array) && !(v is Object) && text == json::serialized(v),
        _ => false,
    }
}

proof fn lemma_scalar(v: ValueView)
    requires
        !(v is Array),
        !(v is Object),
        json::writable(v),
        json::finite(v),
    ensures
        compact_text(json::serialized(v)),
        json::parsed(json::serialized(v)) == Ok::<ValueView, Seq<char>>(v),
{
    json::law_serialized_parses_back(v);
    let t = json::serialized(v);
    reveal_strlit("true");
    reveal_strlit("false");
    reveal_strlit("null");
    if let ValueView::Number(n) = v {
        number::law_display_is_a_numeral(n);
        assert(text::ascii_digit(t[t.len() - 1]) || t[t.len() - 1] == '.' || t[t.len() - 1] == '-');
    }
    if v is String {
        assert(t[0] == '"' && t.last() == '"');
    }
    lemma_no_gap(t[0]);
    lemma_no_gap(t.last());
}

proof fn lemma_renders(t: Tree, v: ValueView)
    requires
        renders(t, v),
        json::ordered(v),
        json::writable(v),
        json::finite(v),
    ensures
        sound(t),
        meaning(t) == v,
    decreases t, 0nat,
{
    match t {
        Tree::Leaf { text } => lemma_scalar(v),
        Tree::List { gap: g, items } => {
            let values = v->Array_0;
            assert(decreases_to!(t => items));
            lemma_item_renderings(items, values, items.len());
            assert(meanings(items, items.len()) =~= values);
            assert forall|k: int| 0 <= k < items.len() implies gap((#[trigger] items[k]).before)
                && gap(items[k].after) && sound(items[k].tree) by {}
        },
        Tree::Record { gap: g, members } => {
            let values = v->Object_0;
            assert(decreases_to!(t => members));
            lemma_member_renderings(members, values, members.len());
            assert(entries(members, members.len()) =~= values);
        },
    }
}

proof fn lemma_item_renderings(items: Seq<Item>, values: Seq<ValueView>, n: nat)
    requires
        items.len() == values.len(),
        n <= items.len(),
        forall|k: int| 0 <= k < items.len() ==> renders((#[trigger] items[k]).tree, values[k]),
        json::ordered(ValueView::Array(values)),
        json::writable(ValueView::Array(values)),
        json::finite(ValueView::Array(values)),
    ensures
        meanings(items, n) == values.take(n as int),
        forall|k: int| 0 <= k < n ==> sound((#[trigger] items[k]).tree),
    decreases items, n,
{
    if n > 0 {
        let all = ValueView::Array(values);
        lemma_item_renderings(items, values, (n - 1) as nat);
        assert(renders(items[n - 1].tree, values[n - 1]));
        assert(json::ordered(all->Array_0[n - 1]) && json::writable(all->Array_0[n - 1])
            && json::finite(all->Array_0[n - 1]));
        assert(decreases_to!(items => items[n - 1]));
        assert(decreases_to!(items[n - 1] => items[n - 1].tree));
        lemma_renders(items[n - 1].tree, values[n - 1]);
    }
    assert(meanings(items, n) =~= values.take(n as int));
}

proof fn lemma_member_renderings(
    members: Seq<Member>,
    values: Seq<(Seq<char>, ValueView)>,
    n: nat,
)
    requires
        members.len() == values.len(),
        n <= members.len(),
        forall|k: int|
            0 <= k < members.len() ==> (#[trigger] members[k]).key == json::serialized(
                ValueView::String(values[k].0),
            ) && renders(members[k].item.tree, values[k].1),
        json::ordered(ValueView::Object(values)),
        json::writable(ValueView::Object(values)),
        json::finite(ValueView::Object(values)),
    ensures
        entries(members, n) == values.take(n as int),
        forall|k: int|
            0 <= k < n ==> sound((#[trigger] members[k]).item.tree) && compact_text(members[k].key)
                && (json::parsed(members[k].key) matches Ok(v) && v is String),
    decreases members, n,
{
    if n > 0 {
        let all = ValueView::Object(values);
        let m = (n - 1) as nat;
        lemma_member_renderings(members, values, m);
        assert(renders(members[n - 1].item.tree, values[n - 1].1));
        assert(json::ordered(all->Object_0[n - 1].1) && json::writable(all->Object_0[n - 1].1)
            && json::finite(all->Object_0[n - 1].1));
        assert(decreases_to!(members => members[n - 1]));
        assert(decreases_to!(members[n - 1] => members[n - 1].item));
        assert(decreases_to!(members[n - 1].item => members[n - 1].item.tree));
        lemma_renders(members[n - 1].item.tree, values[n - 1].1);
        let k = ValueView::String(values[n - 1].0);
        lemma_scalar(k);
        json::lemma_put_last(values, m as int);
        assert(values.take(m as int).insert(m as int, values[m as int]) =~= values.take(n as int));
    } else {
        assert(values.take(0) =~= seq![]);
    }
}

/// Every rendering of a value, indented in any way, parses to that value.
pub proof fn law_renderings_parse_back(
    before: Seq<char>,
    t: Tree,
    after: Seq<char>,
    v: ValueView,
)
    requires
        renders(t, v),
        json::ordered(v),
        json::writable(v),
        json::finite(v),
        gap(before),
        gap(after),
    ensures
        json::parsed(before + layout(t) + after) == Ok::<ValueView, Seq<char>>(v),
{
    lemma_renders(t, v);
    law_layout_changes_nothing(before, t, after);
}

/// The trees hold the same tokens, whatever gaps are between them.
pub open spec fn same_tokens(t: Tree, u: Tree) -> bool
    decreases t,
{
    match (t, u) {
        (Tree::Leaf { text: a }, Tree::Leaf { text: b }) => a == b,
        (Tree::List { items: a, .. }, Tree::List { items: b, .. }) => a.len() == b.len()
            && forall|k: int|
            0 <= k < a.len() ==> same_tokens((#[trigger] a[k]).tree, b[k].tree),
        (Tree::Record { members: a, .. }, Tree::Record { members: b, .. }) => a.len() == b.len()
            && forall|k: int|
            0 <= k < a.len() ==> (#[trigger] a[k]).key == b[k].key && same_tokens(
                a[k].item.tree,
                b[k].item.tree,
            ),
        _ => false,
    }
}

proof fn lemma_same_tokens(t: Tree, u: Tree)
    requires
        same_tokens(t, u),
    ensures
        meaning(t) == meaning(u),
    decreases t, 0nat,
{
    match (t, u) {
        (Tree::List { items: a, .. }, Tree::List { items: b, .. }) => {
            assert(decreases_to!(t => t->items));
            lemma_same_items(a, b, a.len());
        },
        (Tree::Record { members: a, .. }, Tree::Record { members: b, .. }) => {
            assert(decreases_to!(t => t->members));
            lemma_same_members(a, b, a.len());
        },
        _ => {},
    }
}

proof fn lemma_same_items(a: Seq<Item>, b: Seq<Item>, n: nat)
    requires
        a.len() == b.len(),
        n <= a.len(),
        forall|k: int| 0 <= k < a.len() ==> same_tokens((#[trigger] a[k]).tree, b[k].tree),
    ensures
        meanings(a, n) == meanings(b, n),
    decreases a, n,
{
    if n > 0 {
        lemma_same_items(a, b, (n - 1) as nat);
        assert(decreases_to!(a => a[n - 1]));
        assert(decreases_to!(a[n - 1] => a[n - 1].tree));
        lemma_same_tokens(a[n - 1].tree, b[n - 1].tree);
    }
}

proof fn lemma_same_members(a: Seq<Member>, b: Seq<Member>, n: nat)
    requires
        a.len() == b.len(),
        n <= a.len(),
        forall|k: int|
            0 <= k < a.len() ==> (#[trigger] a[k]).key == b[k].key && same_tokens(
                a[k].item.tree,
                b[k].item.tree,
            ),
    ensures
        entries(a, n) == entries(b, n),
    decreases a, n,
{
    if n > 0 {
        lemma_same_members(a, b, (n - 1) as nat);
        assert(decreases_to!(a => a[n - 1]));
        assert(decreases_to!(a[n - 1] => a[n - 1].item));
        assert(decreases_to!(a[n - 1].item => a[n - 1].item.tree));
        lemma_same_tokens(a[n - 1].item.tree, b[n - 1].item.tree);
    }
}

/// Two texts with the same tokens, one of them without any white space for
/// instance, parse to the same value.
pub proof fn law_same_tokens_same_value(
    before: Seq<char>,
    t: Tree,
    after: Seq<char>,
    u: Tree,
)
    requires
        sound(t),
        sound(u),
        same_tokens(t, u),
        gap(before),
        gap(after),
    ensures
        json::parsed(before + layout(t) + after) is Ok,
        json::parsed(before + layout(t) + after) == json::parsed(layout(u)),
{
    lemma_same_tokens(t, u);
    law_layout_changes_nothing(before, t, after);
    let e = Seq::<char>::empty();
    law_layout_changes_nothing(e, u, e);
    assert(e + layout(u) + e =~= layout(u));
}

// ------------------------------------------------------------- strings ----

/// A piece of a string literal: a character, a backslash with one more, a
/// `\u` escape with its digits, or two of them.
pub enum Piece {
    Plain(char),
    Short(char),
    Code(Seq<char>),
    Pair(Seq<char>, Seq<char>),
}

/// The number that four hexadecimal digits write.
pub open spec fn code(d: Seq<char>, n: int) -> bool {
    &&& d.len() == 4
    &&& exists|a: int, b: int, c: int, e: int|
        #![trigger hex_digit(d[0], a), hex_digit(d[1], b), hex_digit(d[2], c), hex_digit(d[3], e)]
        hex_digit(d[0], a) && hex_digit(d[1], b) && hex_digit(d[2], c) && hex_digit(d[3], e) && n
            == 4096 * a + 256 * b + 16 * c + e
}

pub open spec fn hex_digit(c: char, n: int) -> bool {
    ||| '0' <= c <= '9' && n == c as int - '0' as int
    ||| 'a' <= c <= 'f' && n == 10 + c as int - 'a' as int
    ||| 'A' <= c <= 'F' && n == 10 + c as int - 'A' as int
}

pub open spec fn spelled(p: Piece) -> Seq<char> {
    match p {
        Piece::Plain(c) => seq![c],
        Piece::Short(c) => seq!['\\', c],
        Piece::Code(d) => seq!['\\', 'u'] + d,
        Piece::Pair(d, e) => seq!['\\', 'u'] + d + seq!['\\', 'u'] + e,
    }
}

/// The piece writes the character.
pub open spec fn writes(p: Piece, c: char) -> bool {
    match p {
        Piece::Plain(a) => a == c && c != '"' && c != '\\',
        Piece::Short(a) => {
            ||| a == '"' && c == '"'
            ||| a == '\\' && c == '\\'
            ||| a == '/' && c == '/'
            ||| a == 'b' && c == '\u{8}'
            ||| a == 'f' && c == '\u{c}'
            ||| a == 'n' && c == '\n'
            ||| a == 'r' && c == '\r'
            ||| a == 't' && c == '\t'
        },
        Piece::Code(d) => code(d, c as int),
        Piece::Pair(d, e) => exists|high: int, low: int|
            #![trigger code(d, high), code(e, low)]
            code(d, high) && code(e, low) && 0xD800 <= high <= 0xDBFF && 0xDC00 <= low <= 0xDFFF
                && c as int == 0x10000 + 0x400 * (high - 0xD800) + (low - 0xDC00),
    }
}

/// The pieces from `n` on.
pub open spec fn spelling(pieces: Seq<Piece>, n: int) -> Seq<char>
    decreases pieces.len() - n,
{
    if n < 0 || n >= pieces.len() {
        seq![]
    } else {
        spelled(pieces[n]) + spelling(pieces, n + 1)
    }
}

proof fn lemma_code(s: Seq<char>, i: int, d: Seq<char>, n: int)
    requires
        stands(s, i, d),
        code(d, n),
    ensures
        json::hex_at(s, i) == Ok::<nat, Seq<char>>(n as nat),
        0 <= n <= 0xFFFF,
        0 <= i <= s.len() - 4,
{
    reveal(stands);
    json::lemma_utf8_len(s.skip(i));
    let t = s.subrange(i, i + 4);
    assert(t =~= d) by {
        assert(s[i + 0] == d[0]);
        assert(s[i + 1] == d[1]);
        assert(s[i + 2] == d[2]);
        assert(s[i + 3] == d[3]);
    }
    let t3 = t.drop_last();
    let t2 = t3.drop_last();
    let t1 = t2.drop_last();
    assert(t1.drop_last() =~= seq![]);
    assert(text::digits_value(t1.drop_last(), 16) == Some(0nat));
    let (a, b, c, e) = choose|a: int, b: int, c: int, e: int|
        #![trigger hex_digit(d[0], a), hex_digit(d[1], b), hex_digit(d[2], c), hex_digit(d[3], e)]
        hex_digit(d[0], a) && hex_digit(d[1], b) && hex_digit(d[2], c) && hex_digit(d[3], e) && n
            == 4096 * a + 256 * b + 16 * c + e;
    assert(text::digit_value(d[0], 16) == Some(a as nat));
    assert(text::digit_value(d[1], 16) == Some(b as nat));
    assert(text::digit_value(d[2], 16) == Some(c as nat));
    assert(text::digit_value(d[3], 16) == Some(e as nat));
    assert(text::digits_value(t1, 16) == Some(a as nat));
    assert(text::digits_value(t2, 16) == Some((a * 16 + b) as nat));
    assert(text::digits_value(t3, 16) == Some(((a * 16 + b) * 16 + c) as nat));
    assert(text::digits_value(t, 16) == Some((((a * 16 + b) * 16 + c) * 16 + e) as nat));
}

proof fn lemma_piece(s: Seq<char>, i: int, p: Piece, c: char, out: Seq<char>)
    requires
        stands(s, i, spelled(p)),
        writes(p, c),
    ensures
        json::chars_from(s, i, out) == json::chars_from(s, i + spelled(p).len(), out.push(c)),
{
    let t = spelled(p);
    lemma_stands_at(s, i, t, 0);
    match p {
        Piece::Plain(_) => {},
        Piece::Short(_) => {
            lemma_stands_at(s, i, t, 1);
        },
        Piece::Code(d) => {
            lemma_stands_at(s, i, t, 1);
            lemma_parts(s, i, seq!['\\', 'u'], d);
            lemma_code(s, i + 2, d, c as int);
            char_is_scalar(c);
            assert(json::unicode_escape(s, i + 1) == Ok::<(char, int), Seq<char>>((c, i + 6)));
        },
        Piece::Pair(d, e) => {
            let (high, low) = choose|high: int, low: int|
                #![trigger code(d, high), code(e, low)]
                code(d, high) && code(e, low) && 0xD800 <= high <= 0xDBFF && 0xDC00 <= low <= 0xDFFF
                    && c as int == 0x10000 + 0x400 * (high - 0xD800) + (low - 0xDC00);
            lemma_stands_at(s, i, t, 1);
            lemma_stands_at(s, i, t, 6);
            lemma_stands_at(s, i, t, 7);
            let rest = seq!['\\', 'u'] + e;
            assert(t =~= seq!['\\', 'u'] + (d + rest));
            lemma_parts(s, i, seq!['\\', 'u'], d + rest);
            lemma_parts(s, i + 2, d, rest);
            lemma_parts(s, i + 6, seq!['\\', 'u'], e);
            lemma_code(s, i + 2, d, high);
            lemma_code(s, i + 8, e, low);
            char_is_scalar(c);
            assert(json::unicode_escape(s, i + 1) == Ok::<(char, int), Seq<char>>((c, i + 12)));
        },
    }
}

proof fn lemma_pieces(s: Seq<char>, i: int, pieces: Seq<Piece>, chars: Seq<char>, n: int)
    requires
        pieces.len() == chars.len(),
        0 <= n <= pieces.len(),
        forall|k: int| 0 <= k < pieces.len() ==> writes(#[trigger] pieces[k], chars[k]),
        stands(s, i, spelling(pieces, n) + seq!['"']),
    ensures
        json::chars_from(s, i, chars.take(n)) == Ok::<(Seq<char>, int), Seq<char>>(
            (chars, i + spelling(pieces, n).len() + 1),
        ),
    decreases pieces.len() - n,
{
    if n == pieces.len() {
        assert(spelling(pieces, n) + seq!['"'] =~= seq!['"']);
        lemma_char(s, i, '"');
        assert(chars.take(n) =~= chars);
    } else {
        let a = spelled(pieces[n]);
        let rest = spelling(pieces, n + 1);
        assert(spelling(pieces, n) + seq!['"'] =~= a + (rest + seq!['"']));
        lemma_parts(s, i, a, rest + seq!['"']);
        assert(writes(pieces[n], chars[n]));
        lemma_piece(s, i, pieces[n], chars[n], chars.take(n));
        assert(chars.take(n).push(chars[n]) =~= chars.take(n + 1));
        lemma_pieces(s, i + a.len(), pieces, chars, n + 1);
    }
}

/// A string literal reads as the characters that its pieces write: a character
/// for itself, the short escapes and the `\u` escapes for theirs, two
/// surrogates for one character.
pub proof fn law_string_literal(pieces: Seq<Piece>, chars: Seq<char>)
    requires
        pieces.len() == chars.len(),
        forall|k: int| 0 <= k < pieces.len() ==> writes(#[trigger] pieces[k], chars[k]),
    ensures
        json::parsed(seq!['"'] + spelling(pieces, 0) + seq!['"']) == Ok::<ValueView, Seq<char>>(
            ValueView::String(chars),
        ),
{
    let b = spelling(pieces, 0) + seq!['"'];
    let s = seq!['"'] + spelling(pieces, 0) + seq!['"'];
    assert(s =~= seq!['"'] + b);
    assert(stands(s, 0, seq!['"'] + b)) by {
        reveal(stands);
    }
    lemma_parts(s, 0, seq!['"'], b);
    lemma_char(s, 0, '"');
    assert(chars.take(0) =~= seq![]);
    lemma_pieces(s, 1, pieces, chars, 0);
}

// ------------------------------------------------------------- members ----

proof fn lemma_member_at(members: Seq<(Seq<char>, ValueView)>, key: Seq<char>, i: int, k: int)
    requires
        0 <= i <= k <= members.len(),
        forall|j: int| i <= j < k ==> (#[trigger] members[j]).0 != key,
        k < members.len() ==> members[k].0 == key,
    ensures
        json::member_from(members, key, i) == (if k < members.len() {
            Some(members[k].1)
        } else {
            None::<ValueView>
        }),
    decreases k - i,
{
    if i < k {
        lemma_member_at(members, key, i + 1, k);
    }
}

/// The index of a key, or the number of members.
proof fn lemma_member_index(members: Seq<(Seq<char>, ValueView)>, key: Seq<char>, i: int) -> (k:
    int)
    requires
        0 <= i <= members.len(),
    ensures
        i <= k <= members.len(),
        forall|j: int| i <= j < k ==> (#[trigger] members[j]).0 != key,
        k < members.len() ==> members[k].0 == key,
    decreases members.len() - i,
{
    if i == members.len() || members[i].0 == key {
        i
    } else {
        lemma_member_index(members, key, i + 1)
    }
}

/// Of two members with the same key the later one is kept; the others stay.
pub proof fn law_later_member_wins(
    members: Seq<(Seq<char>, ValueView)>,
    key: Seq<char>,
    value: ValueView,
    other: Seq<char>,
)
    requires
        json::ordered(ValueView::Object(members)),
        json::ordered(value),
    ensures
        json::ordered(ValueView::Object(json::put(members, key, value))),
        ValueView::Object(json::put(members, key, value)).member(key) == Some(value),
        other != key ==> ValueView::Object(json::put(members, key, value)).member(other)
            == ValueView::Object(members).member(other),
        json::put(members, key, value).len() == members.len() + (if ValueView::Object(
            members,
        ).member(key) is Some {
            0int
        } else {
            1int
        }),
{
    let new = json::put(members, key, value);
    json::lemma_put_keeps_order(members, key, value);
    let i = json::slot(members, key, 0);
    json::lemma_slot(members, key, 0);
    text_laws::law_text_order(key, key, key.len() as int);
    let there = i < members.len() && members[i].0 == key;
    if there {
        lemma_member_at(members, key, 0, i);
    } else {
        assert forall|j: int| i <= j < members.len() implies (#[trigger] members[j]).0 != key by {
            if members[j].0 == key {
                assert(text::precedes(members[i].0, members[j].0, 0));
            }
        }
        lemma_member_at(members, key, 0, members.len() as int);
    }
    assert forall|j: int| 0 <= j < i implies (#[trigger] new[j]).0 != key by {
        assert(new[j] == members[j]);
    }
    assert(new[i] == (key, value));
    lemma_member_at(new, key, 0, i);
    if other != key {
        let k = lemma_member_index(members, other, 0);
        lemma_member_at(members, other, 0, k);
        let m = if there || k < i {
            k
        } else {
            k + 1
        };
        assert forall|j: int| 0 <= j < m implies (#[trigger] new[j]).0 != other by {
            if there || j < i {
                if j != i {
                    assert(new[j] == members[j]);
                }
            } else if j > i {
                assert(new[j] == members[j - 1]);
            }
        }
        if m < new.len() {
            if there || m < i {
                assert(new[m] == members[m]);
            } else {
                assert(new[m] == members[m - 1]);
            }
        }
        lemma_member_at(new, other, 0, m);
    }
}

// ------------------------------------------------------------- compact ----

/// A tree without gaps.
pub open spec fn bare(t: Tree) -> bool
    decreases t,
{
    match t {
        Tree::Leaf { .. } => true,
        Tree::List { gap, items } => gap.len() == 0 && forall|k: int|
            0 <= k < items.len() ==> (#[trigger] items[k]).before.len() == 0
                && items[k].after.len() == 0 && bare(items[k].tree),
        Tree::Record { gap, members } => gap.len() == 0 && forall|k: int|
            0 <= k < members.len() ==> (#[trigger] members[k]).before.len() == 0
                && members[k].between.len() == 0 && members[k].item.before.len() == 0
                && members[k].item.after.len() == 0 && bare(members[k].item.tree),
    }
}

/// A value is written as its tokens with no gap between them.
pub proof fn law_serialized_is_compact(t: Tree, v: ValueView)
    requires
        renders(t, v),
        bare(t),
    ensures
        json::serialized(v) == layout(t),
    decreases t, 0nat,
{
    match (t, v) {
        (Tree::List { gap: g, items }, ValueView::Array(values)) => {
            assert(decreases_to!(t => t->items));
            assert(g =~= seq![]);
            if items.len() > 0 {
                lemma_compact_items(items, values, 0);
            }
            assert(json::serialized_items(values, 0) =~= seq![]);
        },
        (Tree::Record { gap: g, members }, ValueView::Object(values)) => {
            assert(decreases_to!(t => t->members));
            assert(g =~= seq![]);
            if members.len() > 0 {
                lemma_compact_members(members, values, 0);
            }
            assert(json::serialized_members(values, 0) =~= seq![]);
        },
        _ => {},
    }
}

proof fn lemma_compact_items(items: Seq<Item>, values: Seq<ValueView>, n: int)
    requires
        items.len() == values.len(),
        0 <= n < items.len(),
        forall|k: int|
            0 <= k < items.len() ==> (#[trigger] items[k]).before.len() == 0
                && items[k].after.len() == 0 && bare(items[k].tree) && renders(
                items[k].tree,
                values[k],
            ),
    ensures
        json::serialized_items(values, values.len()) == (if n == 0 {
            items_layout(items, 0)
        } else {
            json::serialized_items(values, n as nat) + seq![','] + items_layout(items, n)
        }),
    decreases items, items.len() - n,
{
    assert(items[n].before =~= seq![] && items[n].after =~= seq![]);
    assert(decreases_to!(items => items[n]));
    assert(decreases_to!(items[n] => items[n].tree));
    law_serialized_is_compact(items[n].tree, values[n]);
    let b = layout(items[n].tree);
    let upto = json::serialized_items(values, (n + 1) as nat);
    assert(n == 0 ==> upto == b);
    assert(n > 0 ==> upto == json::serialized_items(values, n as nat) + seq![','] + b);
    if n + 1 < items.len() {
        lemma_compact_items(items, values, n + 1);
        assert(items_layout(items, n) =~= b + (seq![','] + items_layout(items, n + 1)));
        assert(n == 0 ==> json::serialized_items(values, values.len()) =~= items_layout(items, 0));
        assert(n > 0 ==> json::serialized_items(values, values.len()) =~= json::serialized_items(
            values,
            n as nat,
        ) + seq![','] + items_layout(items, n));
    } else {
        assert(items_layout(items, n) =~= b);
    }
}

proof fn lemma_compact_members(
    members: Seq<Member>,
    values: Seq<(Seq<char>, ValueView)>,
    n: int,
)
    requires
        members.len() == values.len(),
        0 <= n < members.len(),
        forall|k: int|
            0 <= k < members.len() ==> (#[trigger] members[k]).before.len() == 0
                && members[k].between.len() == 0 && members[k].item.before.len() == 0
                && members[k].item.after.len() == 0 && bare(members[k].item.tree)
                && members[k].key == json::serialized(ValueView::String(values[k].0)) && renders(
                members[k].item.tree,
                values[k].1,
            ),
    ensures
        json::serialized_members(values, values.len()) == (if n == 0 {
            members_layout(members, 0)
        } else {
            json::serialized_members(values, n as nat) + seq![','] + members_layout(members, n)
        }),
    decreases members, members.len() - n,
{
    let m = members[n];
    assert(members[n].before =~= seq![] && members[n].between =~= seq![] && members[n].item.before
        =~= seq![] && members[n].item.after =~= seq![]);
    assert(decreases_to!(members => members[n]));
    assert(decreases_to!(members[n] => members[n].item));
    assert(decreases_to!(members[n].item => members[n].item.tree));
    law_serialized_is_compact(members[n].item.tree, values[n].1);
    let b = json::serialized_member(values[n]);
    assert(b =~= m.key + seq![':'] + layout(m.item.tree));
    let upto = json::serialized_members(values, (n + 1) as nat);
    assert(n == 0 ==> upto == b);
    assert(n > 0 ==> upto == json::serialized_members(values, n as nat) + seq![','] + b);
    if n + 1 < members.len() {
        lemma_compact_members(members, values, n + 1);
        assert(members_layout(members, n) =~= b + (seq![','] + members_layout(members, n + 1)));
        assert(n == 0 ==> json::serialized_members(values, values.len()) =~= members_layout(
            members,
            0,
        ));
        assert(n > 0 ==> json::serialized_members(values, values.len())
            =~= json::serialized_members(values, n as nat) + seq![','] + members_layout(
            members,
            n,
        ));
    } else {
        assert(members_layout(members, n) =~= b);
    }
}

/// A string is written character by character between quotes: what can stand
/// for itself does; the quote, the backslash, the line feed, the carriage
/// return and the tab have a short escape; other controls have their code.
pub proof fn law_serialized_string(s: Seq<char>, c: char)
    ensures
        json::serialized(ValueView::String(seq![])) == seq!['"', '"'],
        json::serialized(ValueView::String(s.push(c))) == json::serialized(
            ValueView::String(s),
        ).drop_last() + (if c == '"' {
            seq!['\\', '"']
        } else if c == '\\' {
            seq!['\\', '\\']
        } else if c == '\n' {
            seq!['\\', 'n']
        } else if c == '\r' {
            seq!['\\', 'r']
        } else if c == '\t' {
            seq!['\\', 't']
        } else if ' ' > c {
            "\\u00"@ + (if 16 > c as int {
                seq!['0']
            } else {
                seq!['1']
            }) + text::hexadecimal((c as u32 % 16) as nat)
        } else {
            seq![c]
        }) + seq!['"'],
{
    let e = Seq::<char>::empty();
    assert(json::serialized(ValueView::String(e)) =~= seq!['"', '"']);
    assert(s.push(c).drop_last() =~= s);
    assert(json::serialized(ValueView::String(s)).drop_last() =~= seq!['"'] + json::escaped(s));
    reveal_strlit("\\u00");
    if ' ' > c {
        let n = (c as u32 % 16) as nat;
        assert(text::hexadecimal(n) =~= seq![text::digit_char(n)]);
        assert(json::escaped_char(c) =~= if c == '\n' || c == '\r' || c == '\t' {
            json::escaped_char(c)
        } else {
            "\\u00"@ + (if 16 > c as int {
                seq!['0']
            } else {
                seq!['1']
            }) + text::hexadecimal(n)
        });
    }
    assert(json::serialized(ValueView::String(s.push(c))) =~= seq!['"'] + json::escaped(s)
        + json::escaped_char(c) + seq!['"']);
}

} // verus!
