//! What searching, trimming and reading numbers in text come to.

use crate::text;
use vstd::prelude::*;

verus! {

/// Among the ASCII characters white space is the five control characters from
/// the tab to the carriage return, and the space.
pub proof fn law_ascii_white_space(c: char)
    requires
        (c as u32) < 128,
    ensures
        text::whitespace(c) <==> c == '\t' || c == '\n' || c == '\u{b}' || c == '\u{c}' || c == '\r'
            || c == ' ',
{
}

/// Every character of the text is white space.
pub open spec fn white(s: Seq<char>) -> bool {
    forall|k: int| 0 <= k < s.len() ==> text::whitespace(#[trigger] s[k])
}

/// The text neither begins nor ends with white space.
pub open spec fn flush(s: Seq<char>) -> bool {
    s.len() > 0 ==> !text::whitespace(s[0]) && !text::whitespace(s.last())
}

pub(crate) proof fn lemma_skip_white(s: Seq<char>, i: int, n: int)
    requires
        0 <= i <= n <= s.len(),
        forall|k: int| i <= k < n ==> text::whitespace(#[trigger] s[k]),
        n < s.len() ==> !text::whitespace(s[n]),
    ensures
        text::skip_white(s, i) == n,
    decreases n - i,
{
    if i < n {
        lemma_skip_white(s, i + 1, n);
    }
}

proof fn lemma_back_white(s: Seq<char>, j: int, n: int)
    requires
        0 <= n <= j <= s.len(),
        forall|k: int| n <= k < j ==> text::whitespace(#[trigger] s[k]),
        n > 0 ==> !text::whitespace(s[n - 1]),
    ensures
        text::back_white(s, j) == n,
    decreases j - n,
{
    if n < j {
        lemma_back_white(s, j - 1, n);
    }
}

/// Trimming takes the white space off both ends, all of it and nothing else.
pub proof fn law_trimmed(a: Seq<char>, s: Seq<char>, b: Seq<char>)
    requires
        white(a),
        white(b),
        flush(s),
    ensures
        text::trimmed(a + s + b) == s,
{
    let t = a + s + b;
    let n = a.len() as int;
    if s.len() == 0 {
        assert forall|k: int| 0 <= k < t.len() implies text::whitespace(#[trigger] t[k]) by {
            if k < n {
                assert(t[k] == a[k]);
            } else {
                assert(t[k] == b[k - n]);
            }
        }
        lemma_skip_white(t, 0, t.len() as int);
        assert(text::ltrim(t) =~= seq![]);
        assert(text::trimmed(t) =~= s);
    } else {
        assert forall|k: int| 0 <= k < n implies text::whitespace(#[trigger] t[k]) by {
            assert(t[k] == a[k]);
        }
        assert(t[n] == s[0]);
        lemma_skip_white(t, 0, n);
        let u = text::ltrim(t);
        assert(u =~= s + b);
        let m = s.len() as int;
        assert forall|k: int| m <= k < u.len() implies text::whitespace(#[trigger] u[k]) by {
            assert(u[k] == b[k - m]);
        }
        assert(u[m - 1] == s.last());
        lemma_back_white(u, u.len() as int, m);
        assert(u.take(m) =~= s);
    }
}

/// Every text is a trimmed one with white space around it.
pub proof fn lemma_around(s: Seq<char>) -> (r: (Seq<char>, Seq<char>))
    ensures
        s == r.0 + text::trimmed(s) + r.1,
        white(r.0),
        white(r.1),
        flush(text::trimmed(s)),
    decreases s.len(),
{
    if s.len() == 0 {
        assert(text::trimmed(s) =~= s);
        assert(s + s + s =~= s);
        (s, s)
    } else if text::whitespace(s[0]) {
        let rest = s.drop_first();
        let (a, b) = lemma_around(rest);
        let t = text::trimmed(rest);
        let c = seq![s[0]] + a;
        assert(white(c));
        assert(s =~= seq![s[0]] + rest);
        assert(seq![s[0]] + (a + t + b) =~= c + t + b);
        law_trimmed(c, t, b);
        (c, b)
    } else if text::whitespace(s.last()) {
        let rest = s.drop_last();
        let (a, b) = lemma_around(rest);
        let t = text::trimmed(rest);
        let c = b.push(s.last());
        assert(white(c));
        assert(s =~= rest.push(s.last()));
        assert((a + t + b).push(s.last()) =~= a + t + c);
        law_trimmed(a, t, c);
        (a, c)
    } else {
        let e = Seq::<char>::empty();
        assert(e + s + e =~= s);
        law_trimmed(e, s, e);
        (e, e)
    }
}

/// The pattern stands at a position of the text.
pub open spec fn occurs(s: Seq<char>, p: Seq<char>, i: int) -> bool {
    0 <= i && i + p.len() <= s.len() && forall|k: int|
        0 <= k < p.len() ==> #[trigger] p[k] == s[i + k]
}

proof fn lemma_find_from(s: Seq<char>, p: Seq<char>, i: int)
    requires
        0 <= i,
    ensures
        match text::find(s, p, i) {
            Some(j) => i <= j && occurs(s, p, j) && forall|k: int|
                i <= k < j ==> !#[trigger] occurs(s, p, k),
            None => forall|k: int| i <= k ==> !#[trigger] occurs(s, p, k),
        },
    decreases s.len() - i + 1,
{
    if i + p.len() <= s.len() {
        let t = s.subrange(i, i + p.len());
        if t == p {
            assert forall|k: int| 0 <= k < p.len() implies #[trigger] p[k] == s[i + k] by {
                assert(t[k] == s[i + k]);
            }
        } else {
            if occurs(s, p, i) {
                assert(t =~= p);
            }
            lemma_find_from(s, p, i + 1);
        }
    }
}

/// A search finds the first occurrence, and nothing only where there is none.
pub proof fn law_find_is_first(s: Seq<char>, p: Seq<char>)
    ensures
        match text::find(s, p, 0) {
            Some(j) => occurs(s, p, j) && forall|k: int| 0 <= k < j ==> !#[trigger] occurs(s, p, k),
            None => forall|k: int| !#[trigger] occurs(s, p, k),
        },
{
    lemma_find_from(s, p, 0);
}

/// A search that starts at a position, where it is known what lies between.
pub proof fn lemma_find_at(s: Seq<char>, p: Seq<char>, i: int, j: int)
    requires
        0 <= i <= j,
        occurs(s, p, j),
        forall|k: int| i <= k < j ==> !#[trigger] occurs(s, p, k),
    ensures
        text::find(s, p, i) == Some(j),
{
    lemma_find_from(s, p, i);
}

/// A search that starts at a position and finds nothing.
pub proof fn lemma_find_none(s: Seq<char>, p: Seq<char>, i: int)
    requires
        0 <= i,
        forall|k: int| i <= k ==> !#[trigger] occurs(s, p, k),
    ensures
        text::find(s, p, i) is None,
{
    lemma_find_from(s, p, i);
}

/// A text holds, begins with and ends with its parts.
pub proof fn law_parts(a: Seq<char>, p: Seq<char>, b: Seq<char>)
    ensures
        text::contains(a + p + b, p),
        text::starts(p + b, p),
        text::ends(a + p, p),
{
    let s = a + p + b;
    let n = a.len() as int;
    lemma_find_from(s, p, 0);
    assert forall|k: int| 0 <= k < p.len() implies #[trigger] p[k] == s[n + k] by {}
    assert(occurs(s, p, n));
    assert((p + b).take(p.len() as int) =~= p);
    assert((a + p).skip(n) =~= p);
}

/// What a text holds, begins with or ends with is a part of it.
pub proof fn law_only_parts(s: Seq<char>, p: Seq<char>)
    ensures
        text::contains(s, p) ==> exists|k: int| occurs(s, p, k),
        text::starts(s, p) ==> occurs(s, p, 0),
        text::ends(s, p) ==> occurs(s, p, s.len() - p.len()),
{
    lemma_find_from(s, p, 0);
    if text::starts(s, p) {
        assert forall|k: int| 0 <= k < p.len() implies #[trigger] p[k] == s[0 + k] by {
            assert(s.take(p.len() as int)[k] == s[k]);
        }
    }
    if text::ends(s, p) {
        let m = s.len() - p.len();
        assert forall|k: int| 0 <= k < p.len() implies #[trigger] p[k] == s[m + k] by {
            assert(s.skip(m)[k] == s[m + k]);
        }
    }
}

/// `a` comes before `b` exactly where they first differ by a smaller character
/// of `a`, or `a` ends there.
pub proof fn law_text_order(a: Seq<char>, b: Seq<char>, k: int)
    requires
        0 <= k <= a.len(),
        k <= b.len(),
        a.take(k) == b.take(k),
        k < a.len() && k < b.len() ==> a[k] != b[k],
    ensures
        text::precedes(a, b, 0) <==> k < b.len() && (k == a.len() || a[k] < b[k]),
{
    lemma_order_from(a, b, 0, k);
}

proof fn lemma_order_from(a: Seq<char>, b: Seq<char>, i: int, k: int)
    requires
        0 <= i <= k <= a.len(),
        k <= b.len(),
        a.take(k) == b.take(k),
        k < a.len() && k < b.len() ==> a[k] != b[k],
    ensures
        text::precedes(a, b, i) <==> k < b.len() && (k == a.len() || a[k] < b[k]),
    decreases k - i,
{
    if i < k {
        assert(a.take(k)[i] == a[i] && b.take(k)[i] == b[i]);
        lemma_order_from(a, b, i + 1, k);
    }
}

/// Two characters that are the same, or the same ASCII letter.
pub open spec fn same_letter(c: char, d: char) -> bool {
    ||| c == d
    ||| ('a' <= c <= 'z' && d as u32 + 32 == c as u32)
    ||| ('a' <= d <= 'z' && c as u32 + 32 == d as u32)
}

/// Texts are the same up to the case of ASCII letters, character by character.
pub proof fn law_same_letters(a: Seq<char>, b: Seq<char>)
    ensures
        text::same_letters(a, b) <==> a.len() == b.len() && forall|k: int|
            0 <= k < a.len() ==> same_letter(#[trigger] a[k], b[k]),
{
    let (x, y) = (text::ascii_lower(a), text::ascii_lower(b));
    assert(x.len() == a.len() && y.len() == b.len());
    assert forall|k: int| 0 <= k < a.len() && k < b.len() implies (#[trigger] x[k] == y[k] <==>
        same_letter(a[k], b[k])) by {}
    if text::same_letters(a, b) {
        assert forall|k: int| 0 <= k < a.len() implies same_letter(#[trigger] a[k], b[k]) by {
            assert(x[k] == y[k]);
        }
    }
    if a.len() == b.len() && forall|k: int|
        0 <= k < a.len() ==> same_letter(#[trigger] a[k], b[k]) {
        assert forall|k: int| 0 <= k < x.len() implies x[k] == y[k] by {
            assert(same_letter(a[k], b[k]));
        }
        assert(x =~= y);
    }
}

/// ASCII letters become small and nothing else changes.
pub proof fn law_ascii_lower(s: Seq<char>)
    ensures
        text::ascii_lower(s).len() == s.len(),
        forall|k: int|
            0 <= k < s.len() ==> same_letter(#[trigger] text::ascii_lower(s)[k], s[k]) && !('A'
                <= text::ascii_lower(s)[k] <= 'Z'),
        forall|k: int|
            0 <= k < s.len() ==> same_letter(#[trigger] text::ascii_upper(s)[k], s[k]) && !('a'
                <= text::ascii_upper(s)[k] <= 'z'),
{
}

/// Decimal notation: the digits of the number, the last one for its ones.
pub proof fn law_decimal(n: nat)
    ensures
        text::decimal(n).len() > 0,
        text::decimal(n).last() as u32 == '0' as u32 + n % 10,
        n < 10 ==> text::decimal(n).len() == 1,
        n >= 10 ==> text::decimal(n).drop_last() == text::decimal(n / 10),
{
    text::lemma_decimal(n);
    if n >= 10 {
        assert(text::decimal(n).drop_last() =~= text::decimal(n / 10));
    }
}

/// Decimal notation is read as its number where that is small enough, with or
/// without a plus sign; text with another character is no number.
pub proof fn law_unsigned_decimal(n: nat, max: nat, s: Seq<char>, k: int)
    requires
        0 <= k < s.len(),
        !('0' <= s[k] <= '9'),
        k > 0 || s[0] != '+',
    ensures
        text::unsigned(text::decimal(n), 10, max) == if n <= max {
            Some(n)
        } else {
            None
        },
        text::unsigned(seq!['+'] + text::decimal(n), 10, max) == if n <= max {
            Some(n)
        } else {
            None
        },
        text::unsigned(s, 10, max) is None,
        text::unsigned(seq![], 10, max) is None,
{
    let d = text::decimal(n);
    text::lemma_decimal(n);
    assert(text::ascii_digit(d[0]));
    assert((seq!['+'] + d).drop_first() =~= d);
    lemma_no_digits(s, k);
    if s[0] == '+' {
        lemma_no_digits(s.drop_first(), k - 1);
    }
}

proof fn lemma_no_digits(s: Seq<char>, k: int)
    requires
        0 <= k < s.len(),
        !('0' <= s[k] <= '9'),
    ensures
        text::digits_value(s, 10) is None,
    decreases s.len(),
{
    if k + 1 < s.len() {
        lemma_no_digits(s.drop_last(), k);
    } else {
        assert(s.last() == s[k]);
    }
}

/// The parts joined, one more behind its separator.
pub proof fn law_joined(parts: Seq<Seq<char>>, part: Seq<char>, sep: Seq<char>)
    ensures
        text::joined(seq![], sep).len() == 0,
        text::joined(seq![part], sep) == part,
        parts.len() > 0 ==> text::joined(parts.push(part), sep) == text::joined(parts, sep) + sep
            + part,
{
    assert(parts.push(part).drop_last() =~= parts);
}

/// The pieces with the character between them, from `n` on.
pub open spec fn pieces_text(pieces: Seq<Seq<char>>, c: char, n: int) -> Seq<char>
    decreases pieces.len() - n,
{
    if n < 0 || n >= pieces.len() {
        seq![]
    } else if n + 1 == pieces.len() {
        pieces[n]
    } else {
        pieces[n] + seq![c] + pieces_text(pieces, c, n + 1)
    }
}

/// A text is cut at every occurrence of the character, and nowhere else.
pub proof fn law_split(pieces: Seq<Seq<char>>, c: char)
    requires
        pieces.len() > 0,
        forall|k: int, j: int|
            0 <= k < pieces.len() && 0 <= j < pieces[k].len() ==> #[trigger] pieces[k][j] != c,
    ensures
        text::split_set(pieces_text(pieces, c, 0), seq![c], 0) == pieces,
{
    let s = pieces_text(pieces, c, 0);
    assert(s.skip(0) =~= s);
    lemma_split(s, pieces, c, 0, 0);
    assert(pieces.skip(0) =~= pieces);
}

proof fn lemma_split(s: Seq<char>, pieces: Seq<Seq<char>>, c: char, n: int, i: int)
    requires
        0 <= n < pieces.len(),
        0 <= i <= s.len(),
        s.skip(i) == pieces_text(pieces, c, n),
        forall|k: int, j: int|
            0 <= k < pieces.len() && 0 <= j < pieces[k].len() ==> #[trigger] pieces[k][j] != c,
    ensures
        text::split_set(s, seq![c], i) == pieces.skip(n),
    decreases pieces.len() - n,
{
    let set = seq![c];
    let piece = pieces[n];
    let rest = s.skip(i);
    let m = i + piece.len();
    assert(rest.len() == s.len() - i);
    assert(rest.len() >= piece.len());
    if n + 1 < pieces.len() {
        assert(rest == piece + seq![c] + pieces_text(pieces, c, n + 1));
    }
    assert forall|k: int| i <= k < m implies !set.contains(#[trigger] s[k]) by {
        assert(s[k] == rest[k - i]);
        assert(rest[k - i] == piece[k - i]);
        assert(pieces[n][k - i] != c);
    }
    if n + 1 == pieces.len() {
        text::lemma_find_set_none(s, set, i);
        assert(pieces.skip(n) =~= seq![piece]);
    } else {
        assert(rest[piece.len() as int] == c);
        assert(s[m] == c);
        assert(set[0] == c);
        assert(set.contains(s[m]));
        lemma_find_set_at(s, set, i, m);
        assert(s.subrange(i, m) =~= piece) by {
            assert forall|k: int| 0 <= k < piece.len() implies s[i + k] == piece[k] by {
                assert(rest[k] == piece[k]);
            }
        }
        assert(s.skip(m + 1) =~= pieces_text(pieces, c, n + 1)) by {
            assert(rest.skip(piece.len() as int + 1) =~= pieces_text(pieces, c, n + 1));
            assert(s.skip(m + 1) =~= rest.skip(piece.len() as int + 1));
        }
        lemma_split(s, pieces, c, n + 1, m + 1);
        assert(pieces.skip(n) =~= seq![piece] + pieces.skip(n + 1));
    }
}

proof fn lemma_find_set_at(s: Seq<char>, set: Seq<char>, i: int, n: int)
    requires
        0 <= i <= n < s.len(),
        set.contains(s[n]),
        forall|k: int| i <= k < n ==> !set.contains(#[trigger] s[k]),
    ensures
        text::find_set(s, set, i) == Some(n),
    decreases n - i,
{
    if i < n {
        lemma_find_set_at(s, set, i + 1, n);
    }
}

/// Taking a character off both ends takes all of them, and stops at any other.
pub proof fn law_stripped(c: char, m: nat, s: Seq<char>, n: nat)
    requires
        s.len() > 0,
        s[0] != c,
        s.last() != c,
    ensures
        text::rstrip(
            text::lstrip(Seq::new(m, |i: int| c) + s + Seq::new(n, |i: int| c), seq![c]),
            seq![c],
        ) == s,
{
    let set = seq![c];
    assert(set[0] == c);
    let a = Seq::new(m, |i: int| c);
    let b = Seq::new(n, |i: int| c);
    let t = a + s + b;
    assert(t[m as int] == s[0]);
    lemma_skip_set(t, set, 0, m as int);
    let u = text::lstrip(t, set);
    assert(u =~= s + b);
    assert(u[s.len() - 1] == s.last());
    lemma_back_set(u, set, u.len() as int, s.len() as int);
    assert(u.take(s.len() as int) =~= s);
}

proof fn lemma_skip_set(s: Seq<char>, set: Seq<char>, i: int, n: int)
    requires
        0 <= i <= n <= s.len(),
        forall|k: int| i <= k < n ==> set.contains(#[trigger] s[k]),
        n < s.len() ==> !set.contains(s[n]),
    ensures
        text::skip_set(s, set, i) == n,
    decreases n - i,
{
    if i < n {
        lemma_skip_set(s, set, i + 1, n);
    }
}

proof fn lemma_back_set(s: Seq<char>, set: Seq<char>, j: int, n: int)
    requires
        0 <= n <= j <= s.len(),
        forall|k: int| n <= k < j ==> set.contains(#[trigger] s[k]),
        n > 0 ==> !set.contains(s[n - 1]),
    ensures
        text::back_set(s, set, j) == n,
    decreases j - n,
{
    if n < j {
        lemma_back_set(s, set, j - 1, n);
    }
}

/// White space is what Unicode calls so: the tab, the line feed, the vertical
/// tab, the form feed, the carriage return, the space, the next line, and the
/// spaces and separators of other scripts.
pub proof fn law_white_space(c: char)
    ensures
        text::whitespace(c) <==> {
            ||| c == '\u{9}' || c == '\u{a}' || c == '\u{b}' || c == '\u{c}' || c == '\u{d}'
            ||| c == ' ' || c == '\u{85}' || c == '\u{a0}' || c == '\u{1680}'
            ||| c == '\u{2000}' || c == '\u{2001}' || c == '\u{2002}' || c == '\u{2003}'
            ||| c == '\u{2004}' || c == '\u{2005}' || c == '\u{2006}' || c == '\u{2007}'
            ||| c == '\u{2008}' || c == '\u{2009}' || c == '\u{200a}'
            ||| c == '\u{2028}' || c == '\u{2029}' || c == '\u{202f}' || c == '\u{205f}'
            ||| c == '\u{3000}'
        },
{
}

} // verus!
