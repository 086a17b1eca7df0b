//! Written tokens read back.

use crate::lexer;
use crate::lexer::{Punct, TokView, TokenView};
use crate::number;
use crate::number::Number;
use vstd::prelude::*;

verus! {

/// A piece of a string literal: a character, or a backslash with one more.
pub enum Piece {
    Plain(char),
    Escape(char),
}

/// A token as it is written.
pub enum Written {
    Ident(Seq<char>),
    Num(Seq<char>, Number),
    Str(char, Seq<Piece>),
    Sign(Punct),
}

/// A written token, the blanks behind it, and a comment that ends its line.
pub struct Word {
    pub token: Written,
    pub blanks: Seq<char>,
    pub comment: Option<Seq<char>>,
}

pub open spec fn letter(c: char) -> bool {
    ('a' <= c <= 'z') || ('A' <= c <= 'Z') || c == '_' || c == '$'
}

pub open spec fn digit(c: char) -> bool {
    '0' <= c <= '9'
}

/// How an operator or delimiter is written.
pub open spec fn sign(p: Punct) -> Seq<char> {
    match p {
        Punct::StrictEq => seq!['=', '=', '='],
        Punct::StrictNe => seq!['!', '=', '='],
        Punct::Arrow => seq!['=', '>'],
        Punct::LooseEq => seq!['=', '='],
        Punct::LooseNe => seq!['!', '='],
        Punct::Ge => seq!['>', '='],
        Punct::Le => seq!['<', '='],
        Punct::And => seq!['&', '&'],
        Punct::Or => seq!['|', '|'],
        Punct::LParen => seq!['('],
        Punct::RParen => seq![')'],
        Punct::LBrace => seq!['{'],
        Punct::RBrace => seq!['}'],
        Punct::LBracket => seq!['['],
        Punct::RBracket => seq![']'],
        Punct::Comma => seq![','],
        Punct::Semicolon => seq![';'],
        Punct::Dot => seq!['.'],
        Punct::Not => seq!['!'],
        Punct::Gt => seq!['>'],
        Punct::Lt => seq!['<'],
        Punct::Assign => seq!['='],
        Punct::Plus => seq!['+'],
    }
}

pub open spec fn piece_text(p: Piece) -> Seq<char> {
    match p {
        Piece::Plain(c) => seq![c],
        Piece::Escape(c) => seq!['\\', c],
    }
}

/// The character of a piece: `\n`, `\t` and `\r` are the control characters,
/// any other escaped character is itself.
pub open spec fn piece_char(p: Piece) -> char {
    match p {
        Piece::Plain(c) => c,
        Piece::Escape(c) => if c == 'n' {
            '\n'
        } else if c == 't' {
            '\t'
        } else if c == 'r' {
            '\r'
        } else {
            c
        },
    }
}

pub open spec fn pieces_text(pieces: Seq<Piece>, n: int) -> Seq<char>
    decreases pieces.len() - n,
{
    if n < 0 || n >= pieces.len() {
        seq![]
    } else {
        piece_text(pieces[n]) + pieces_text(pieces, n + 1)
    }
}

pub open spec fn spelled(w: Written) -> Seq<char> {
    match w {
        Written::Ident(name) => name,
        Written::Num(t, _) => t,
        Written::Str(quote, pieces) => seq![quote] + pieces_text(pieces, 0) + seq![quote],
        Written::Sign(p) => sign(p),
    }
}

/// The token that is meant.
pub open spec fn meant(w: Written) -> TokView {
    match w {
        Written::Ident(name) => TokView::Ident(name),
        Written::Num(_, n) => TokView::Num(n),
        Written::Str(_, pieces) => TokView::Str(
            Seq::new(pieces.len(), |k: int| piece_char(pieces[k])),
        ),
        Written::Sign(p) => TokView::Punct(p),
    }
}

pub open spec fn sound(w: Written) -> bool {
    match w {
        Written::Ident(name) => name.len() > 0 && letter(name[0]) && forall|k: int|
            0 <= k < name.len() ==> letter(#[trigger] name[k]) || digit(name[k]),
        Written::Num(t, n) => {
            &&& t.len() > 0
            &&& digit(t[0]) || (t[0] == '-' && t.len() > 1 && digit(t[1]))
            &&& forall|k: int| 1 <= k < t.len() ==> digit(#[trigger] t[k]) || t[k] == '.'
            &&& number::read(t) == Some(n)
        },
        Written::Str(quote, pieces) => (quote == '"' || quote == '\'') && forall|k: int|
            0 <= k < pieces.len() ==> (#[trigger] pieces[k] matches Piece::Plain(c) ==> c != quote
                && c != '\\'),
        Written::Sign(_) => true,
    }
}

/// A run of blanks.
pub open spec fn blank(s: Seq<char>) -> bool {
    forall|k: int|
        0 <= k < s.len() ==> #[trigger] s[k] == ' ' || s[k] == '\t' || s[k] == '\n' || s[k] == '\r'
}

pub open spec fn well_written(w: Word) -> bool {
    &&& sound(w.token)
    &&& w.blanks.len() > 0
    &&& blank(w.blanks)
    &&& w.comment matches Some(t) ==> forall|k: int| 0 <= k < t.len() ==> #[trigger] t[k] != '\n'
}

pub open spec fn comment_text(c: Option<Seq<char>>) -> Seq<char> {
    match c {
        None => seq![],
        Some(t) => seq!['/', '/'] + t + seq!['\n'],
    }
}

pub open spec fn word_text(w: Word) -> Seq<char> {
    spelled(w.token) + (w.blanks + comment_text(w.comment))
}

/// The words from `n` on.
pub open spec fn source(words: Seq<Word>, n: int) -> Seq<char>
    decreases words.len() - n,
{
    if n < 0 || n >= words.len() {
        seq![]
    } else {
        word_text(words[n]) + source(words, n + 1)
    }
}

/// Where word `n` begins.
pub open spec fn place(words: Seq<Word>, n: int) -> int
    decreases n,
{
    if n <= 0 {
        0
    } else {
        place(words, n - 1) + word_text(words[n - 1]).len()
    }
}

/// The tokens of the words.
pub open spec fn tokens(words: Seq<Word>) -> Seq<TokenView> {
    Seq::new(
        words.len(),
        |k: int|
            TokenView {
                tok: meant(words[k].token),
                start: place(words, k),
                end: place(words, k) + spelled(words[k].token).len(),
            },
    )
}

// --------------------------------------------------------------- proof ----

spec fn stands(s: Seq<char>, i: int, t: Seq<char>) -> bool {
    &&& 0 <= i
    &&& i + t.len() <= s.len()
    &&& s.subrange(i, i + t.len()) == t
}

proof fn lemma_parts(s: Seq<char>, i: int, a: Seq<char>, b: Seq<char>)
    requires
        stands(s, i, a + b),
    ensures
        stands(s, i, a),
        stands(s, i + a.len(), b),
{
    let c = a + b;
    let t = s.subrange(i, i + c.len());
    assert forall|k: int| 0 <= k < c.len() implies s[i + k] == #[trigger] c[k] by {
        assert(t[k] == c[k]);
    }
    assert(s.subrange(i, i + a.len()) =~= a) by {
        assert forall|k: int| 0 <= k < a.len() implies s[i + k] == a[k] by {
            assert(c[k] == a[k]);
        }
    }
    assert(s.subrange(i + a.len(), i + a.len() + b.len()) =~= b) by {
        assert forall|k: int| 0 <= k < b.len() implies s[i + a.len() + k] == #[trigger] b[k] by {
            assert(c[a.len() + k] == b[k]);
        }
    }
}

proof fn lemma_at(s: Seq<char>, i: int, t: Seq<char>, k: int)
    requires
        stands(s, i, t),
        0 <= k < t.len(),
    ensures
        0 <= i + k < s.len(),
        s[i + k] == t[k],
{
    assert(s.subrange(i, i + t.len())[k] == t[k]);
}

proof fn lemma_blanks(s: Seq<char>, i: int, b: Seq<char>, acc: Seq<TokenView>)
    requires
        stands(s, i, b),
        blank(b),
    ensures
        lexer::tokens_from(s, i, acc) == lexer::tokens_from(s, i + b.len(), acc),
    decreases b.len(),
{
    if b.len() > 0 {
        lemma_at(s, i, b, 0);
        assert(b[0] == ' ' || b[0] == '\t' || b[0] == '\n' || b[0] == '\r');
        let rest = b.drop_first();
        assert(b =~= seq![b[0]] + rest);
        lemma_parts(s, i, seq![b[0]], rest);
        assert forall|k: int| 0 <= k < rest.len() implies #[trigger] rest[k] == ' ' || rest[k]
            == '\t' || rest[k] == '\n' || rest[k] == '\r' by {
            assert(rest[k] == b[k + 1]);
        }
        lemma_blanks(s, i + 1, rest, acc);
    }
}

proof fn lemma_comment_line(s: Seq<char>, i: int, t: Seq<char>)
    requires
        stands(s, i, t + seq!['\n']),
        forall|k: int| 0 <= k < t.len() ==> #[trigger] t[k] != '\n',
    ensures
        lexer::comment_end(s, i) == i + t.len(),
    decreases t.len(),
{
    lemma_at(s, i, t + seq!['\n'], 0);
    if t.len() > 0 {
        let rest = t.drop_first();
        assert(t + seq!['\n'] =~= seq![t[0]] + (rest + seq!['\n']));
        lemma_parts(s, i, seq![t[0]], rest + seq!['\n']);
        assert forall|k: int| 0 <= k < rest.len() implies #[trigger] rest[k] != '\n' by {
            assert(rest[k] == t[k + 1]);
        }
        lemma_comment_line(s, i + 1, rest);
    }
}

proof fn lemma_comment(s: Seq<char>, i: int, c: Option<Seq<char>>, acc: Seq<TokenView>)
    requires
        stands(s, i, comment_text(c)),
        c matches Some(t) ==> forall|k: int| 0 <= k < t.len() ==> #[trigger] t[k] != '\n',
    ensures
        lexer::tokens_from(s, i, acc) == lexer::tokens_from(s, i + comment_text(c).len(), acc),
{
    if let Some(t) = c {
        let whole = comment_text(c);
        let line = seq!['/', '/'] + t;
        assert(whole =~= line + seq!['\n']);
        lemma_at(s, i, whole, 0);
        lemma_at(s, i, whole, 1);
        assert forall|k: int| 0 <= k < line.len() implies #[trigger] line[k] != '\n' by {
            if k >= 2 {
                assert(line[k] == t[k - 2]);
            }
        }
        lemma_comment_line(s, i, line);
        lemma_at(s, i, whole, line.len() as int);
        let j = i + line.len();
        assert(s[j] == '\n');
        assert(lexer::tokens_from(s, i, acc) == lexer::tokens_from(s, j, acc));
    }
}

proof fn lemma_ident(s: Seq<char>, i: int, name: Seq<char>, k: int)
    requires
        stands(s, i, name),
        0 <= k <= name.len(),
        forall|j: int| 0 <= j < name.len() ==> letter(#[trigger] name[j]) || digit(name[j]),
        i + name.len() < s.len(),
        s[i + name.len()] == ' ' || s[i + name.len()] == '\t' || s[i + name.len()] == '\n' || s[i
            + name.len()] == '\r',
    ensures
        lexer::ident_end(s, i + k) == i + name.len(),
    decreases name.len() - k,
{
    if k < name.len() {
        lemma_at(s, i, name, k);
        assert(letter(name[k]) || digit(name[k]));
        lemma_ident(s, i, name, k + 1);
    }
}

proof fn lemma_numeral(s: Seq<char>, i: int, t: Seq<char>, k: int)
    requires
        stands(s, i, t),
        1 <= k <= t.len(),
        forall|j: int| 1 <= j < t.len() ==> digit(#[trigger] t[j]) || t[j] == '.',
        i + t.len() < s.len(),
        s[i + t.len()] == ' ' || s[i + t.len()] == '\t' || s[i + t.len()] == '\n' || s[i + t.len()]
            == '\r',
    ensures
        lexer::numeral_end(s, i + k) == i + t.len(),
    decreases t.len() - k,
{
    if k < t.len() {
        lemma_at(s, i, t, k);
        assert(digit(t[k]) || t[k] == '.');
        lemma_numeral(s, i, t, k + 1);
    }
}

proof fn lemma_literal(
    s: Seq<char>,
    start: int,
    quote: char,
    i: int,
    pieces: Seq<Piece>,
    n: int,
)
    requires
        0 <= n <= pieces.len(),
        quote != '\\',
        stands(s, i, pieces_text(pieces, n) + seq![quote]),
        forall|k: int|
            0 <= k < pieces.len() ==> (#[trigger] pieces[k] matches Piece::Plain(c) ==> c != quote
                && c != '\\'),
    ensures
        ({
            let chars = Seq::new(pieces.len(), |k: int| piece_char(pieces[k]));
            lexer::literal_from(s, start, quote, i, chars.take(n)) == Ok::<
                (Seq<char>, int),
                Seq<char>,
            >((chars, i + pieces_text(pieces, n).len() + 1))
        }),
    decreases pieces.len() - n,
{
    let chars = Seq::new(pieces.len(), |k: int| piece_char(pieces[k]));
    let whole = pieces_text(pieces, n) + seq![quote];
    lemma_at(s, i, whole, 0);
    if n == pieces.len() {
        assert(chars.take(n) =~= chars);
    } else {
        let a = piece_text(pieces[n]);
        let rest = pieces_text(pieces, n + 1) + seq![quote];
        assert(whole =~= a + rest);
        lemma_parts(s, i, a, rest);
        lemma_at(s, i, a, 0);
        if pieces[n] is Escape {
            lemma_at(s, i, a, 1);
        }
        assert(chars.take(n).push(chars[n]) =~= chars.take(n + 1));
        lemma_literal(s, start, quote, i + a.len(), pieces, n + 1);
    }
}

/// A written token with a blank behind it reads as what is meant.
#[verifier::spinoff_prover]
proof fn lemma_token(s: Seq<char>, i: int, w: Written, b: char)
    requires
        sound(w),
        stands(s, i, spelled(w) + seq![b]),
        b == ' ' || b == '\t' || b == '\n' || b == '\r',
    ensures
        spelled(w).len() > 0,
        !lexer::space(s[i]),
        !lexer::comment_at(s, i),
        lexer::token_at(s, i) == Ok::<TokenView, Seq<char>>(
            TokenView { tok: meant(w), start: i, end: i + spelled(w).len() },
        ),
{
    let t = spelled(w);
    let n = t.len() as int;
    lemma_parts(s, i, t, seq![b]);
    lemma_at(s, i + n, seq![b], 0);
    lemma_at(s, i, t + seq![b], 0);
    match w {
        Written::Ident(name) => {
            assert(letter(name[0]) || digit(name[0]));
            lemma_ident(s, i, name, 0);
        },
        Written::Num(_, _) => {
            if t.len() > 1 {
                lemma_at(s, i, t, 1);
            }
            lemma_numeral(s, i, t, 1);
        },
        Written::Str(quote, pieces) => {
            let rest = pieces_text(pieces, 0) + seq![quote];
            assert(t =~= seq![quote] + rest);
            lemma_parts(s, i, seq![quote], rest);
            let chars = Seq::new(pieces.len(), |k: int| piece_char(pieces[k]));
            assert(chars.take(0) =~= seq![]);
            lemma_literal(s, i, quote, i + 1, pieces, 0);
        },
        Written::Sign(p) => {
            if n > 1 {
                lemma_at(s, i, t, 1);
            }
            if n > 2 {
                lemma_at(s, i, t, 2);
            }
            assert(s[i + n] == b);
            lemma_sign(s, i, p);
        },
    }
}

proof fn lemma_sign(s: Seq<char>, i: int, p: Punct)
    requires
        0 <= i,
        i + sign(p).len() < s.len(),
        s[i] == sign(p)[0],
        sign(p).len() > 1 ==> s[i + 1] == sign(p)[1],
        sign(p).len() > 2 ==> s[i + 2] == sign(p)[2],
        ({
            let b = s[i + sign(p).len()];
            b == ' ' || b == '\t' || b == '\n' || b == '\r'
        }),
    ensures
        lexer::punct_at(s, i) == Some((p, sign(p).len() as int)),
{
}

proof fn lemma_words(s: Seq<char>, words: Seq<Word>, n: int)
    requires
        0 <= n <= words.len(),
        forall|k: int| 0 <= k < words.len() ==> well_written(#[trigger] words[k]),
        stands(s, place(words, n), source(words, n)),
        place(words, n) + source(words, n).len() == s.len(),
    ensures
        lexer::tokens_from(s, place(words, n), tokens(words).take(n)) == Ok::<
            Seq<TokenView>,
            Seq<char>,
        >(tokens(words)),
    decreases words.len() - n,
{
    let i = place(words, n);
    let acc = tokens(words).take(n);
    if n == words.len() {
        assert(acc =~= tokens(words));
    } else {
        let w = words[n];
        assert(well_written(words[n]));
        let t = spelled(w.token);
        let c = comment_text(w.comment);
        let rest = source(words, n + 1);
        assert(source(words, n) =~= t + (w.blanks + (c + rest)));
        lemma_parts(s, i, t, w.blanks + (c + rest));
        let j = i + t.len();
        lemma_parts(s, j, w.blanks, c + rest);
        let k = j + w.blanks.len();
        lemma_parts(s, k, c, rest);
        let m = k + c.len();
        let b = w.blanks[0];
        assert(b == ' ' || b == '\t' || b == '\n' || b == '\r');
        assert(stands(s, i, t + seq![b])) by {
            lemma_at(s, j, w.blanks, 0);
            assert forall|x: int| 0 <= x < t.len() implies s[i + x] == #[trigger] t[x] by {
                lemma_at(s, i, t, x);
            }
            assert(s.subrange(i, i + t.len() + 1) =~= t + seq![b]);
        }
        lemma_token(s, i, w.token, b);
        let next = tokens(words)[n];
        assert(acc.push(next) =~= tokens(words).take(n + 1));
        lexer::lemma_token_bounds(s, i);
        assert(lexer::tokens_from(s, i, acc) == lexer::tokens_from(s, j, acc.push(next)));
        lemma_blanks(s, j, w.blanks, acc.push(next));
        lemma_comment(s, k, w.comment, acc.push(next));
        assert(place(words, n + 1) == m);
        lemma_words(s, words, n + 1);
    }
}

/// Tokens that are written one after another, with blanks between them and
/// comments at the ends of lines, are read as those tokens, each where it
/// stands.
pub proof fn law_written_tokens_read_back(words: Seq<Word>)
    requires
        forall|k: int| 0 <= k < words.len() ==> well_written(#[trigger] words[k]),
    ensures
        lexer::tokens_of(source(words, 0)) == Ok::<Seq<TokenView>, Seq<char>>(tokens(words)),
{
    let s = source(words, 0);
    assert(s.subrange(0, s.len() as int) =~= s);
    assert(tokens(words).take(0) =~= seq![]);
    lemma_words(s, words, 0);
}

/// Delimiters need no blank behind them: what follows is read on its own.
pub proof fn law_delimiters_stand_alone(s: Seq<char>, i: int)
    requires
        0 <= i < s.len(),
    ensures
        s[i] == '(' ==> lexer::token_at(s, i) == Ok::<TokenView, Seq<char>>(
            TokenView { tok: TokView::Punct(Punct::LParen), start: i, end: i + 1 },
        ),
        s[i] == ')' ==> lexer::token_at(s, i) == Ok::<TokenView, Seq<char>>(
            TokenView { tok: TokView::Punct(Punct::RParen), start: i, end: i + 1 },
        ),
        s[i] == '{' ==> lexer::token_at(s, i) == Ok::<TokenView, Seq<char>>(
            TokenView { tok: TokView::Punct(Punct::LBrace), start: i, end: i + 1 },
        ),
        s[i] == '}' ==> lexer::token_at(s, i) == Ok::<TokenView, Seq<char>>(
            TokenView { tok: TokView::Punct(Punct::RBrace), start: i, end: i + 1 },
        ),
        s[i] == '[' ==> lexer::token_at(s, i) == Ok::<TokenView, Seq<char>>(
            TokenView { tok: TokView::Punct(Punct::LBracket), start: i, end: i + 1 },
        ),
        s[i] == ']' ==> lexer::token_at(s, i) == Ok::<TokenView, Seq<char>>(
            TokenView { tok: TokView::Punct(Punct::RBracket), start: i, end: i + 1 },
        ),
        s[i] == ',' ==> lexer::token_at(s, i) == Ok::<TokenView, Seq<char>>(
            TokenView { tok: TokView::Punct(Punct::Comma), start: i, end: i + 1 },
        ),
        s[i] == ';' ==> lexer::token_at(s, i) == Ok::<TokenView, Seq<char>>(
            TokenView { tok: TokView::Punct(Punct::Semicolon), start: i, end: i + 1 },
        ),
        s[i] == '.' ==> lexer::token_at(s, i) == Ok::<TokenView, Seq<char>>(
            TokenView { tok: TokView::Punct(Punct::Dot), start: i, end: i + 1 },
        ),
        s[i] == '+' ==> lexer::token_at(s, i) == Ok::<TokenView, Seq<char>>(
            TokenView { tok: TokView::Punct(Punct::Plus), start: i, end: i + 1 },
        ),
{
}

} // verus!
