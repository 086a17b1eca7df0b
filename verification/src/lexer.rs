//! Tokens of response-handler scripts.

use crate::json;
use crate::number;
use crate::number::Number;
use crate::text;
use vstd::prelude::*;
use vstd::slice::slice_subrange;
use vstd::utf8::*;

verus! {

/// Operators and delimiters.
#[derive(Debug, Clone, Copy, PartialEq, Eq, Structural)]
pub enum Punct {
    StrictEq,
    StrictNe,
    Arrow,
    LooseEq,
    LooseNe,
    Ge,
    Le,
    And,
    Or,
    LParen,
    RParen,
    LBrace,
    RBrace,
    LBracket,
    RBracket,
    Comma,
    Semicolon,
    Dot,
    Not,
    Gt,
    Lt,
    Assign,
    Plus,
}

/// How an operator or delimiter is written.
pub open spec fn punct_text(p: Punct) -> Seq<char> {
    match p {
        Punct::StrictEq => "==="@,
        Punct::StrictNe => "!=="@,
        Punct::Arrow => "=>"@,
        Punct::LooseEq => "=="@,
        Punct::LooseNe => "!="@,
        Punct::Ge => ">="@,
        Punct::Le => "<="@,
        Punct::And => "&&"@,
        Punct::Or => "||"@,
        Punct::LParen => "("@,
        Punct::RParen => ")"@,
        Punct::LBrace => "{"@,
        Punct::RBrace => "}"@,
        Punct::LBracket => "["@,
        Punct::RBracket => "]"@,
        Punct::Comma => ","@,
        Punct::Semicolon => ";"@,
        Punct::Dot => "."@,
        Punct::Not => "!"@,
        Punct::Gt => ">"@,
        Punct::Lt => "<"@,
        Punct::Assign => "="@,
        Punct::Plus => "+"@,
    }
}

impl Punct {
    pub fn text(self) -> (r: &'static str)
        ensures
            r@ == punct_text(self),
    {
        match self {
            Punct::StrictEq => "===",
            Punct::StrictNe => "!==",
            Punct::Arrow => "=>",
            Punct::LooseEq => "==",
            Punct::LooseNe => "!=",
            Punct::Ge => ">=",
            Punct::Le => "<=",
            Punct::And => "&&",
            Punct::Or => "||",
            Punct::LParen => "(",
            Punct::RParen => ")",
            Punct::LBrace => "{",
            Punct::RBrace => "}",
            Punct::LBracket => "[",
            Punct::RBracket => "]",
            Punct::Comma => ",",
            Punct::Semicolon => ";",
            Punct::Dot => ".",
            Punct::Not => "!",
            Punct::Gt => ">",
            Punct::Lt => "<",
            Punct::Assign => "=",
            Punct::Plus => "+",
        }
    }
}

#[derive(Debug)]
pub enum Tok {
    Ident(String),
    Str(String),
    Num(Number),
    Punct(Punct),
}

/// What a token stands for.
pub enum TokView {
    Ident(Seq<char>),
    Str(Seq<char>),
    Num(Number),
    Punct(Punct),
}

impl View for Tok {
    type V = TokView;

    open spec fn view(&self) -> TokView {
        match self {
            Tok::Ident(s) => TokView::Ident(s@),
            Tok::Str(s) => TokView::Str(s@),
            Tok::Num(n) => TokView::Num(*n),
            Tok::Punct(p) => TokView::Punct(*p),
        }
    }
}

#[derive(Debug)]
pub struct Token {
    pub tok: Tok,
    /// Position in the script source (for spans and error positions).
    pub start: usize,
    pub end: usize,
}

/// A token and its place in the source.
pub struct TokenView {
    pub tok: TokView,
    pub start: int,
    pub end: int,
}

impl View for Token {
    type V = TokenView;

    open spec fn view(&self) -> TokenView {
        TokenView { tok: self.tok@, start: self.start as int, end: self.end as int }
    }
}

/// What a list of tokens stands for.
pub open spec fn views(tokens: Seq<Token>) -> Seq<TokenView> {
    Seq::new(tokens.len(), |i: int| tokens[i]@)
}

// ------------------------------------------------------------ grammar ----

/// White space between tokens.
pub open spec fn space(c: char) -> bool {
    ('\u{9}' <= c <= '\u{d}') || c == ' '
}

pub open spec fn ident_start(c: char) -> bool {
    text::ascii_letter(c) || c == '_' || c == '$'
}

pub open spec fn ident_part(c: char) -> bool {
    ident_start(c) || text::ascii_digit(c)
}

/// The end of the identifier characters from `i` on.
pub open spec fn ident_end(s: Seq<char>, i: int) -> int
    decreases s.len() - i,
{
    if 0 <= i < s.len() && ident_part(s[i]) {
        ident_end(s, i + 1)
    } else {
        i
    }
}

/// The end of the digits and dots from `i` on.
pub open spec fn numeral_end(s: Seq<char>, i: int) -> int
    decreases s.len() - i,
{
    if 0 <= i < s.len() && (text::ascii_digit(s[i]) || s[i] == '.') {
        numeral_end(s, i + 1)
    } else {
        i
    }
}

/// The end of the comment from `i` on: a line feed or the end of the text.
pub open spec fn comment_end(s: Seq<char>, i: int) -> int
    decreases s.len() - i,
{
    if 0 <= i < s.len() && s[i] != '\n' {
        comment_end(s, i + 1)
    } else {
        i
    }
}

/// What an escaped character in a string literal stands for.
pub open spec fn unescaped(c: char) -> char {
    if c == 'n' {
        '\n'
    } else if c == 't' {
        '\t'
    } else if c == 'r' {
        '\r'
    } else {
        c
    }
}

/// The string literal that began at `start`, from `i` on, after the characters
/// `out`, and the position after it.
pub open spec fn literal_from(
    s: Seq<char>,
    start: int,
    quote: char,
    i: int,
    out: Seq<char>,
) -> Result<(Seq<char>, int), Seq<char>>
    decreases s.len() - i,
{
    if i < 0 || i >= s.len() {
        Err("unterminated string at offset "@ + json::offset(s, start))
    } else if s[i] == quote {
        Ok((out, i + 1))
    } else if s[i] != '\\' {
        literal_from(s, start, quote, i + 1, out.push(s[i]))
    } else if i + 1 < s.len() {
        literal_from(s, start, quote, i + 2, out.push(unescaped(s[i + 1])))
    } else {
        Err("dangling escape at offset "@ + json::offset(s, i))
    }
}

/// The longest operator or delimiter at `i`, and its length.
pub open spec fn punct_at(s: Seq<char>, i: int) -> Option<(Punct, int)> {
    let c = s[i];
    let second_eq = json::at(s, i + 1, '=');
    let third_eq = json::at(s, i + 2, '=');
    if c == '=' {
        if second_eq && third_eq {
            Some((Punct::StrictEq, 3))
        } else if json::at(s, i + 1, '>') {
            Some((Punct::Arrow, 2))
        } else if second_eq {
            Some((Punct::LooseEq, 2))
        } else {
            Some((Punct::Assign, 1))
        }
    } else if c == '!' {
        if second_eq && third_eq {
            Some((Punct::StrictNe, 3))
        } else if second_eq {
            Some((Punct::LooseNe, 2))
        } else {
            Some((Punct::Not, 1))
        }
    } else if c == '>' {
        if second_eq {
            Some((Punct::Ge, 2))
        } else {
            Some((Punct::Gt, 1))
        }
    } else if c == '<' {
        if second_eq {
            Some((Punct::Le, 2))
        } else {
            Some((Punct::Lt, 1))
        }
    } else if c == '&' && json::at(s, i + 1, '&') {
        Some((Punct::And, 2))
    } else if c == '|' && json::at(s, i + 1, '|') {
        Some((Punct::Or, 2))
    } else if c == '(' {
        Some((Punct::LParen, 1))
    } else if c == ')' {
        Some((Punct::RParen, 1))
    } else if c == '{' {
        Some((Punct::LBrace, 1))
    } else if c == '}' {
        Some((Punct::RBrace, 1))
    } else if c == '[' {
        Some((Punct::LBracket, 1))
    } else if c == ']' {
        Some((Punct::RBracket, 1))
    } else if c == ',' {
        Some((Punct::Comma, 1))
    } else if c == ';' {
        Some((Punct::Semicolon, 1))
    } else if c == '.' {
        Some((Punct::Dot, 1))
    } else if c == '+' {
        Some((Punct::Plus, 1))
    } else {
        None
    }
}

/// The token at `i`, where neither white space nor a comment stands.
pub open spec fn token_at(s: Seq<char>, i: int) -> Result<TokenView, Seq<char>> {
    let c = s[i];
    if c == '"' || c == '\'' {
        match literal_from(s, i, c, i + 1, seq![]) {
            Ok((t, j)) => Ok(TokenView { tok: TokView::Str(t), start: i, end: j }),
            Err(e) => Err(e),
        }
    } else if text::ascii_digit(c) || (c == '-' && i + 1 < s.len() && text::ascii_digit(s[i + 1])) {
        let j = numeral_end(s, i + 1);
        match number::read(s.subrange(i, j)) {
            Some(n) => Ok(TokenView { tok: TokView::Num(n), start: i, end: j }),
            None => Err(
                "invalid number '"@ + s.subrange(i, j) + "' at offset "@ + json::offset(s, i),
            ),
        }
    } else if ident_start(c) {
        let j = ident_end(s, i);
        Ok(TokenView { tok: TokView::Ident(s.subrange(i, j)), start: i, end: j })
    } else {
        match punct_at(s, i) {
            Some((p, n)) => Ok(TokenView { tok: TokView::Punct(p), start: i, end: i + n }),
            None => Err(
                "unexpected character '"@ + seq![encode_utf8(s.skip(i))[0] as char]
                    + "' at offset "@ + json::offset(s, i),
            ),
        }
    }
}

/// A comment begins at `i`.
pub open spec fn comment_at(s: Seq<char>, i: int) -> bool {
    json::at(s, i, '/') && json::at(s, i + 1, '/')
}

/// The tokens from `i` on, after the tokens `acc`.
pub open spec fn tokens_from(s: Seq<char>, i: int, acc: Seq<TokenView>) -> Result<
    Seq<TokenView>,
    Seq<char>,
>
    decreases s.len() - i,
{
    if i < 0 || i >= s.len() {
        Ok(acc)
    } else if space(s[i]) {
        tokens_from(s, i + 1, acc)
    } else if comment_at(s, i) {
        proof {
            lemma_comment_end(s, i + 1);
        }
        tokens_from(s, comment_end(s, i), acc)
    } else {
        match token_at(s, i) {
            Err(e) => Err(e),
            Ok(token) => {
                proof {
                    lemma_token_bounds(s, i);
                }
                tokens_from(s, token.end, acc.push(token))
            },
        }
    }
}

/// The tokens of a script.
pub open spec fn tokens_of(s: Seq<char>) -> Result<Seq<TokenView>, Seq<char>> {
    tokens_from(s, 0, seq![])
}

pub proof fn lemma_comment_end(s: Seq<char>, i: int)
    requires
        0 <= i <= s.len(),
    ensures
        i <= comment_end(s, i) <= s.len(),
    decreases s.len() - i,
{
    if i < s.len() && s[i] != '\n' {
        lemma_comment_end(s, i + 1);
    }
}

proof fn lemma_ident_end(s: Seq<char>, i: int)
    requires
        0 <= i <= s.len(),
    ensures
        i <= ident_end(s, i) <= s.len(),
    decreases s.len() - i,
{
    if i < s.len() && ident_part(s[i]) {
        lemma_ident_end(s, i + 1);
    }
}

proof fn lemma_numeral_end(s: Seq<char>, i: int)
    requires
        0 <= i <= s.len(),
    ensures
        i <= numeral_end(s, i) <= s.len(),
    decreases s.len() - i,
{
    if i < s.len() && (text::ascii_digit(s[i]) || s[i] == '.') {
        lemma_numeral_end(s, i + 1);
    }
}

proof fn lemma_literal_end(s: Seq<char>, start: int, quote: char, i: int, out: Seq<char>)
    ensures
        literal_from(s, start, quote, i, out) matches Ok((_, j)) ==> i < j <= s.len(),
    decreases s.len() - i,
{
    if i < 0 || i >= s.len() {
    } else if s[i] == quote {
    } else if s[i] != '\\' {
        lemma_literal_end(s, start, quote, i + 1, out.push(s[i]));
    } else if i + 1 < s.len() {
        lemma_literal_end(s, start, quote, i + 2, out.push(unescaped(s[i + 1])));
    }
}

/// A token begins where it is looked for and takes at least one character.
pub proof fn lemma_token_bounds(s: Seq<char>, i: int)
    requires
        0 <= i < s.len(),
    ensures
        token_at(s, i) matches Ok(token) ==> token.start == i && i < token.end <= s.len(),
{
    lemma_literal_end(s, i, s[i], i + 1, seq![]);
    lemma_numeral_end(s, i + 1);
    lemma_ident_end(s, i + 1);
}

/// The tokens stand in order within the first `n` characters.
pub open spec fn ordered(tokens: Seq<TokenView>, n: int) -> bool {
    &&& forall|i: int|
        0 <= i < tokens.len() ==> 0 <= (#[trigger] tokens[i]).start < tokens[i].end <= n
    &&& forall|i: int, j: int|
        0 <= i < j < tokens.len() ==> (#[trigger] tokens[i]).end <= (#[trigger] tokens[j]).start
}

// -------------------------------------------------------------- lexer ----

/// What the result of reading a literal holds.
spec fn literal_result(r: Result<(String, usize), String>) -> Result<(Seq<char>, int), Seq<char>> {
    match r {
        Ok((t, j)) => Ok((t@, j as int)),
        Err(e) => Err(e@),
    }
}

fn byte_offset(s: &[char], i: usize) -> (r: String)
    requires
        i <= s@.len(),
    ensures
        r@ == json::offset(s@, i as int),
{
    text::decimal_string(text::utf8_len(slice_subrange(s, 0, i)) as u64)
}

fn read_literal(s: &[char], start: usize) -> (r: Result<(String, usize), String>)
    requires
        start < s@.len(),
    ensures
        literal_result(r) == literal_from(
            s@,
            start as int,
            s@[start as int],
            start + 1,
            seq![],
        ),
        r matches Ok((_, j)) ==> start < j <= s@.len(),
{
    let count: usize = s.len();
    let quote: char = s[start];
    let mut out: String = String::new();
    let mut i: usize = start + 1;
    assert(out@ == Seq::<char>::empty());
    while i < count
        invariant
            start < i <= count,
            count == s@.len(),
            quote == s@[start as int],
            literal_from(s@, start as int, quote, start + 1, seq![]) == literal_from(
                s@,
                start as int,
                quote,
                i as int,
                out@,
            ),
        decreases count - i,
    {
        let c: char = s[i];
        if c == quote {
            return Ok((out, i + 1));
        }
        if c != '\\' {
            out.push(c);
            i += 1;
            continue;
        }
        if i + 1 >= count {
            let place: String = byte_offset(s, i);
            return Err(text::concat2("dangling escape at offset ", place.as_str()));
        }
        let escaped: char = s[i + 1];
        out.push(
            match escaped {
                'n' => '\n',
                't' => '\t',
                'r' => '\r',
                other => other,
            },
        );
        i += 2;
    }
    let place: String = byte_offset(s, start);
    Err(text::concat2("unterminated string at offset ", place.as_str()))
}

fn here(s: &[char], i: usize, c: char) -> (r: bool)
    ensures
        r == json::at(s@, i as int, c),
{
    i < s.len() && s[i] == c
}

/// What a recognised operator stands for.
spec fn punct_result(r: Option<(Punct, usize)>) -> Option<(Punct, int)> {
    match r {
        Some((p, n)) => Some((p, n as int)),
        None => None,
    }
}

fn read_punct(s: &[char], i: usize) -> (r: Option<(Punct, usize)>)
    requires
        i < s@.len(),
    ensures
        punct_result(r) == punct_at(s@, i as int),
{
    let rest: &[char] = slice_subrange(s, i, s.len());
    let c: char = rest[0];
    let second_eq: bool = here(rest, 1, '=');
    let third_eq: bool = here(rest, 2, '=');
    match c {
        '=' => if second_eq && third_eq {
            Some((Punct::StrictEq, 3))
        } else if here(rest, 1, '>') {
            Some((Punct::Arrow, 2))
        } else if second_eq {
            Some((Punct::LooseEq, 2))
        } else {
            Some((Punct::Assign, 1))
        },
        '!' => if second_eq && third_eq {
            Some((Punct::StrictNe, 3))
        } else if second_eq {
            Some((Punct::LooseNe, 2))
        } else {
            Some((Punct::Not, 1))
        },
        '>' => if second_eq {
            Some((Punct::Ge, 2))
        } else {
            Some((Punct::Gt, 1))
        },
        '<' => if second_eq {
            Some((Punct::Le, 2))
        } else {
            Some((Punct::Lt, 1))
        },
        '&' => if here(rest, 1, '&') {
            Some((Punct::And, 2))
        } else {
            None
        },
        '|' => if here(rest, 1, '|') {
            Some((Punct::Or, 2))
        } else {
            None
        },
        '(' => Some((Punct::LParen, 1)),
        ')' => Some((Punct::RParen, 1)),
        '{' => Some((Punct::LBrace, 1)),
        '}' => Some((Punct::RBrace, 1)),
        '[' => Some((Punct::LBracket, 1)),
        ']' => Some((Punct::RBracket, 1)),
        ',' => Some((Punct::Comma, 1)),
        ';' => Some((Punct::Semicolon, 1)),
        '.' => Some((Punct::Dot, 1)),
        '+' => Some((Punct::Plus, 1)),
        _ => None,
    }
}

/// The message about a character that begins no token. It shows the first
/// byte of the character.
fn unexpected(s: &[char], i: usize) -> (r: String)
    requires
        i < s@.len(),
    ensures
        r@ == "unexpected character '"@ + seq![encode_utf8(s@.skip(i as int))[0] as char]
            + "' at offset "@ + json::offset(s@, i as int),
{
    let rest: String = text::string(slice_subrange(s, i, s.len()));
    let bytes: Vec<u8> = text::utf8_bytes(rest.as_str());
    proof {
        json::lemma_utf8_len(s@.skip(i as int));
    }
    let first: char = bytes[0] as char;
    let mut out: String = text::owned("unexpected character '");
    out.push(first);
    out.append("' at offset ");
    let place: String = byte_offset(s, i);
    out.append(place.as_str());
    assert(out@ =~= "unexpected character '"@ + seq![first] + "' at offset "@ + json::offset(
        s@,
        i as int,
    ));
    out
}

/// What the result of reading a token stands for.
spec fn token_result(r: Result<Token, String>) -> Result<TokenView, Seq<char>> {
    match r {
        Ok(t) => Ok(t@),
        Err(e) => Err(e@),
    }
}

fn read_token(s: &[char], i: usize) -> (r: Result<Token, String>)
    requires
        i < s@.len(),
    ensures
        token_result(r) == token_at(s@, i as int),
{
    let count: usize = s.len();
    let c: char = s[i];
    if c == '"' || c == '\'' {
        return match read_literal(s, i) {
            Ok((t, j)) => Ok(Token { tok: Tok::Str(t), start: i, end: j }),
            Err(e) => Err(e),
        };
    }
    if text::is_ascii_digit(c) || (c == '-' && i + 1 < count && text::is_ascii_digit(s[i + 1])) {
        let mut j: usize = i + 1;
        while j < count && (text::is_ascii_digit(s[j]) || s[j] == '.')
            invariant
                i < j <= count,
                count == s@.len(),
                numeral_end(s@, i + 1) == numeral_end(s@, j as int),
            decreases count - j,
        {
            j += 1;
        }
        let numeral: &[char] = slice_subrange(s, i, j);
        return match number::parse(numeral) {
            Some(n) => Ok(Token { tok: Tok::Num(n), start: i, end: j }),
            None => {
                let numeral: String = text::string(numeral);
                let place: String = byte_offset(s, i);
                Err(
                    text::concat4(
                        "invalid number '",
                        numeral.as_str(),
                        "' at offset ",
                        place.as_str(),
                    ),
                )
            },
        };
    }
    if text::is_ascii_letter(c) || c == '_' || c == '$' {
        let mut j: usize = i;
        while j < count && (text::is_ascii_letter(s[j]) || s[j] == '_' || s[j] == '$'
            || text::is_ascii_digit(s[j]))
            invariant
                i <= j <= count,
                count == s@.len(),
                ident_end(s@, i as int) == ident_end(s@, j as int),
            decreases count - j,
        {
            j += 1;
        }
        let name: String = text::string(slice_subrange(s, i, j));
        return Ok(Token { tok: Tok::Ident(name), start: i, end: j });
    }
    match read_punct(s, i) {
        Some((p, n)) => {
            proof {
                lemma_token_bounds(s@, i as int);
            }
            Ok(Token { tok: Tok::Punct(p), start: i, end: i + n })
        },
        None => Err(unexpected(s, i)),
    }
}

/// What the result of reading all tokens stands for.
pub open spec fn tokens_result(r: Result<Vec<Token>, String>) -> Result<
    Seq<TokenView>,
    Seq<char>,
> {
    match r {
        Ok(t) => Ok(views(t@)),
        Err(e) => Err(e@),
    }
}

/// Split a script into tokens.
pub fn tokenize(s: &[char]) -> (r: Result<Vec<Token>, String>)
    ensures
        tokens_result(r) == tokens_of(s@),
        r matches Ok(tokens) ==> ordered(views(tokens@), s@.len() as int),
{
    let mut tokens: Vec<Token> = Vec::new();
    let mut i: usize = 0;
    assert(views(tokens@) =~= Seq::<TokenView>::empty());
    while i < s.len()
        invariant
            i <= s.len(),
            ordered(views(tokens@), i as int),
            tokens_of(s@) == tokens_from(s@, i as int, views(tokens@)),
        decreases s.len() - i,
    {
        let c: char = s[i];
        if ('\u{9}' <= c && c <= '\u{d}') || c == ' ' {
            i += 1;
            continue;
        }
        if c == '/' && i + 1 < s.len() && s[i + 1] == '/' {
            let ghost from = i as int;
            while i < s.len() && s[i] != '\n'
                invariant
                    from <= i <= s.len(),
                    i == from ==> i < s@.len() && s@[from] == '/',
                    comment_end(s@, from) == comment_end(s@, i as int),
                decreases s.len() - i,
            {
                i += 1;
            }
            continue;
        }
        let ghost before = views(tokens@);
        match read_token(s, i) {
            Err(e) => {
                return Err(e);
            },
            Ok(token) => {
                proof {
                    lemma_token_bounds(s@, i as int);
                }
                i = token.end;
                tokens.push(token);
                assert(views(tokens@) =~= before.push(token@));
            },
        }
    }
    Ok(tokens)
}

// --------------------------------------------------------------- laws ----

proof fn lemma_tokens_ordered(s: Seq<char>, i: int, acc: Seq<TokenView>)
    requires
        0 <= i <= s.len(),
        ordered(acc, i),
    ensures
        tokens_from(s, i, acc) matches Ok(tokens) ==> ordered(tokens, s.len() as int),
    decreases s.len() - i,
{
    if i >= s.len() {
    } else if space(s[i]) {
        lemma_tokens_ordered(s, i + 1, acc);
    } else if comment_at(s, i) {
        lemma_comment_end(s, i + 1);
        lemma_tokens_ordered(s, comment_end(s, i), acc);
    } else if let Ok(token) = token_at(s, i) {
        lemma_token_bounds(s, i);
        lemma_tokens_ordered(s, token.end, acc.push(token));
    }
}

/// The tokens of a script stand in order within it.
pub proof fn law_tokens_are_ordered(s: Seq<char>)
    ensures
        tokens_of(s) matches Ok(tokens) ==> ordered(tokens, s.len() as int),
{
    lemma_tokens_ordered(s, 0, seq![]);
}

proof fn lemma_literal_located(s: Seq<char>, start: int, quote: char, i: int, out: Seq<char>)
    requires
        0 <= start < i <= s.len(),
    ensures
        literal_from(s, start, quote, i, out) matches Err(e) ==> json::names_offset(s, e),
    decreases s.len() - i,
{
    reveal_strlit("offset ");
    if i >= s.len() {
        reveal_strlit("unterminated string at offset ");
        assert("unterminated string at offset "@.skip(23) =~= "offset "@);
        json::lemma_names_offset(s, "unterminated string at offset "@, start);
    } else if s[i] == quote {
    } else if s[i] != '\\' {
        lemma_literal_located(s, start, quote, i + 1, out.push(s[i]));
    } else if i + 1 < s.len() {
        lemma_literal_located(s, start, quote, i + 2, out.push(unescaped(s[i + 1])));
    } else {
        reveal_strlit("dangling escape at offset ");
        assert("dangling escape at offset "@.skip(19) =~= "offset "@);
        json::lemma_names_offset(s, "dangling escape at offset "@, i);
    }
}

proof fn lemma_token_located(s: Seq<char>, i: int)
    requires
        0 <= i < s.len(),
    ensures
        token_at(s, i) matches Err(e) ==> json::names_offset(s, e),
{
    reveal_strlit("offset ");
    reveal_strlit("' at offset ");
    let c = s[i];
    if c == '"' || c == '\'' {
        lemma_literal_located(s, i, c, i + 1, seq![]);
    }
    let numeral = "invalid number '"@ + s.subrange(i, numeral_end(s, i + 1)) + "' at offset "@;
    assert(numeral.skip(numeral.len() - 7) =~= "offset "@);
    json::lemma_names_offset(s, numeral, i);
    let other = "unexpected character '"@ + seq![encode_utf8(s.skip(i))[0] as char]
        + "' at offset "@;
    assert(other.skip(other.len() - 7) =~= "offset "@);
    json::lemma_names_offset(s, other, i);
}

proof fn lemma_tokens_located(s: Seq<char>, i: int, acc: Seq<TokenView>)
    requires
        0 <= i <= s.len(),
    ensures
        tokens_from(s, i, acc) matches Err(e) ==> json::names_offset(s, e),
    decreases s.len() - i,
{
    if i >= s.len() {
    } else if space(s[i]) {
        lemma_tokens_located(s, i + 1, acc);
    } else if comment_at(s, i) {
        lemma_comment_end(s, i + 1);
        lemma_tokens_located(s, comment_end(s, i), acc);
    } else {
        lemma_token_located(s, i);
        if let Ok(token) = token_at(s, i) {
            lemma_token_bounds(s, i);
            lemma_tokens_located(s, token.end, acc.push(token));
        }
    }
}

/// Every failure to split a script into tokens names a byte offset within it.
pub proof fn law_token_errors_name_an_offset(s: Seq<char>)
    ensures
        tokens_of(s) matches Err(e) ==> json::names_offset(s, e),
{
    lemma_tokens_located(s, 0, seq![]);
}

} // verus!
