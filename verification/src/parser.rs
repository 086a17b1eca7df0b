//! Parser for `.http` request files.
//!
//! Requests are separated by `###`. `# @name` directives and `@var = value`
//! file variables may precede a request; headers run until a blank line, the
//! body until the next separator; `< file` takes the body from a file and
//! `> {% ... %}` holds a response handler.

use crate::text;
use vstd::prelude::*;

verus! {

/// A parsed `.http` file.
#[derive(Debug, Clone, Default)]
pub struct HttpFile {
    /// File-scope `@name = value` variables, in declaration order.
    pub variables: Vec<(String, String)>,
    pub requests: Vec<Request>,
}

/// One request block between `###` separators.
#[derive(Debug, Clone)]
pub struct Request {
    /// From `# @name` or the text after `###`.
    pub name: Option<String>,
    /// 1-based line number of the request line.
    pub line: usize,
    pub method: String,
    /// Raw URL, `{{variables}}` not yet substituted.
    pub url: String,
    pub headers: Vec<(String, String)>,
    pub body: Option<Body>,
    /// `> {% ... %}` response handler script, with its starting line.
    pub handler: Option<Handler>,
    /// `# @no-redirect` directive: do not follow redirects.
    pub no_redirect: bool,
    /// `>> path` / `>>! path`: save the response body (true = overwrite).
    pub save_response: Option<(String, bool)>,
}

/// Request body: inline text, or taken from a file. With `substitute` the
/// variables inside the file are resolved first.
#[derive(Debug, Clone, PartialEq)]
pub enum Body {
    Inline(String),
    FromFile { path: String, substitute: bool },
}

#[derive(Debug, Clone)]
pub struct Handler {
    pub script: String,
    pub line: usize,
}

/// A parse failure, positioned for the user.
#[derive(Debug)]
pub struct ParseError {
    pub line: usize,
    pub message: String,
}

// -------------------------------------------------------------- views ----

#[verifier::ext_equal]
pub struct FileView {
    pub variables: Seq<(Seq<char>, Seq<char>)>,
    pub requests: Seq<RequestView>,
}

#[verifier::ext_equal]
pub struct RequestView {
    pub name: Option<Seq<char>>,
    pub line: int,
    pub method: Seq<char>,
    pub url: Seq<char>,
    pub headers: Seq<(Seq<char>, Seq<char>)>,
    pub body: Option<BodyView>,
    pub handler: Option<HandlerView>,
    pub no_redirect: bool,
    pub save_response: Option<(Seq<char>, bool)>,
}

pub enum BodyView {
    Inline(Seq<char>),
    FromFile { path: Seq<char>, substitute: bool },
}

pub struct HandlerView {
    pub script: Seq<char>,
    pub line: int,
}

pub struct ErrorView {
    pub line: int,
    pub message: Seq<char>,
}

impl View for Body {
    type V = BodyView;

    open spec fn view(&self) -> BodyView {
        match *self {
            Body::Inline(t) => BodyView::Inline(t@),
            Body::FromFile { path, substitute } => BodyView::FromFile { path: path@, substitute },
        }
    }
}

impl View for Handler {
    type V = HandlerView;

    open spec fn view(&self) -> HandlerView {
        HandlerView { script: self.script@, line: self.line as int }
    }
}

impl View for ParseError {
    type V = ErrorView;

    open spec fn view(&self) -> ErrorView {
        ErrorView { line: self.line as int, message: self.message@ }
    }
}

pub open spec fn body_view(b: Option<Body>) -> Option<BodyView> {
    match b {
        Some(x) => Some(x@),
        None => None,
    }
}

pub open spec fn handler_view(h: Option<Handler>) -> Option<HandlerView> {
    match h {
        Some(x) => Some(x@),
        None => None,
    }
}

pub open spec fn save_view(s: Option<(String, bool)>) -> Option<(Seq<char>, bool)> {
    match s {
        Some((p, force)) => Some((p@, force)),
        None => None,
    }
}

impl View for Request {
    type V = RequestView;

    open spec fn view(&self) -> RequestView {
        RequestView {
            name: text::opt_text(self.name),
            line: self.line as int,
            method: self.method@,
            url: self.url@,
            headers: text::pairs(self.headers@),
            body: body_view(self.body),
            handler: handler_view(self.handler),
            no_redirect: self.no_redirect,
            save_response: save_view(self.save_response),
        }
    }
}

pub open spec fn request_views(v: Seq<Request>) -> Seq<RequestView> {
    Seq::new(v.len(), |i: int| v[i]@)
}

impl View for HttpFile {
    type V = FileView;

    open spec fn view(&self) -> FileView {
        FileView {
            variables: text::pairs(self.variables@),
            requests: request_views(self.requests@),
        }
    }
}

// ------------------------------------------------------------ grammar ----

pub open spec fn failure(line: int, message: Seq<char>) -> ErrorView {
    ErrorView { line, message }
}

/// A comment line begins with `#` or `//`.
pub open spec fn comment(line: Seq<char>) -> bool {
    text::starts(line, "#"@) || text::starts(line, "//"@)
}

/// The text of a comment line.
pub open spec fn comment_body(line: Seq<char>) -> Seq<char> {
    text::ltrim(text::lstrip(line, "#/"@))
}

pub open spec fn ident_char(c: char) -> bool {
    text::ascii_letter(c) || text::ascii_digit(c) || c == '_' || c == '-' || c == '.' || c == '$'
}

/// The name of a file variable.
pub open spec fn ident(name: Seq<char>) -> bool {
    name.len() > 0 && forall|k: int| 0 <= k < name.len() ==> ident_char(#[trigger] name[k])
}

/// A request method in upper case.
pub open spec fn method(name: Seq<char>) -> bool {
    ||| name == "GET"@
    ||| name == "POST"@
    ||| name == "PUT"@
    ||| name == "DELETE"@
    ||| name == "PATCH"@
    ||| name == "HEAD"@
    ||| name == "OPTIONS"@
    ||| name == "TRACE"@
    ||| name == "CONNECT"@
}

/// `name = value`, as it follows the `@` of a file variable.
pub open spec fn file_variable(rest: Seq<char>) -> Result<(Seq<char>, Seq<char>), Seq<char>> {
    match text::split_once_at(rest, "="@) {
        None => Err("file variable must look like '@name = value'"@),
        Some((name, value)) => if ident(text::trimmed(name)) {
            Ok((text::trimmed(name), text::trimmed(value)))
        } else {
            Err("invalid file variable name"@)
        },
    }
}

/// What may follow the URL on a request line: nothing, or a protocol version.
pub open spec fn line_rest(first: Seq<char>, p: int) -> Option<Seq<char>> {
    match text::word(first, p) {
        Some((extra, _)) => if text::starts(text::ascii_upper(extra), "HTTP/"@) {
            None
        } else {
            Some("unexpected token '"@ + extra + "' after URL"@)
        },
        None => None,
    }
}

/// `METHOD URL [HTTP/x.y]`, or a bare URL for `GET`.
pub open spec fn request_line(first: Seq<char>) -> Result<(Seq<char>, Seq<char>), Seq<char>> {
    let (head, p) = text::word(first, 0)->0;
    if method(text::ascii_upper(head)) {
        match text::word(first, p) {
            None => Err(head + " without a URL"@),
            Some((url, q)) => match line_rest(first, q) {
                Some(message) => Err(message),
                None => Ok((text::ascii_upper(head), url)),
            },
        }
    } else if text::contains(head, "://"@) || text::starts(head, "{{"@) {
        match line_rest(first, p) {
            Some(message) => Err(message),
            None => Ok(("GET"@, head)),
        }
    } else {
        Err("expected a request line (METHOD URL), found '"@ + first + "'"@)
    }
}

/// An indented line that begins with `?` or `&` continues the URL.
pub open spec fn continues_url(raw: Seq<char>) -> bool {
    &&& text::starts(raw, " "@) || text::starts(raw, "\t"@)
    &&& text::starts(text::trimmed(raw), "?"@) || text::starts(text::trimmed(raw), "&"@)
}

/// The URL with the lines from `i` on that continue it, and the first line
/// that does not.
pub open spec fn full_url(lines: Seq<Seq<char>>, i: int, url: Seq<char>) -> (Seq<char>, int)
    decreases lines.len() - i,
{
    if 0 <= i < lines.len() && continues_url(lines[i]) {
        full_url(lines, i + 1, url + text::trimmed(lines[i]))
    } else {
        (url, i)
    }
}

/// The headers end at a blank line, a separator, a handler or a save
/// directive.
pub open spec fn ends_headers(t: Seq<char>) -> bool {
    ||| t.len() == 0
    ||| text::starts(t, "###"@)
    ||| text::starts(t, "> {%"@)
    ||| text::starts(t, ">>"@)
}

/// `Name: value`.
pub open spec fn header_line(t: Seq<char>) -> Result<(Seq<char>, Seq<char>), Seq<char>> {
    match text::split_once_at(t, ":"@) {
        None => Err("expected 'Header: value', found '"@ + t + "'"@),
        Some((n, v)) => {
            let name = text::trimmed(n);
            if name.len() == 0 || text::has_white(name) {
                Err("invalid header name '"@ + name + "'"@)
            } else {
                Ok((name, text::trimmed(v)))
            }
        },
    }
}

/// The headers from line `i` on, and the first line that is none.
pub open spec fn headers_from(
    lines: Seq<Seq<char>>,
    i: int,
    acc: Seq<(Seq<char>, Seq<char>)>,
) -> Result<(Seq<(Seq<char>, Seq<char>)>, int), ErrorView>
    decreases lines.len() - i,
{
    if i < 0 || i >= lines.len() || ends_headers(text::trimmed(lines[i])) {
        Ok((acc, i))
    } else if comment(text::trimmed(lines[i])) {
        headers_from(lines, i + 1, acc)
    } else {
        match header_line(text::trimmed(lines[i])) {
            Err(message) => Err(failure(i + 1, message)),
            Ok(pair) => headers_from(lines, i + 1, acc.push(pair)),
        }
    }
}

/// The lines of a handler from `i` on, up to the closing `%}`.
pub open spec fn handler_from(
    lines: Seq<Seq<char>>,
    start: int,
    i: int,
    acc: Seq<Seq<char>>,
) -> Result<(Seq<char>, int), ErrorView>
    decreases lines.len() - i,
{
    if i < 0 || i >= lines.len() {
        Err(failure(start + 1, "unterminated response handler (missing %})"@))
    } else {
        let t = text::rtrim(lines[i]);
        if text::trimmed(t) == "%}"@ {
            Ok((text::joined(acc, "\n"@), i + 1))
        } else {
            match text::before_suffix(text::rtrim(t), "%}"@) {
                Some(last) => Ok((text::joined(acc.push(last), "\n"@), i + 1)),
                None => handler_from(lines, start, i + 1, acc.push(lines[i])),
            }
        }
    }
}

proof fn lemma_handler_from_progress(
    lines: Seq<Seq<char>>,
    start: int,
    i: int,
    acc: Seq<Seq<char>>,
)
    requires
        0 <= i <= lines.len(),
    ensures
        handler_from(lines, start, i, acc) matches Ok((_, next)) ==> i < next <= lines.len(),
    decreases lines.len() - i,
{
    if i < lines.len() {
        lemma_handler_from_progress(lines, start, i + 1, acc.push(lines[i]));
    }
}

/// The handler that begins on line `start`, and the line after it.
pub open spec fn handler_at(lines: Seq<Seq<char>>, start: int) -> Result<
    (Seq<char>, int),
    ErrorView,
> {
    let first = text::after_prefix(text::trimmed(lines[start]), "> {%"@)->0;
    match text::before_suffix(text::rtrim(first), "%}"@) {
        Some(inline) => Ok((text::trimmed(inline), start + 1)),
        None => handler_from(lines, start, start + 1, seq![text::ltrim(first)]),
    }
}

pub proof fn lemma_handler_progress(lines: Seq<Seq<char>>, start: int)
    requires
        0 <= start < lines.len(),
    ensures
        handler_at(lines, start) matches Ok((_, next)) ==> start < next <= lines.len(),
{
    let first = text::after_prefix(text::trimmed(lines[start]), "> {%"@)->0;
    lemma_handler_from_progress(lines, start, start + 1, seq![text::ltrim(first)]);
}

/// What has been read of the part after the headers.
#[verifier::ext_equal]
pub struct Tail {
    pub lines: Seq<Seq<char>>,
    pub from_file: Option<BodyView>,
    pub handler: Option<HandlerView>,
    pub save: Option<(Seq<char>, bool)>,
}

/// The part of a request after its headers, from line `i` on.
pub open spec fn tail_from(lines: Seq<Seq<char>>, i: int, st: Tail) -> Result<
    (Tail, int),
    ErrorView,
>
    decreases lines.len() - i,
{
    if i < 0 || i >= lines.len() {
        Ok((st, i))
    } else {
        let t = text::trimmed(lines[i]);
        let fresh = st.handler is None && st.from_file is None && st.lines.len() == 0;
        if text::starts(t, "###"@) {
            Ok((st, i))
        } else if text::starts(t, "> {%"@) {
            proof {
                lemma_handler_progress(lines, i);
            }
            match handler_at(lines, i) {
                Err(e) => Err(e),
                Ok((script, next)) => tail_from(
                    lines,
                    next,
                    Tail { handler: Some(HandlerView { script, line: i + 1 }), ..st },
                ),
            }
        } else if let Some(rest) = text::after_prefix(t, "> "@) {
            Err(
                failure(
                    i + 1,
                    "external response handler '"@ + text::trimmed(rest)
                        + "' is not supported; inline it as > {% ... %}"@,
                ),
            )
        } else if let Some(rest) = text::after_prefix(t, ">>!"@) {
            tail_from(lines, i + 1, Tail { save: Some((text::trimmed(rest), true)), ..st })
        } else if let Some(rest) = text::after_prefix(t, ">>"@) {
            tail_from(lines, i + 1, Tail { save: Some((text::trimmed(rest), false)), ..st })
        } else if text::starts(t, "<>"@) {
            tail_from(lines, i + 1, st)
        } else if fresh && text::starts(t, "<@"@) {
            let path = text::trimmed(text::after_prefix(t, "<@"@)->0);
            let body = BodyView::FromFile { path, substitute: true };
            tail_from(lines, i + 1, Tail { from_file: Some(body), ..st })
        } else if fresh && text::starts(t, "<"@) {
            let path = text::trimmed(text::after_prefix(t, "<"@)->0);
            let body = BodyView::FromFile { path, substitute: false };
            tail_from(lines, i + 1, Tail { from_file: Some(body), ..st })
        } else if st.handler is Some || st.save is Some {
            if t.len() == 0 {
                tail_from(lines, i + 1, st)
            } else {
                Err(
                    failure(
                        i + 1,
                        "unexpected content after the response handler; start a new request with ###"@,
                    ),
                )
            }
        } else {
            tail_from(lines, i + 1, Tail { lines: st.lines.push(lines[i]), ..st })
        }
    }
}

/// The lines without the blank ones at the end.
pub open spec fn without_blank_end(lines: Seq<Seq<char>>) -> Seq<Seq<char>>
    decreases lines.len(),
{
    if lines.len() > 0 && text::trimmed(lines.last()).len() == 0 {
        without_blank_end(lines.drop_last())
    } else {
        lines
    }
}

/// The body that the part after the headers names.
pub open spec fn tail_body(st: Tail) -> Option<BodyView> {
    if st.from_file is Some {
        st.from_file
    } else {
        let kept = without_blank_end(st.lines);
        if kept.len() == 0 {
            None
        } else {
            Some(BodyView::Inline(text::joined(kept, "\n"@)))
        }
    }
}

pub open spec fn empty_tail() -> Tail {
    Tail { lines: seq![], from_file: None, handler: None, save: None }
}

/// The request that begins on line `start`, and the line after it.
pub open spec fn request_at(
    lines: Seq<Seq<char>>,
    start: int,
    name: Option<Seq<char>>,
    no_redirect: bool,
) -> Result<(RequestView, int), ErrorView> {
    match request_line(text::trimmed(lines[start])) {
        Err(message) => Err(failure(start + 1, message)),
        Ok((method, head)) => {
            let (url, i) = full_url(lines, start + 1, head);
            match headers_from(lines, i, seq![]) {
                Err(e) => Err(e),
                Ok((headers, j)) => {
                    let k = if 0 <= j < lines.len() && text::trimmed(lines[j]).len() == 0 {
                        j + 1
                    } else {
                        j
                    };
                    match tail_from(lines, k, empty_tail()) {
                        Err(e) => Err(e),
                        Ok((st, next)) => Ok(
                            (
                                RequestView {
                                    name,
                                    line: start + 1,
                                    method,
                                    url,
                                    headers,
                                    body: tail_body(st),
                                    handler: st.handler,
                                    no_redirect,
                                    save_response: st.save,
                                },
                                next,
                            ),
                        ),
                    }
                },
            }
        },
    }
}

proof fn lemma_url_progress(lines: Seq<Seq<char>>, i: int, url: Seq<char>)
    requires
        0 <= i <= lines.len(),
    ensures
        i <= full_url(lines, i, url).1 <= lines.len(),
    decreases lines.len() - i,
{
    if i < lines.len() {
        lemma_url_progress(lines, i + 1, url + text::trimmed(lines[i]));
    }
}

proof fn lemma_headers_progress(
    lines: Seq<Seq<char>>,
    i: int,
    acc: Seq<(Seq<char>, Seq<char>)>,
)
    requires
        0 <= i <= lines.len(),
    ensures
        headers_from(lines, i, acc) matches Ok((_, next)) ==> i <= next <= lines.len(),
    decreases lines.len() - i,
{
    if i < lines.len() {
        lemma_headers_progress(lines, i + 1, acc);
        if let Ok(pair) = header_line(text::trimmed(lines[i])) {
            lemma_headers_progress(lines, i + 1, acc.push(pair));
        }
    }
}

proof fn lemma_tail_progress(lines: Seq<Seq<char>>, i: int, st: Tail)
    requires
        0 <= i <= lines.len(),
    ensures
        tail_from(lines, i, st) matches Ok((_, next)) ==> i <= next <= lines.len(),
    decreases lines.len() - i,
{
    if i < lines.len() {
        let t = text::trimmed(lines[i]);
        let fresh = st.handler is None && st.from_file is None && st.lines.len() == 0;
        if text::starts(t, "###"@) {
        } else if text::starts(t, "> {%"@) {
            lemma_handler_progress(lines, i);
            if let Ok((script, next)) = handler_at(lines, i) {
                let handler = Some(HandlerView { script, line: i + 1 });
                lemma_tail_progress(lines, next, Tail { handler, ..st });
            }
        } else if let Some(rest) = text::after_prefix(t, "> "@) {
        } else if let Some(rest) = text::after_prefix(t, ">>!"@) {
            let save = Some((text::trimmed(rest), true));
            lemma_tail_progress(lines, i + 1, Tail { save, ..st });
        } else if let Some(rest) = text::after_prefix(t, ">>"@) {
            let save = Some((text::trimmed(rest), false));
            lemma_tail_progress(lines, i + 1, Tail { save, ..st });
        } else if text::starts(t, "<>"@) {
            lemma_tail_progress(lines, i + 1, st);
        } else if fresh && text::starts(t, "<@"@) {
            let path = text::trimmed(text::after_prefix(t, "<@"@)->0);
            let from_file = Some(BodyView::FromFile { path, substitute: true });
            lemma_tail_progress(lines, i + 1, Tail { from_file, ..st });
        } else if fresh && text::starts(t, "<"@) {
            let path = text::trimmed(text::after_prefix(t, "<"@)->0);
            let from_file = Some(BodyView::FromFile { path, substitute: false });
            lemma_tail_progress(lines, i + 1, Tail { from_file, ..st });
        } else if st.handler is Some || st.save is Some {
            lemma_tail_progress(lines, i + 1, st);
        } else {
            lemma_tail_progress(lines, i + 1, Tail { lines: st.lines.push(lines[i]), ..st });
        }
    }
}

pub proof fn lemma_request_progress(
    lines: Seq<Seq<char>>,
    start: int,
    name: Option<Seq<char>>,
    no_redirect: bool,
)
    requires
        0 <= start < lines.len(),
    ensures
        request_at(lines, start, name, no_redirect) matches Ok((_, next)) ==> start < next
            <= lines.len(),
{
    if let Ok((method, head)) = request_line(text::trimmed(lines[start])) {
        lemma_url_progress(lines, start + 1, head);
        let (url, i) = full_url(lines, start + 1, head);
        lemma_headers_progress(lines, i, seq![]);
        if let Ok((headers, j)) = headers_from(lines, i, seq![]) {
            let k = if 0 <= j < lines.len() && text::trimmed(lines[j]).len() == 0 {
                j + 1
            } else {
                j
            };
            lemma_tail_progress(lines, k, empty_tail());
        }
    }
}

/// The file from line `i` on, with the name and the redirect directive that
/// wait for the next request.
pub open spec fn file_from(
    lines: Seq<Seq<char>>,
    i: int,
    acc: FileView,
    name: Option<Seq<char>>,
    no_redirect: bool,
) -> Result<FileView, ErrorView>
    decreases lines.len() - i,
{
    if i < 0 || i >= lines.len() {
        Ok(acc)
    } else {
        let line = text::trimmed(lines[i]);
        if line.len() == 0 {
            file_from(lines, i + 1, acc, name, no_redirect)
        } else if let Some(rest) = text::after_prefix(line, "###"@) {
            let title = text::trimmed(rest);
            let named = if title.len() == 0 {
                name
            } else {
                Some(title)
            };
            file_from(lines, i + 1, acc, named, no_redirect)
        } else if comment(line) {
            let body = comment_body(line);
            match text::after_prefix(body, "@name"@) {
                Some(rest) => {
                    let given = text::trimmed(text::lstrip(rest, " ="@));
                    if given.len() == 0 {
                        Err(failure(i + 1, "@name directive without a name"@))
                    } else {
                        file_from(lines, i + 1, acc, Some(given), no_redirect)
                    }
                },
                None => file_from(
                    lines,
                    i + 1,
                    acc,
                    name,
                    no_redirect || text::trimmed(body) == "@no-redirect"@,
                ),
            }
        } else if let Some(rest) = text::after_prefix(line, "@"@) {
            match file_variable(rest) {
                Err(message) => Err(failure(i + 1, message)),
                Ok(pair) => file_from(
                    lines,
                    i + 1,
                    FileView { variables: acc.variables.push(pair), ..acc },
                    name,
                    no_redirect,
                ),
            }
        } else {
            proof {
                lemma_request_progress(lines, i, name, no_redirect);
            }
            match request_at(lines, i, name, no_redirect) {
                Err(e) => Err(e),
                Ok((request, next)) => file_from(
                    lines,
                    next,
                    FileView { requests: acc.requests.push(request), ..acc },
                    None,
                    false,
                ),
            }
        }
    }
}

/// What a `.http` text stands for.
pub open spec fn parsed(input: Seq<char>) -> Result<FileView, ErrorView> {
    file_from(
        text::lines(input, 0),
        0,
        FileView { variables: seq![], requests: seq![] },
        None,
        false,
    )
}

// ------------------------------------------------------------- parser ----

impl ParseError {
    /// The failure with its position, as shown to the user.
    pub open spec fn shown(self) -> Seq<char> {
        "line "@ + text::decimal(self.line as nat) + ": "@ + self.message@
    }

    pub fn to_text(&self) -> (r: String)
        ensures
            r@ == self.shown(),
    {
        let line: String = text::decimal_string(self.line as u64);
        let mut out: String = text::concat3("line ", line.as_str(), ": ");
        out.append(self.message.as_str());
        out
    }
}

fn err(line: usize, message: String) -> (r: ParseError)
    ensures
        r@ == failure(line as int, message@),
{
    ParseError { line, message }
}

fn is_comment(line: &[char]) -> (r: bool)
    ensures
        r == comment(line@),
{
    text::starts_with(line, "#") || text::starts_with(line, "//")
}

fn comment_text<'a>(line: &'a [char]) -> (r: &'a [char])
    ensures
        r@ == comment_body(line@),
{
    text::trim_start(text::strip_start(line, "#/"))
}

fn is_ident(name: &[char]) -> (r: bool)
    ensures
        r == ident(name@),
{
    let mut i: usize = 0;
    while i < name.len()
        invariant
            i <= name.len(),
            forall|k: int| 0 <= k < i ==> ident_char(#[trigger] name@[k]),
        decreases name.len() - i,
    {
        let c: char = name[i];
        if !(text::is_ascii_letter(c) || text::is_ascii_digit(c) || c == '_' || c == '-' || c == '.'
            || c == '$') {
            assert(!ident_char(name@[i as int]));
            return false;
        }
        i += 1;
    }
    name.len() > 0
}

fn is_method(name: &[char]) -> (r: bool)
    ensures
        r == method(name@),
{
    text::same(name, "GET") || text::same(name, "POST") || text::same(name, "PUT") || text::same(
        name,
        "DELETE",
    ) || text::same(name, "PATCH") || text::same(name, "HEAD") || text::same(name, "OPTIONS")
        || text::same(name, "TRACE") || text::same(name, "CONNECT")
}

/// What a result holds.
spec fn pair_result(r: Result<(String, String), String>) -> Result<
    (Seq<char>, Seq<char>),
    Seq<char>,
> {
    match r {
        Ok((a, b)) => Ok((a@, b@)),
        Err(e) => Err(e@),
    }
}

fn parse_file_variable(rest: &[char]) -> (r: Result<(String, String), String>)
    ensures
        pair_result(r) == file_variable(rest@),
{
    match text::split_once(rest, "=") {
        None => Err(text::owned("file variable must look like '@name = value'")),
        Some((name, value)) => {
            let name: &[char] = text::trim(name);
            if is_ident(name) {
                Ok((text::string(name), text::string(text::trim(value))))
            } else {
                Err(text::owned("invalid file variable name"))
            }
        },
    }
}

fn check_line_rest(first: &[char], p: usize) -> (r: Option<String>)
    requires
        p <= first@.len(),
    ensures
        text::opt_text(r) == line_rest(first@, p as int),
{
    match text::next_word(first, p) {
        Some((extra, _)) => {
            let upper: Vec<char> = text::to_ascii_upper(extra);
            if text::starts_with(upper.as_slice(), "HTTP/") {
                None
            } else {
                let extra: String = text::string(extra);
                Some(text::concat3("unexpected token '", extra.as_str(), "' after URL"))
            }
        },
        None => None,
    }
}

fn parse_request_line(first: &[char]) -> (r: Result<(String, String), String>)
    requires
        text::word(first@, 0) is Some,
    ensures
        pair_result(r) == request_line(first@),
{
    let (head, p): (&[char], usize) = text::next_word(first, 0).unwrap();
    let upper: Vec<char> = text::to_ascii_upper(head);
    if is_method(upper.as_slice()) {
        match text::next_word(first, p) {
            None => {
                let head: String = text::string(head);
                Err(text::concat2(head.as_str(), " without a URL"))
            },
            Some((url, q)) => match check_line_rest(first, q) {
                Some(message) => Err(message),
                None => Ok((text::string(upper.as_slice()), text::string(url))),
            },
        }
    } else if text::has(head, "://") || text::starts_with(head, "{{") {
        match check_line_rest(first, p) {
            Some(message) => Err(message),
            None => Ok((text::owned("GET"), text::string(head))),
        }
    } else {
        let first: String = text::string(first);
        Err(
            text::concat3(
                "expected a request line (METHOD URL), found '",
                first.as_str(),
                "'",
            ),
        )
    }
}

fn parse_full_url(lines: &Vec<&[char]>, start: usize, head: String) -> (r: (String, usize))
    requires
        start <= lines@.len(),
    ensures
        r.1 <= lines@.len(),
        full_url(text::slices(lines@), start as int, head@) == (r.0@, r.1 as int),
{
    let mut url: String = head;
    let mut i: usize = start;
    let ghost all = text::slices(lines@);
    while i < lines.len()
        invariant
            i <= lines.len(),
            all == text::slices(lines@),
            full_url(all, start as int, head@) == full_url(all, i as int, url@),
        decreases lines.len() - i,
    {
        let raw: &[char] = lines[i];
        let t: &[char] = text::trim(raw);
        assert(all[i as int] == raw@);
        if (text::starts_with(raw, " ") || text::starts_with(raw, "\t")) && (text::starts_with(
            t,
            "?",
        ) || text::starts_with(t, "&")) {
            let t: String = text::string(t);
            url.append(t.as_str());
            i += 1;
        } else {
            return (url, i);
        }
    }
    (url, i)
}

fn parse_header(t: &[char]) -> (r: Result<(String, String), String>)
    ensures
        pair_result(r) == header_line(t@),
{
    match text::split_once(t, ":") {
        None => {
            let t: String = text::string(t);
            Err(text::concat3("expected 'Header: value', found '", t.as_str(), "'"))
        },
        Some((n, v)) => {
            let name: &[char] = text::trim(n);
            if name.len() == 0 || text::has_whitespace(name) {
                let name: String = text::string(name);
                Err(text::concat3("invalid header name '", name.as_str(), "'"))
            } else {
                Ok((text::string(name), text::string(text::trim(v))))
            }
        },
    }
}

fn parse_headers(lines: &Vec<&[char]>, start: usize) -> (r: Result<
    (Vec<(String, String)>, usize),
    ParseError,
>)
    requires
        start <= lines@.len(),
    ensures
        ({
            let s = headers_from(text::slices(lines@), start as int, seq![]);
            match r {
                Ok((headers, next)) => next <= lines@.len() && s == Ok::<_, ErrorView>(
                    (text::pairs(headers@), next as int),
                ),
                Err(e) => s == Err::<(Seq<(Seq<char>, Seq<char>)>, int), _>(e@),
            }
        }),
{
    let mut headers: Vec<(String, String)> = Vec::new();
    let mut i: usize = start;
    let ghost all = text::slices(lines@);
    assert(text::pairs(headers@) == Seq::<(Seq<char>, Seq<char>)>::empty());
    while i < lines.len()
        invariant
            i <= lines.len(),
            all == text::slices(lines@),
            headers_from(all, start as int, seq![]) == headers_from(
                all,
                i as int,
                text::pairs(headers@),
            ),
        decreases lines.len() - i,
    {
        let t: &[char] = text::trim(lines[i]);
        assert(t@ == text::trimmed(all[i as int]));
        if t.len() == 0 || text::starts_with(t, "###") || text::starts_with(t, "> {%")
            || text::starts_with(t, ">>") {
            return Ok((headers, i));
        }
        if !is_comment(t) {
            match parse_header(t) {
                Ok((name, value)) => {
                    let ghost before = text::pairs(headers@);
                    headers.push((name, value));
                    assert(text::pairs(headers@) == before.push((name@, value@)));
                },
                Err(message) => {
                    return Err(err(i + 1, message));
                },
            }
        }
        i += 1;
    }
    Ok((headers, i))
}

/// What the result of reading a handler holds.
spec fn script_result(r: Result<(String, usize), ParseError>) -> Result<
    (Seq<char>, int),
    ErrorView,
> {
    match r {
        Ok((script, next)) => Ok((script@, next as int)),
        Err(e) => Err(e@),
    }
}

/// Collect a `> {% ... %}` block; returns the script text and the index
/// after the closing `%}`.
fn collect_handler(lines: &Vec<&[char]>, start: usize) -> (r: Result<(String, usize), ParseError>)
    requires
        start < lines@.len(),
        text::starts(text::trimmed(lines@[start as int]@), "> {%"@),
    ensures
        script_result(r) == handler_at(text::slices(lines@), start as int),
        r matches Ok((_, next)) ==> start < next <= lines@.len(),
{
    let ghost all = text::slices(lines@);
    assert(lines.len() == lines@.len());
    let first: &[char] = text::strip_prefix(text::trim(lines[start]), "> {%").unwrap();
    assert(Some(first@) == text::after_prefix(text::trimmed(all[start as int]), "> {%"@));
    proof {
        lemma_handler_progress(all, start as int);
    }
    if let Some(inline) = text::strip_suffix(text::trim_end(first), "%}") {
        return Ok((text::string(text::trim(inline)), start + 1));
    }
    let mut script: Vec<&[char]> = Vec::new();
    script.push(text::trim_start(first));
    assert(text::slices(script@) == seq![text::ltrim(first@)]);
    let mut i: usize = start + 1;
    while i < lines.len()
        invariant
            start < i <= lines.len(),
            all == text::slices(lines@),
            handler_at(all, start as int) == handler_from(
                all,
                start as int,
                i as int,
                text::slices(script@),
            ),
        decreases lines.len() - i,
    {
        let raw: &[char] = lines[i];
        assert(raw@ == all[i as int]);
        let t: &[char] = text::trim_end(raw);
        if text::same(text::trim(t), "%}") {
            return Ok((text::join_slices(&script, "\n"), i + 1));
        }
        let ghost before = text::slices(script@);
        if let Some(last) = text::strip_suffix(text::trim_end(t), "%}") {
            script.push(last);
            assert(text::slices(script@) == before.push(last@));
            return Ok((text::join_slices(&script, "\n"), i + 1));
        }
        script.push(raw);
        assert(text::slices(script@) == before.push(raw@));
        i += 1;
    }
    Err(err(start + 1, text::owned("unterminated response handler (missing %})")))
}

/// The part of a request after its headers, as collected.
struct TailParts<'a> {
    lines: Vec<&'a [char]>,
    from_file: Option<Body>,
    handler: Option<Handler>,
    save: Option<(String, bool)>,
}

impl<'a> TailParts<'a> {
    spec fn tail(self) -> Tail {
        Tail {
            lines: text::slices(self.lines@),
            from_file: body_view(self.from_file),
            handler: handler_view(self.handler),
            save: save_view(self.save),
        }
    }
}

fn parse_tail<'a>(lines: &Vec<&'a [char]>, start: usize) -> (r: Result<
    (TailParts<'a>, usize),
    ParseError,
>)
    requires
        start <= lines@.len(),
    ensures
        ({
            let s = tail_from(text::slices(lines@), start as int, empty_tail());
            match r {
                Ok((st, next)) => next <= lines@.len() && s == Ok::<_, ErrorView>(
                    (st.tail(), next as int),
                ),
                Err(e) => s == Err::<(Tail, int), _>(e@),
            }
        }),
{
    let mut st: TailParts<'a> = TailParts {
        lines: Vec::new(),
        from_file: None,
        handler: None,
        save: None,
    };
    let mut i: usize = start;
    let ghost all = text::slices(lines@);
    assert(st.tail() =~= empty_tail());
    while i < lines.len()
        invariant
            i <= lines.len(),
            all == text::slices(lines@),
            tail_from(all, start as int, empty_tail()) == tail_from(all, i as int, st.tail()),
        decreases lines.len() - i,
    {
        let raw: &'a [char] = lines[i];
        let t: &[char] = text::trim(raw);
        assert(raw@ == all[i as int]);
        let ghost before = st.tail();
        if text::starts_with(t, "###") {
            return Ok((st, i));
        }
        if text::starts_with(t, "> {%") {
            match collect_handler(lines, i) {
                Ok((script, next)) => {
                    st.handler = Some(Handler { script, line: i + 1 });
                    assert(st.tail() =~= (Tail {
                        handler: Some(HandlerView { script: script@, line: i + 1 }),
                        ..before
                    }));
                    i = next;
                    continue;
                },
                Err(e) => {
                    return Err(e);
                },
            }
        }
        if let Some(rest) = text::strip_prefix(t, "> ") {
            let rest: String = text::string(text::trim(rest));
            return Err(
                err(
                    i + 1,
                    text::concat3(
                        "external response handler '",
                        rest.as_str(),
                        "' is not supported; inline it as > {% ... %}",
                    ),
                ),
            );
        }
        if let Some(rest) = text::strip_prefix(t, ">>!") {
            st.save = Some((text::string(text::trim(rest)), true));
            assert(st.tail() =~= (Tail { save: Some((text::trimmed(rest@), true)), ..before }));
            i += 1;
            continue;
        }
        if let Some(rest) = text::strip_prefix(t, ">>") {
            st.save = Some((text::string(text::trim(rest)), false));
            assert(st.tail() =~= (Tail { save: Some((text::trimmed(rest@), false)), ..before }));
            i += 1;
            continue;
        }
        if text::starts_with(t, "<>") {
            i += 1;
            continue;
        }
        if st.handler.is_none() && st.from_file.is_none() && st.lines.len() == 0 {
            if let Some(rest) = text::strip_prefix(t, "<@") {
                let path: String = text::string(text::trim(rest));
                let ghost body = BodyView::FromFile { path: path@, substitute: true };
                st.from_file = Some(Body::FromFile { path, substitute: true });
                assert(st.tail() =~= (Tail { from_file: Some(body), ..before }));
                i += 1;
                continue;
            }
            if let Some(rest) = text::strip_prefix(t, "<") {
                let path: String = text::string(text::trim(rest));
                let ghost body = BodyView::FromFile { path: path@, substitute: false };
                st.from_file = Some(Body::FromFile { path, substitute: false });
                assert(st.tail() =~= (Tail { from_file: Some(body), ..before }));
                i += 1;
                continue;
            }
        }
        if st.handler.is_some() || st.save.is_some() {
            if t.len() == 0 {
                i += 1;
                continue;
            }
            return Err(
                err(
                    i + 1,
                    text::owned(
                        "unexpected content after the response handler; start a new request with ###",
                    ),
                ),
            );
        }
        st.lines.push(raw);
        assert(st.tail() =~= (Tail { lines: before.lines.push(raw@), ..before }));
        i += 1;
    }
    Ok((st, i))
}

fn finish_body(st: TailParts) -> (r: Option<Body>)
    ensures
        body_view(r) == tail_body(st.tail()),
{
    if st.from_file.is_some() {
        return st.from_file;
    }
    let ghost all = text::slices(st.lines@);
    let mut kept: Vec<&[char]> = st.lines;
    while kept.len() > 0 && text::trim(kept[kept.len() - 1]).len() == 0
        invariant
            without_blank_end(all) == without_blank_end(text::slices(kept@)),
        decreases kept.len(),
    {
        let ghost before = text::slices(kept@);
        assert(before.last() == kept@.last()@);
        kept.pop();
        assert(text::slices(kept@) == before.drop_last());
    }
    proof {
        let now = text::slices(kept@);
        if now.len() > 0 {
            assert(now.last() == kept@.last()@);
        }
    }
    if kept.len() == 0 {
        None
    } else {
        Some(Body::Inline(text::join_slices(&kept, "\n")))
    }
}

/// What the result of reading a request holds.
spec fn request_result(r: Result<(Request, usize), ParseError>) -> Result<
    (RequestView, int),
    ErrorView,
> {
    match r {
        Ok((request, next)) => Ok((request@, next as int)),
        Err(e) => Err(e@),
    }
}

/// Parse one request starting at `lines[start]`; returns it plus the index of
/// the first line after the request block.
fn parse_request(
    lines: &Vec<&[char]>,
    start: usize,
    name: Option<String>,
    no_redirect: bool,
) -> (r: Result<(Request, usize), ParseError>)
    requires
        start < lines@.len(),
        text::trimmed(lines@[start as int]@).len() > 0,
    ensures
        request_result(r) == request_at(
            text::slices(lines@),
            start as int,
            text::opt_text(name),
            no_redirect,
        ),
        r matches Ok((_, next)) ==> start < next <= lines@.len(),
{
    let ghost all = text::slices(lines@);
    assert(lines.len() == lines@.len());
    let first: &[char] = text::trim(lines[start]);
    proof {
        assert(first@ == text::trimmed(all[start as int]));
        text::lemma_trimmed_word(all[start as int]);
        lemma_request_progress(all, start as int, text::opt_text(name), no_redirect);
    }
    let (method, head): (String, String) = match parse_request_line(first) {
        Ok(p) => p,
        Err(message) => {
            return Err(err(start + 1, message));
        },
    };
    let (url, i): (String, usize) = parse_full_url(lines, start + 1, head);
    let (headers, j): (Vec<(String, String)>, usize) = match parse_headers(lines, i) {
        Ok(p) => p,
        Err(e) => {
            return Err(e);
        },
    };
    let k: usize = if j < lines.len() && text::trim(lines[j]).len() == 0 {
        j + 1
    } else {
        j
    };
    assert(j < all.len() ==> all[j as int] == lines@[j as int]@);
    match parse_tail(lines, k) {
        Err(e) => Err(e),
        Ok((st, next)) => {
            let handler: Option<Handler> = st.handler;
            let save_response: Option<(String, bool)> = st.save;
            let body: Option<Body> = finish_body(
                TailParts { lines: st.lines, from_file: st.from_file, handler: None, save: None },
            );
            let request: Request = Request {
                name,
                line: start + 1,
                method,
                url,
                headers,
                body,
                handler,
                no_redirect,
                save_response,
            };
            Ok((request, next))
        },
    }
}

/// What the result of parsing holds.
pub open spec fn file_result(r: Result<HttpFile, ParseError>) -> Result<FileView, ErrorView> {
    match r {
        Ok(file) => Ok(file@),
        Err(e) => Err(e@),
    }
}

/// Parse the text of a `.http` file.
pub fn parse(input: &str) -> (r: Result<HttpFile, ParseError>)
    ensures
        file_result(r) == parsed(input@),
{
    let chars: Vec<char> = text::chars(input);
    let lines: Vec<&[char]> = text::split_lines(chars.as_slice());
    let mut file: HttpFile = HttpFile { variables: Vec::new(), requests: Vec::new() };
    let mut i: usize = 0;
    let mut pending_name: Option<String> = None;
    let mut pending_no_redirect: bool = false;
    let ghost all = text::slices(lines@);
    assert(file@ =~= FileView { variables: seq![], requests: seq![] });
    while i < lines.len()
        invariant
            i <= lines.len(),
            all == text::slices(lines@),
            parsed(input@) == file_from(
                all,
                i as int,
                file@,
                text::opt_text(pending_name),
                pending_no_redirect,
            ),
        decreases lines.len() - i,
    {
        let line: &[char] = text::trim(lines[i]);
        let ghost before = file@;
        assert(line@ == text::trimmed(all[i as int]));
        if line.len() == 0 {
            i += 1;
            continue;
        }
        if let Some(rest) = text::strip_prefix(line, "###") {
            let title: &[char] = text::trim(rest);
            if title.len() > 0 {
                pending_name = Some(text::string(title));
            }
            i += 1;
            continue;
        }
        if is_comment(line) {
            let body: &[char] = comment_text(line);
            if let Some(rest) = text::strip_prefix(body, "@name") {
                let name: &[char] = text::trim(text::strip_start(rest, " ="));
                if name.len() == 0 {
                    return Err(err(i + 1, text::owned("@name directive without a name")));
                }
                pending_name = Some(text::string(name));
            } else if text::same(text::trim(body), "@no-redirect") {
                pending_no_redirect = true;
            }
            i += 1;
            continue;
        }
        if let Some(rest) = text::strip_prefix(line, "@") {
            match parse_file_variable(rest) {
                Ok((name, value)) => {
                    file.variables.push((name, value));
                    assert(file@ =~= (FileView {
                        variables: before.variables.push((name@, value@)),
                        ..before
                    }));
                },
                Err(message) => {
                    return Err(err(i + 1, message));
                },
            }
            i += 1;
            continue;
        }
        let name: Option<String> = pending_name;
        pending_name = None;
        match parse_request(&lines, i, name, pending_no_redirect) {
            Ok((request, next)) => {
                pending_no_redirect = false;
                file.requests.push(request);
                assert(file@ =~= (FileView {
                    requests: before.requests.push(request@),
                    ..before
                }));
                i = next;
            },
            Err(e) => {
                return Err(e);
            },
        }
    }
    Ok(file)
}

// --------------------------------------------------------------- laws ----

/// The text with every line feed made a carriage return and a line feed.
pub open spec fn with_crlf(s: Seq<char>) -> Seq<char>
    decreases s.len(),
{
    if s.len() == 0 {
        seq![]
    } else if s[0] == '\n' {
        seq!['\r', '\n'] + with_crlf(s.drop_first())
    } else {
        seq![s[0]] + with_crlf(s.drop_first())
    }
}

proof fn lemma_line_feed_skip(s: Seq<char>, i: int, k: int)
    requires
        0 <= i <= k <= s.len(),
    ensures
        text::line_feed(s, k) == (match text::line_feed(s.skip(i), k - i) {
            Some(j) => Some(i + j),
            None => None,
        }),
    decreases s.len() - k,
{
    if k < s.len() && s[k] != '\n' {
        lemma_line_feed_skip(s, i, k + 1);
    }
}

pub(crate) proof fn lemma_line_feed_bounds(s: Seq<char>, i: int)
    ensures
        text::line_feed(s, i) matches Some(j) ==> 0 <= i <= j < s.len() && s[j] == '\n'
            && forall|k: int| i <= k < j ==> s[k] != '\n',
        text::line_feed(s, i) is None && 0 <= i ==> forall|k: int| i <= k < s.len() ==> s[k] != '\n',
    decreases s.len() - i,
{
    if 0 <= i < s.len() && s[i] != '\n' {
        lemma_line_feed_bounds(s, i + 1);
    }
}

/// The lines from a position on are the lines of the rest of the text.
pub(crate) proof fn lemma_lines_skip(s: Seq<char>, i: int)
    requires
        0 <= i <= s.len(),
    ensures
        text::lines(s, i) == text::lines(s.skip(i), 0),
    decreases s.len() - i,
{
    if i < s.len() {
        lemma_line_feed_skip(s, i, i);
        lemma_line_feed_bounds(s, i);
        let rest = s.skip(i);
        if let Some(j) = text::line_feed(s, i) {
            assert(rest.subrange(0, j - i) =~= s.subrange(i, j));
            lemma_lines_skip(s, j + 1);
            lemma_lines_skip(rest, j - i + 1);
            assert(rest.skip(j - i + 1) =~= s.skip(j + 1));
        } else {
            assert(rest.skip(0) =~= s.skip(i));
        }
    }
}

/// A first line and the rest.
pub(crate) proof fn lemma_first_line(a: Seq<char>, rest: Seq<char>)
    requires
        forall|k: int| 0 <= k < a.len() ==> a[k] != '\n',
    ensures
        text::lines(a + seq!['\n'] + rest, 0) == seq![text::without_cr(a)] + text::lines(rest, 0),
{
    let s = a + seq!['\n'] + rest;
    lemma_line_feed_bounds(s, 0);
    let j = a.len() as int;
    assert(s[j] == '\n');
    match text::line_feed(s, 0) {
        Some(k) => {
            if k < j {
                assert(a[k] == s[k]);
            }
            assert(k == j);
        },
        None => {},
    }
    assert(s.subrange(0, j) =~= a);
    lemma_lines_skip(s, j + 1);
    assert(s.skip(j + 1) =~= rest);
}

proof fn lemma_crlf_split(a: Seq<char>, rest: Seq<char>)
    requires
        forall|k: int| 0 <= k < a.len() ==> a[k] != '\n',
    ensures
        with_crlf(a + seq!['\n'] + rest) == a + seq!['\r'] + seq!['\n'] + with_crlf(rest),
    decreases a.len(),
{
    let s = a + seq!['\n'] + rest;
    if a.len() == 0 {
        assert(s[0] == '\n');
        assert(s.drop_first() =~= rest);
        assert(with_crlf(s) =~= a + seq!['\r'] + seq!['\n'] + with_crlf(rest));
    } else {
        let b = a.drop_first();
        assert(s.drop_first() =~= b + seq!['\n'] + rest);
        lemma_crlf_split(b, rest);
        assert(a =~= seq![a[0]] + b);
        assert(with_crlf(s) =~= a + seq!['\r'] + seq!['\n'] + with_crlf(rest));
    }
}

proof fn lemma_crlf_plain(a: Seq<char>)
    requires
        forall|k: int| 0 <= k < a.len() ==> a[k] != '\n',
    ensures
        with_crlf(a) == a,
    decreases a.len(),
{
    if a.len() > 0 {
        lemma_crlf_plain(a.drop_first());
        assert(with_crlf(a) =~= a);
    }
}

proof fn lemma_crlf_lines(s: Seq<char>)
    requires
        forall|k: int| 0 <= k < s.len() ==> s[k] != '\r',
    ensures
        text::lines(with_crlf(s), 0) == text::lines(s, 0),
    decreases s.len(),
{
    lemma_line_feed_bounds(s, 0);
    match text::line_feed(s, 0) {
        None => {
            lemma_crlf_plain(s);
        },
        Some(j) => {
            let a = s.take(j);
            let rest = s.skip(j + 1);
            assert(s =~= a + seq!['\n'] + rest);
            lemma_first_line(a, rest);
            lemma_crlf_split(a, rest);
            lemma_first_line(a + seq!['\r'], with_crlf(rest));
            assert(text::without_cr(a + seq!['\r']) =~= a);
            assert(text::without_cr(a) == a) by {
                if a.len() > 0 {
                    assert(a.last() == s[j - 1]);
                }
            }
            lemma_crlf_lines(rest);
        },
    }
}

/// A run of characters other than white space.
pub open spec fn single_word(s: Seq<char>) -> bool {
    s.len() > 0 && !text::has_white(s)
}

proof fn lemma_word_end(s: Seq<char>, i: int, j: int)
    requires
        0 <= i <= j <= s.len(),
        forall|k: int| i <= k < j ==> !text::whitespace(#[trigger] s[k]),
        j == s.len() || text::whitespace(s[j]),
    ensures
        text::word_end(s, i) == j,
    decreases j - i,
{
    if i < j {
        lemma_word_end(s, i + 1, j);
    }
}

/// The word of `before + w + after` that `w` is, read from a position before
/// it with nothing but at most one space in between.
pub(crate) proof fn lemma_word_between(before: Seq<char>, w: Seq<char>, after: Seq<char>, p: int)
    requires
        single_word(w),
        after.len() == 0 || after[0] == ' ',
        p == before.len() || p == before.len() - 1 && before.last() == ' ',
        p >= 0,
    ensures
        text::word(before + w + after, p) == Some((w, (before.len() + w.len()) as int)),
{
    let s = before + w + after;
    let i = before.len() as int;
    let j = i + w.len();
    assert(s[i] == w[0]);
    assert(!text::whitespace(w[0]));
    if p < i {
        assert(s[p] == before.last());
        assert(text::skip_white(s, i) == i);
    }
    assert(text::skip_white(s, p) == i);
    assert forall|k: int| i <= k < j implies !text::whitespace(#[trigger] s[k]) by {
        assert(s[k] == w[k - i]);
    }
    if j < s.len() {
        assert(s[j] == after[0]);
    }
    lemma_word_end(s, i, j);
    assert(s.subrange(i, j) =~= w);
}

proof fn lemma_no_word(s: Seq<char>)
    ensures
        text::word(s, s.len() as int) is None,
{
}

/// A request line is a method and a URL; a protocol version behind them is
/// accepted and changes nothing.
pub proof fn law_version_token_is_ignored(head: Seq<char>, url: Seq<char>, version: Seq<char>)
    requires
        single_word(head),
        single_word(url),
        single_word(version),
        method(text::ascii_upper(head)),
        text::starts(text::ascii_upper(version), "HTTP/"@),
    ensures
        request_line(head + seq![' '] + url) == Ok::<(Seq<char>, Seq<char>), Seq<char>>(
            (text::ascii_upper(head), url),
        ),
        request_line(head + seq![' '] + url + seq![' '] + version) == Ok::<
            (Seq<char>, Seq<char>),
            Seq<char>,
        >((text::ascii_upper(head), url)),
{
    let none = Seq::<char>::empty();
    let space = seq![' '];
    let short = head + space + url;
    assert(short =~= none + head + (space + url));
    lemma_word_between(none, head, space + url, 0);
    assert(short =~= (head + space) + url + none);
    lemma_word_between(head + space, url, none, head.len() as int);
    lemma_no_word(short);
    let long = short + space + version;
    assert(long =~= none + head + (space + url + space + version));
    lemma_word_between(none, head, space + url + space + version, 0);
    assert(long =~= (head + space) + url + (space + version));
    lemma_word_between(head + space, url, space + version, head.len() as int);
    assert(long =~= (short + space) + version + none);
    lemma_word_between(short + space, version, none, short.len() as int);
}

/// A URL alone on a request line, with or without a protocol version, is
/// fetched with `GET`.
pub proof fn law_bare_url_means_get(url: Seq<char>, version: Seq<char>)
    requires
        single_word(url),
        single_word(version),
        !method(text::ascii_upper(url)),
        text::contains(url, "://"@) || text::starts(url, "{{"@),
        text::starts(text::ascii_upper(version), "HTTP/"@),
    ensures
        request_line(url) == Ok::<(Seq<char>, Seq<char>), Seq<char>>(("GET"@, url)),
        request_line(url + seq![' '] + version) == Ok::<(Seq<char>, Seq<char>), Seq<char>>(
            ("GET"@, url),
        ),
{
    let none = Seq::<char>::empty();
    let space = seq![' '];
    assert(url =~= none + url + none);
    lemma_word_between(none, url, none, 0);
    lemma_no_word(url);
    let long = url + space + version;
    assert(long =~= none + url + (space + version));
    lemma_word_between(none, url, space + version, 0);
    assert(long =~= (url + space) + version + none);
    lemma_word_between(url + space, version, none, url.len() as int);
}

/// A file saved with CRLF line endings parses as the same file with LF line
/// endings.
pub proof fn law_crlf_parses_identically(s: Seq<char>)
    requires
        forall|k: int| 0 <= k < s.len() ==> s[k] != '\r',
    ensures
        parsed(with_crlf(s)) == parsed(s),
{
    lemma_crlf_lines(s);
}

/// Of the body lines exactly the blank ones at the end are dropped.
pub proof fn law_only_trailing_blank_lines_are_dropped(lines: Seq<Seq<char>>)
    ensures
        without_blank_end(lines).len() <= lines.len(),
        without_blank_end(lines) == lines.take(without_blank_end(lines).len() as int),
        without_blank_end(lines).len() > 0 ==> text::trimmed(without_blank_end(lines).last()).len()
            > 0,
        forall|i: int|
            without_blank_end(lines).len() <= i < lines.len() ==> text::trimmed(
                #[trigger] lines[i],
            ).len() == 0,
    decreases lines.len(),
{
    if lines.len() > 0 && text::trimmed(lines.last()).len() == 0 {
        let rest = lines.drop_last();
        law_only_trailing_blank_lines_are_dropped(rest);
        let k = without_blank_end(lines).len() as int;
        assert(rest.take(k) =~= lines.take(k));
        assert forall|i: int| k <= i < lines.len() implies text::trimmed(
            #[trigger] lines[i],
        ).len() == 0 by {
            if i < rest.len() {
                assert(rest[i] == lines[i]);
            }
        }
    } else {
        assert(lines.take(lines.len() as int) =~= lines);
    }
}

/// What holds of every parsed request: a known method in upper case, header
/// names that are not empty and hold no white space, and the number of its
/// first line.
pub open spec fn sound(r: RequestView) -> bool {
    &&& method(r.method)
    &&& r.line >= 1
    &&& forall|k: int|
        0 <= k < r.headers.len() ==> (#[trigger] r.headers[k]).0.len() > 0 && !text::has_white(
            r.headers[k].0,
        )
}

/// What holds of every parsed file, all of it within the first `last` lines:
/// its requests are sound and begin on later and later lines, and its
/// variables have names that the grammar admits.
pub open spec fn file_sound(f: FileView, last: int) -> bool {
    &&& forall|k: int|
        0 <= k < f.requests.len() ==> sound(#[trigger] f.requests[k]) && f.requests[k].line <= last
    &&& forall|j: int, k: int|
        0 <= j < k < f.requests.len() ==> (#[trigger] f.requests[j]).line < (
        #[trigger] f.requests[k]).line
    &&& forall|k: int| 0 <= k < f.variables.len() ==> ident((#[trigger] f.variables[k]).0)
}

proof fn lemma_headers_sound(lines: Seq<Seq<char>>, i: int, acc: Seq<(Seq<char>, Seq<char>)>)
    requires
        0 <= i,
        forall|k: int|
            0 <= k < acc.len() ==> (#[trigger] acc[k]).0.len() > 0 && !text::has_white(acc[k].0),
    ensures
        match headers_from(lines, i, acc) {
            Ok((headers, _)) => forall|k: int|
                0 <= k < headers.len() ==> (#[trigger] headers[k]).0.len() > 0 && !text::has_white(
                    headers[k].0,
                ),
            Err(e) => 1 <= e.line <= lines.len(),
        },
    decreases lines.len() - i,
{
    if i < lines.len() {
        lemma_headers_sound(lines, i + 1, acc);
        if let Ok(pair) = header_line(text::trimmed(lines[i])) {
            lemma_headers_sound(lines, i + 1, acc.push(pair));
        }
    }
}

proof fn lemma_handler_position(
    lines: Seq<Seq<char>>,
    start: int,
    i: int,
    acc: Seq<Seq<char>>,
)
    requires
        0 <= start < lines.len(),
        0 <= i,
    ensures
        handler_from(lines, start, i, acc) matches Err(e) ==> 1 <= e.line <= lines.len(),
    decreases lines.len() - i,
{
    if i < lines.len() {
        lemma_handler_position(lines, start, i + 1, acc.push(lines[i]));
    }
}

proof fn lemma_tail_position(lines: Seq<Seq<char>>, i: int, st: Tail)
    requires
        0 <= i,
    ensures
        tail_from(lines, i, st) matches Err(e) ==> 1 <= e.line <= lines.len(),
    decreases lines.len() - i,
{
    if i < lines.len() {
        let t = text::trimmed(lines[i]);
        let fresh = st.handler is None && st.from_file is None && st.lines.len() == 0;
        if text::starts(t, "###"@) {
        } else if text::starts(t, "> {%"@) {
            lemma_handler_progress(lines, i);
            let first = text::after_prefix(t, "> {%"@)->0;
            lemma_handler_position(lines, i, i + 1, seq![text::ltrim(first)]);
            if let Ok((script, next)) = handler_at(lines, i) {
                let handler = Some(HandlerView { script, line: i + 1 });
                lemma_tail_position(lines, next, Tail { handler, ..st });
            }
        } else if let Some(rest) = text::after_prefix(t, "> "@) {
        } else if let Some(rest) = text::after_prefix(t, ">>!"@) {
            let save = Some((text::trimmed(rest), true));
            lemma_tail_position(lines, i + 1, Tail { save, ..st });
        } else if let Some(rest) = text::after_prefix(t, ">>"@) {
            let save = Some((text::trimmed(rest), false));
            lemma_tail_position(lines, i + 1, Tail { save, ..st });
        } else if text::starts(t, "<>"@) {
            lemma_tail_position(lines, i + 1, st);
        } else if fresh && text::starts(t, "<@"@) {
            let path = text::trimmed(text::after_prefix(t, "<@"@)->0);
            let from_file = Some(BodyView::FromFile { path, substitute: true });
            lemma_tail_position(lines, i + 1, Tail { from_file, ..st });
        } else if fresh && text::starts(t, "<"@) {
            let path = text::trimmed(text::after_prefix(t, "<"@)->0);
            let from_file = Some(BodyView::FromFile { path, substitute: false });
            lemma_tail_position(lines, i + 1, Tail { from_file, ..st });
        } else if st.handler is Some || st.save is Some {
            lemma_tail_position(lines, i + 1, st);
        } else {
            lemma_tail_position(lines, i + 1, Tail { lines: st.lines.push(lines[i]), ..st });
        }
    }
}

proof fn lemma_request_sound(
    lines: Seq<Seq<char>>,
    start: int,
    name: Option<Seq<char>>,
    no_redirect: bool,
)
    requires
        0 <= start < lines.len(),
    ensures
        match request_at(lines, start, name, no_redirect) {
            Ok((r, _)) => sound(r) && r.line == start + 1,
            Err(e) => 1 <= e.line <= lines.len(),
        },
{
    if let Ok((method, head)) = request_line(text::trimmed(lines[start])) {
        lemma_url_progress(lines, start + 1, head);
        let (url, i) = full_url(lines, start + 1, head);
        lemma_headers_sound(lines, i, seq![]);
        lemma_headers_progress(lines, i, seq![]);
        if let Ok((headers, j)) = headers_from(lines, i, seq![]) {
            let k = if 0 <= j < lines.len() && text::trimmed(lines[j]).len() == 0 {
                j + 1
            } else {
                j
            };
            lemma_tail_position(lines, k, empty_tail());
        }
    }
}

proof fn lemma_file_sound(
    lines: Seq<Seq<char>>,
    i: int,
    acc: FileView,
    name: Option<Seq<char>>,
    no_redirect: bool,
)
    requires
        0 <= i <= lines.len(),
        file_sound(acc, i),
    ensures
        match file_from(lines, i, acc, name, no_redirect) {
            Ok(f) => file_sound(f, lines.len() as int),
            Err(e) => 1 <= e.line <= lines.len(),
        },
    decreases lines.len() - i,
{
    if i < lines.len() {
        let line = text::trimmed(lines[i]);
        if line.len() == 0 {
            lemma_file_sound(lines, i + 1, acc, name, no_redirect);
        } else if let Some(rest) = text::after_prefix(line, "###"@) {
            let title = text::trimmed(rest);
            let named = if title.len() == 0 {
                name
            } else {
                Some(title)
            };
            lemma_file_sound(lines, i + 1, acc, named, no_redirect);
        } else if comment(line) {
            let body = comment_body(line);
            match text::after_prefix(body, "@name"@) {
                Some(rest) => {
                    let given = text::trimmed(text::lstrip(rest, " ="@));
                    lemma_file_sound(lines, i + 1, acc, Some(given), no_redirect);
                },
                None => {
                    lemma_file_sound(
                        lines,
                        i + 1,
                        acc,
                        name,
                        no_redirect || text::trimmed(body) == "@no-redirect"@,
                    );
                },
            }
        } else if let Some(rest) = text::after_prefix(line, "@"@) {
            if let Ok(pair) = file_variable(rest) {
                lemma_file_sound(
                    lines,
                    i + 1,
                    FileView { variables: acc.variables.push(pair), ..acc },
                    name,
                    no_redirect,
                );
            }
        } else {
            lemma_request_progress(lines, i, name, no_redirect);
            lemma_request_sound(lines, i, name, no_redirect);
            if let Ok((request, next)) = request_at(lines, i, name, no_redirect) {
                lemma_file_sound(
                    lines,
                    next,
                    FileView { requests: acc.requests.push(request), ..acc },
                    None,
                    false,
                );
            }
        }
    }
}

/// Every parsed request is sound, requests begin on later and later lines of
/// the text, and variables have names that the grammar admits.
pub proof fn law_parsed_requests_are_sound(input: Seq<char>)
    ensures
        parsed(input) matches Ok(f) ==> file_sound(f, text::lines(input, 0).len() as int),
{
    lemma_file_sound(
        text::lines(input, 0),
        0,
        FileView { variables: seq![], requests: seq![] },
        None,
        false,
    );
}

/// Every parse failure names a line of the text.
pub proof fn law_parse_errors_are_positioned(input: Seq<char>)
    ensures
        parsed(input) matches Err(e) ==> 1 <= e.line <= text::lines(input, 0).len(),
{
    lemma_file_sound(
        text::lines(input, 0),
        0,
        FileView { variables: seq![], requests: seq![] },
        None,
        false,
    );
}

} // verus!
