//! The logic of a small HTTP/1.1 client: request serialization, response
//! parsing and the redirect rules.
//!
//! The client opens one connection per request (`Connection: close`). The
//! response parser works on the bytes received so far and says whether it
//! needs more, so that it is independent of how the bytes arrive.

use crate::text;
use crate::text_laws;
use crate::url;
use crate::url::{Url, UrlView};
use vstd::prelude::*;
use vstd::slice::slice_subrange;
use vstd::utf8::*;

verus! {

/// Maximum redirect hops before giving up (matches common client defaults).
pub const MAX_REDIRECTS: usize = 10;

/// What an I/O failure means to the user.
#[derive(Debug, Clone, Copy, PartialEq, Eq, Structural)]
pub enum FaultKind {
    WouldBlock,
    TimedOut,
    Other,
}

/// The text of an I/O failure.
pub open spec fn fault_text(what: Seq<char>, kind: FaultKind, detail: Seq<char>) -> Seq<char> {
    match kind {
        FaultKind::WouldBlock | FaultKind::TimedOut => what + ": timed out (see --timeout)"@,
        FaultKind::Other => what + ": "@ + detail,
    }
}

/// Render an I/O error for humans. Read/write timeouts surface from the OS as
/// `WouldBlock` ("Resource temporarily unavailable") or `TimedOut`; both mean
/// the same thing to the user, so say so instead of leaking the errno text.
pub fn io_context(what: &str, kind: FaultKind, detail: &str) -> (r: String)
    ensures
        r@ == fault_text(what@, kind, detail@),
{
    match kind {
        FaultKind::WouldBlock => text::concat2(what, ": timed out (see --timeout)"),
        FaultKind::TimedOut => text::concat2(what, ": timed out (see --timeout)"),
        FaultKind::Other => text::concat3(what, ": ", detail),
    }
}

#[derive(Debug)]
pub struct HttpResponse {
    pub status: u16,
    pub reason: String,
    /// Headers in wire order; names are matched case-insensitively.
    pub headers: Vec<(String, String)>,
    pub body: Vec<u8>,
    /// The URL that produced this response (after redirects).
    pub final_url: String,
}

/// What a response holds.
#[verifier::ext_equal]
pub struct ResponseView {
    pub status: u16,
    pub reason: Seq<char>,
    pub headers: Seq<(Seq<char>, Seq<char>)>,
    pub body: Seq<u8>,
    pub final_url: Seq<char>,
}

impl View for HttpResponse {
    type V = ResponseView;

    open spec fn view(&self) -> ResponseView {
        ResponseView {
            status: self.status,
            reason: self.reason@,
            headers: text::pairs(self.headers@),
            body: self.body@,
            final_url: self.final_url@,
        }
    }
}

/// A copy of a list of string pairs.
pub fn copy_pairs(v: &[(String, String)]) -> (r: Vec<(String, String)>)
    ensures
        text::pairs(r@) == text::pairs(v@),
{
    let mut out: Vec<(String, String)> = Vec::new();
    let mut i: usize = 0;
    while i < v.len()
        invariant
            i <= v.len(),
            out@.len() == i,
            forall|k: int|
                0 <= k < i ==> (#[trigger] out@[k]).0@ == v@[k].0@ && out@[k].1@ == v@[k].1@,
        decreases v.len() - i,
    {
        out.push((text::owned(v[i].0.as_str()), text::owned(v[i].1.as_str())));
        i += 1;
    }
    assert(text::pairs(out@) =~= text::pairs(v@));
    out
}

impl Clone for HttpResponse {
    fn clone(&self) -> (r: HttpResponse)
        ensures
            r@ == self@,
    {
        HttpResponse {
            status: self.status,
            reason: text::owned(self.reason.as_str()),
            headers: copy_pairs(self.headers.as_slice()),
            body: vstd::slice::slice_to_vec(self.body.as_slice()),
            final_url: text::owned(self.final_url.as_str()),
        }
    }
}

/// The value of the first header from `i` on with the given name.
pub open spec fn header_from(
    headers: Seq<(Seq<char>, Seq<char>)>,
    name: Seq<char>,
    i: int,
) -> Option<Seq<char>>
    decreases headers.len() - i,
{
    if i < 0 || i >= headers.len() {
        None
    } else if text::same_letters(headers[i].0, name) {
        Some(headers[i].1)
    } else {
        header_from(headers, name, i + 1)
    }
}

/// The charset that the parts of a content type name from `i` on; the last
/// one counts, and `acc` if there is none.
pub open spec fn charset_from(parts: Seq<Seq<char>>, i: int, acc: Seq<char>) -> Seq<char>
    decreases parts.len() - i,
{
    if i < 0 || i >= parts.len() {
        acc
    } else {
        match text::after_prefix(text::ascii_lower(text::trimmed(parts[i])), "charset="@) {
            Some(c) => charset_from(parts, i + 1, text::rstrip(text::lstrip(c, "\""@), "\""@)),
            None => charset_from(parts, i + 1, acc),
        }
    }
}

impl ResponseView {
    pub open spec fn header(self, name: Seq<char>) -> Option<Seq<char>> {
        header_from(self.headers, name, 0)
    }

    /// The media type and the charset of the body.
    pub open spec fn content_type(self) -> (Seq<char>, Seq<char>) {
        let raw = match self.header("Content-Type"@) {
            Some(v) => v,
            None => ""@,
        };
        let parts = text::split_set(raw, ";"@, 0);
        (text::ascii_lower(text::trimmed(parts[0])), charset_from(parts, 1, seq![]))
    }
}

fn find_header<'a>(headers: &'a [(String, String)], name: &str) -> (r: Option<&'a str>)
    ensures
        text::opt_str(r) == header_from(text::pairs(headers@), name@, 0),
{
    let mut i: usize = 0;
    while i < headers.len()
        invariant
            i <= headers.len(),
            header_from(text::pairs(headers@), name@, 0) == header_from(
                text::pairs(headers@),
                name@,
                i as int,
            ),
        decreases headers.len() - i,
    {
        if text::eq_ignore_ascii_case(headers[i].0.as_str(), name) {
            return Some(headers[i].1.as_str());
        }
        i += 1;
    }
    None
}

impl HttpResponse {
    /// First header value with the given name, case-insensitive.
    pub fn header(&self, name: &str) -> (r: Option<&str>)
        ensures
            text::opt_str(r) == self@.header(name@),
    {
        find_header(self.headers.as_slice(), name)
    }

    pub fn body_text(&self) -> (r: String)
        ensures
            r@ == text::utf8_lossy(self.body@),
            valid_utf8(self.body@) ==> r@ == decode_utf8(self.body@),
    {
        text::decode_lossy(self.body.as_slice())
    }

    /// `Content-Type` split into mime type and charset, per the editors'
    /// `response.contentType` object.
    pub fn content_type(&self) -> (r: (String, String))
        ensures
            (r.0@, r.1@) == self@.content_type(),
    {
        let raw: Vec<char> = match self.header("Content-Type") {
            Some(v) => text::chars(v),
            None => text::chars(""),
        };
        let parts: Vec<&[char]> = text::split_any(raw.as_slice(), ";");
        let ghost all = text::slices(parts@);
        let mime: Vec<char> = text::to_ascii_lower(text::trim(parts[0]));
        let mut charset: String = String::new();
        let mut i: usize = 1;
        assert(charset@ == Seq::<char>::empty());
        while i < parts.len()
            invariant
                1 <= i <= parts.len(),
                all == text::slices(parts@),
                charset_from(all, 1, seq![]) == charset_from(all, i as int, charset@),
            decreases parts.len() - i,
        {
            let part: Vec<char> = text::to_ascii_lower(text::trim(parts[i]));
            assert(part@ == text::ascii_lower(text::trimmed(all[i as int])));
            if let Some(c) = text::strip_prefix(part.as_slice(), "charset=") {
                charset = text::string(text::strip_end(text::strip_start(c, "\""), "\""));
            }
            i += 1;
        }
        (text::string(mime.as_slice()), charset)
    }
}

// ------------------------------------------------------------ request ----

/// Some header has the given name.
pub open spec fn has_header(headers: Seq<(Seq<char>, Seq<char>)>, name: Seq<char>) -> bool {
    header_from(headers, name, 0) is Some
}

/// The given headers as they go on the wire, the first `n` of them.
pub open spec fn header_lines(headers: Seq<(Seq<char>, Seq<char>)>, n: nat) -> Seq<char>
    decreases n,
{
    if n == 0 || n > headers.len() {
        seq![]
    } else {
        header_lines(headers, (n - 1) as nat) + headers[n - 1].0 + ": "@ + headers[n - 1].1
            + "\r\n"@
    }
}

/// A default header, unless the user gave one of that name.
pub open spec fn default_line(
    headers: Seq<(Seq<char>, Seq<char>)>,
    name: Seq<char>,
    value: Seq<char>,
) -> Seq<char> {
    if has_header(headers, name) {
        seq![]
    } else {
        name + ": "@ + value + "\r\n"@
    }
}

/// A request with this method and body length carries a `Content-Length`.
pub open spec fn sized(method: Seq<char>, length: nat) -> bool {
    length > 0 || method == "POST"@ || method == "PUT"@ || method == "PATCH"@
}

/// The request head: request line, defaults, user headers, blank line.
pub open spec fn request_head(
    method: Seq<char>,
    target: UrlView,
    headers: Seq<(Seq<char>, Seq<char>)>,
    length: nat,
) -> Seq<char> {
    method + " "@ + target.path_and_query + " HTTP/1.1\r\n"@ + default_line(
        headers,
        "Host"@,
        target.host_value(),
    ) + default_line(headers, "User-Agent"@, "reqrun/0.1.0"@) + default_line(
        headers,
        "Accept"@,
        "*/*"@,
    ) + (if sized(method, length) {
        default_line(headers, "Content-Length"@, text::decimal(length))
    } else {
        seq![]
    }) + header_lines(headers, headers.len()) + default_line(headers, "Connection"@, "close"@)
        + "\r\n"@
}

fn push_default(head: &mut String, headers: &[(String, String)], name: &str, value: &str)
    ensures
        final(head)@ == old(head)@ + default_line(text::pairs(headers@), name@, value@),
{
    let ghost start = head@;
    if find_header(headers, name).is_none() {
        head.append(name);
        head.append(": ");
        head.append(value);
        head.append("\r\n");
    }
    assert(head@ =~= start + default_line(text::pairs(headers@), name@, value@));
}

/// Serialize the request head + body. User headers override the defaults
/// (Host, User-Agent, Accept, Connection, Content-Length) name-insensitively.
pub fn build_request(
    method: &str,
    target: &Url,
    headers: &[(String, String)],
    body: &[u8],
) -> (r: Vec<u8>)
    ensures
        r@ == encode_utf8(
            request_head(method@, target@, text::pairs(headers@), body@.len()),
        ) + body@,
{
    let mut head: String = text::concat4(
        method,
        " ",
        target.path_and_query.as_str(),
        " HTTP/1.1\r\n",
    );
    let host: String = target.host_header();
    push_default(&mut head, headers, "Host", host.as_str());
    push_default(&mut head, headers, "User-Agent", "reqrun/0.1.0");
    push_default(&mut head, headers, "Accept", "*/*");
    let ghost before = head@;
    if body.len() > 0 || text::same_str(method, "POST") || text::same_str(method, "PUT")
        || text::same_str(method, "PATCH") {
        let length: String = text::decimal_string(body.len() as u64);
        push_default(&mut head, headers, "Content-Length", length.as_str());
    } else {
        assert(head@ =~= before + Seq::<char>::empty());
    }
    let ghost start = head@;
    let mut i: usize = 0;
    assert(start + header_lines(text::pairs(headers@), 0) =~= start);
    while i < headers.len()
        invariant
            i <= headers.len(),
            head@ == start + header_lines(text::pairs(headers@), i as nat),
        decreases headers.len() - i,
    {
        head.append(headers[i].0.as_str());
        head.append(": ");
        head.append(headers[i].1.as_str());
        head.append("\r\n");
        i += 1;
        assert(head@ =~= start + header_lines(text::pairs(headers@), i as nat));
    }
    push_default(&mut head, headers, "Connection", "close");
    head.append("\r\n");
    let mut wire: Vec<u8> = text::utf8_bytes(head.as_str());
    let mut tail: Vec<u8> = vstd::slice::slice_to_vec(body);
    wire.append(&mut tail);
    wire
}

// ----------------------------------------------------------- response ----

/// What follows the bytes received so far.
#[derive(Debug)]
pub enum StreamEnd {
    /// The connection is open; more bytes may come.
    Open,
    /// The peer closed the connection.
    Closed,
    /// Reading failed.
    Failed { kind: FaultKind, detail: String },
}

/// What a stream end stands for.
pub enum EndView {
    Open,
    Closed,
    Failed { kind: FaultKind, detail: Seq<char> },
}

impl View for StreamEnd {
    type V = EndView;

    open spec fn view(&self) -> EndView {
        match self {
            StreamEnd::Open => EndView::Open,
            StreamEnd::Closed => EndView::Closed,
            StreamEnd::Failed { kind, detail } => EndView::Failed { kind: *kind, detail: detail@ },
        }
    }
}

/// Why no result can be given.
pub enum StopView {
    /// The answer depends on bytes that have not come yet.
    More,
    Error(Seq<char>),
}

/// The first position from `i` on that holds a line feed byte.
pub open spec fn newline(b: Seq<u8>, i: int) -> Option<int>
    decreases b.len() - i,
{
    if i < 0 || i >= b.len() {
        None
    } else if b[i] == 10 {
        Some(i)
    } else {
        newline(b, i + 1)
    }
}

/// The text of a line, without its line ending.
pub open spec fn line_text(raw: Seq<u8>) -> Result<Seq<char>, StopView> {
    if valid_utf8(raw) {
        Ok(text::rstrip(decode_utf8(raw), "\r\n"@))
    } else {
        Err(
            StopView::Error("reading response: stream did not contain valid UTF-8"@),
        )
    }
}

/// The line at `i`, and the position after it.
pub open spec fn line_at(b: Seq<u8>, end: EndView, i: int) -> Result<(Seq<char>, int), StopView> {
    match newline(b, i) {
        Some(j) => match line_text(b.subrange(i, j + 1)) {
            Ok(t) => Ok((t, j + 1)),
            Err(e) => Err(e),
        },
        None => match end {
            EndView::Open => Err(StopView::More),
            EndView::Closed => if i >= b.len() {
                Err(StopView::Error("connection closed mid-response"@))
            } else {
                match line_text(b.skip(i)) {
                    Ok(t) => Ok((t, b.len() as int)),
                    Err(e) => Err(e),
                }
            },
            EndView::Failed { kind, detail } => Err(
                StopView::Error(fault_text("reading response"@, kind, detail)),
            ),
        },
    }
}

/// The `n` bytes at `i`.
pub open spec fn bytes_at(
    b: Seq<u8>,
    end: EndView,
    i: int,
    n: nat,
    what: Seq<char>,
) -> Result<Seq<u8>, StopView> {
    if i + n <= b.len() {
        Ok(b.subrange(i, i + n))
    } else {
        match end {
            EndView::Open => Err(StopView::More),
            EndView::Closed => Err(StopView::Error(what + ": failed to fill whole buffer"@)),
            EndView::Failed { kind, detail } => Err(
                StopView::Error(fault_text(what, kind, detail)),
            ),
        }
    }
}

/// All bytes from `i` to the end of the stream.
pub open spec fn bytes_to_end(b: Seq<u8>, end: EndView, i: int) -> Result<Seq<u8>, StopView> {
    match end {
        EndView::Open => Err(StopView::More),
        EndView::Closed => Ok(b.skip(i)),
        EndView::Failed { kind, detail } => Err(
            StopView::Error(fault_text("reading body"@, kind, detail)),
        ),
    }
}

/// Status code and reason of a status line.
pub open spec fn status_line(line: Seq<char>) -> Result<(u16, Seq<char>), Seq<char>> {
    let malformed = "malformed status line '"@ + line + "'"@;
    match text::split_once_at(line, " "@) {
        None => Err(malformed),
        Some((version, rest)) => {
            let (code, reason) = match text::split_once_at(rest, " "@) {
                Some(p) => p,
                None => (rest, seq![]),
            };
            if !text::starts(version, "HTTP/"@) {
                Err(malformed)
            } else {
                match text::unsigned(code, 10, u16::MAX as nat) {
                    Some(n) => Ok((n as u16, text::trimmed(reason))),
                    None => Err(malformed),
                }
            }
        },
    }
}

/// The header lines from `i` on, after the headers `acc`, and the position
/// after the blank line.
pub open spec fn headers_at(
    b: Seq<u8>,
    end: EndView,
    i: int,
    acc: Seq<(Seq<char>, Seq<char>)>,
) -> Result<(Seq<(Seq<char>, Seq<char>)>, int), StopView>
    decreases b.len() - i,
{
    match line_at(b, end, i) {
        Err(e) => Err(e),
        Ok((line, j)) => if line.len() == 0 {
            Ok((acc, j))
        } else {
            match text::split_once_at(line, ":"@) {
                None => Err(StopView::Error("malformed header line '"@ + line + "'"@)),
                Some((name, value)) => {
                    proof {
                        lemma_line_at(b, end, i);
                    }
                    headers_at(
                        b,
                        end,
                        j,
                        acc.push((text::trimmed(name), text::trimmed(value))),
                    )
                },
            }
        },
    }
}

/// The position after the blank line that ends the trailers from `i` on.
pub open spec fn trailers_at(b: Seq<u8>, end: EndView, i: int) -> Result<int, StopView>
    decreases b.len() - i,
{
    match line_at(b, end, i) {
        Err(e) => Err(e),
        Ok((line, j)) => if line.len() == 0 {
            Ok(j)
        } else {
            proof {
                lemma_line_at(b, end, i);
            }
            trailers_at(b, end, j)
        },
    }
}

/// The size that a chunk begins with.
pub open spec fn chunk_size(line: Seq<char>) -> Option<nat> {
    text::unsigned(
        text::trimmed(text::split_set(line, ";"@, 0)[0]),
        16,
        usize::MAX as nat,
    )
}

/// The chunks from `i` on, decoded, after the bytes `acc`.
pub open spec fn chunks_at(b: Seq<u8>, end: EndView, i: int, acc: Seq<u8>) -> Result<
    Seq<u8>,
    StopView,
>
    decreases b.len() - i,
{
    match line_at(b, end, i) {
        Err(e) => Err(e),
        Ok((line, j)) => match chunk_size(line) {
            None => Err(StopView::Error("invalid chunk size '"@ + line + "'"@)),
            Some(n) => if n == 0 {
                match trailers_at(b, end, j) {
                    Err(e) => Err(e),
                    Ok(_) => Ok(acc),
                }
            } else {
                match bytes_at(b, end, j, n, "truncated chunk"@) {
                    Err(e) => Err(e),
                    Ok(chunk) => match line_at(b, end, j + n) {
                        Err(e) => Err(e),
                        Ok((_, k)) => {
                            proof {
                                lemma_line_at(b, end, i);
                                lemma_line_at(b, end, (j + n) as int);
                            }
                            chunks_at(b, end, k, acc + chunk)
                        },
                    },
                }
            },
        },
    }
}

/// A response with this status to this kind of request has no body.
pub open spec fn bodyless(status: u16, head_request: bool) -> bool {
    head_request || status < 200 || status == 204 || status == 304
}

/// The body from `i` on.
pub open spec fn body_at(
    b: Seq<u8>,
    end: EndView,
    i: int,
    status: u16,
    headers: Seq<(Seq<char>, Seq<char>)>,
    head_request: bool,
) -> Result<Seq<u8>, StopView> {
    let coding = header_from(headers, "Transfer-Encoding"@, 0);
    if bodyless(status, head_request) {
        Ok(seq![])
    } else if coding is Some && text::contains(text::ascii_lower(coding->0), "chunked"@) {
        chunks_at(b, end, i, seq![])
    } else {
        match header_from(headers, "Content-Length"@, 0) {
            Some(v) => match text::unsigned(text::trimmed(v), 10, usize::MAX as nat) {
                Some(n) => bytes_at(b, end, i, n, "truncated body"@),
                None => Err(StopView::Error("invalid Content-Length '"@ + v + "'"@)),
            },
            None => bytes_to_end(b, end, i),
        }
    }
}

/// The response that the bytes hold.
pub open spec fn response_from(b: Seq<u8>, end: EndView, head_request: bool) -> Result<
    ResponseView,
    StopView,
> {
    match line_at(b, end, 0) {
        Err(e) => Err(e),
        Ok((line, i)) => match status_line(line) {
            Err(e) => Err(StopView::Error(e)),
            Ok((status, reason)) => match headers_at(b, end, i, seq![]) {
                Err(e) => Err(e),
                Ok((headers, j)) => match body_at(b, end, j, status, headers, head_request) {
                    Err(e) => Err(e),
                    Ok(body) => Ok(
                        ResponseView { status, reason, headers, body, final_url: seq![] },
                    ),
                },
            },
        },
    }
}

pub proof fn lemma_newline(b: Seq<u8>, i: int)
    ensures
        newline(b, i) matches Some(j) ==> 0 <= i <= j < b.len() && b[j] == 10,
    decreases b.len() - i,
{
    if 0 <= i < b.len() && b[i] != 10 {
        lemma_newline(b, i + 1);
    }
}

/// A line ends after its start and within the bytes.
pub proof fn lemma_line_at(b: Seq<u8>, end: EndView, i: int)
    ensures
        line_at(b, end, i) matches Ok((_, j)) ==> i < j <= b.len(),
{
    lemma_newline(b, i);
}

/// Why reading stopped.
enum Stop {
    More,
    Error(String),
}

impl View for Stop {
    type V = StopView;

    closed spec fn view(&self) -> StopView {
        match self {
            Stop::More => StopView::More,
            Stop::Error(e) => StopView::Error(e@),
        }
    }
}

/// What the result of reading a line holds.
spec fn line_result(r: Result<(String, usize), Stop>) -> Result<(Seq<char>, int), StopView> {
    match r {
        Ok((t, j)) => Ok((t@, j as int)),
        Err(e) => Err(e@),
    }
}

fn decode_line(raw: &[u8]) -> (r: Result<String, Stop>)
    ensures
        match r {
            Ok(t) => line_text(raw@) == Ok::<_, StopView>(t@),
            Err(e) => line_text(raw@) == Err::<Seq<char>, _>(e@),
        },
{
    match text::from_utf8(raw) {
        Some(t) => {
            let chars: Vec<char> = text::chars(t.as_str());
            Ok(text::string(text::strip_end(chars.as_slice(), "\r\n")))
        },
        None => Err(
            Stop::Error(
                text::owned("reading response: stream did not contain valid UTF-8"),
            ),
        ),
    }
}

/// Read one CRLF-terminated line (tolerates bare LF).
fn read_line(b: &[u8], end: &StreamEnd, i: usize) -> (r: Result<(String, usize), Stop>)
    requires
        i <= b@.len(),
    ensures
        line_result(r) == line_at(b@, end@, i as int),
        r matches Ok((_, j)) ==> i < j <= b@.len(),
{
    let mut j: usize = i;
    while j < b.len()
        invariant
            i <= j <= b.len(),
            newline(b@, i as int) == newline(b@, j as int),
        decreases b.len() - j,
    {
        if b[j] == 10 {
            return match decode_line(slice_subrange(b, i, j + 1)) {
                Ok(t) => Ok((t, j + 1)),
                Err(e) => Err(e),
            };
        }
        j += 1;
    }
    match end {
        StreamEnd::Open => Err(Stop::More),
        StreamEnd::Closed => {
            if i >= b.len() {
                return Err(Stop::Error(text::owned("connection closed mid-response")));
            }
            match decode_line(slice_subrange(b, i, b.len())) {
                Ok(t) => Ok((t, b.len())),
                Err(e) => Err(e),
            }
        },
        StreamEnd::Failed { kind, detail } => Err(
            Stop::Error(io_context("reading response", *kind, detail.as_str())),
        ),
    }
}

/// What the result of reading bytes holds.
spec fn bytes_result(r: Result<Vec<u8>, Stop>) -> Result<Seq<u8>, StopView> {
    match r {
        Ok(v) => Ok(v@),
        Err(e) => Err(e@),
    }
}

fn read_exact(b: &[u8], end: &StreamEnd, i: usize, n: usize, what: &str) -> (r: Result<
    Vec<u8>,
    Stop,
>)
    requires
        i <= b@.len(),
    ensures
        bytes_result(r) == bytes_at(b@, end@, i as int, n as nat, what@),
        r is Ok ==> i + n <= b@.len(),
{
    if n <= b.len() - i {
        return Ok(vstd::slice::slice_to_vec(slice_subrange(b, i, i + n)));
    }
    match end {
        StreamEnd::Open => Err(Stop::More),
        StreamEnd::Closed => Err(
            Stop::Error(text::concat2(what, ": failed to fill whole buffer")),
        ),
        StreamEnd::Failed { kind, detail } => Err(
            Stop::Error(io_context(what, *kind, detail.as_str())),
        ),
    }
}

fn read_to_end(b: &[u8], end: &StreamEnd, i: usize) -> (r: Result<Vec<u8>, Stop>)
    requires
        i <= b@.len(),
    ensures
        bytes_result(r) == bytes_to_end(b@, end@, i as int),
{
    match end {
        StreamEnd::Open => Err(Stop::More),
        StreamEnd::Closed => Ok(vstd::slice::slice_to_vec(slice_subrange(b, i, b.len()))),
        StreamEnd::Failed { kind, detail } => Err(
            Stop::Error(io_context("reading body", *kind, detail.as_str())),
        ),
    }
}

/// What the result of reading a status line holds.
spec fn status_result(r: Result<(u16, String), String>) -> Result<(u16, Seq<char>), Seq<char>> {
    match r {
        Ok((n, t)) => Ok((n, t@)),
        Err(e) => Err(e@),
    }
}

fn parse_status_line(line: &str) -> (r: Result<(u16, String), String>)
    ensures
        status_result(r) == status_line(line@),
{
    let chars: Vec<char> = text::chars(line);
    let malformed: String = text::concat3("malformed status line '", line, "'");
    let (version, rest): (&[char], &[char]) = match text::split_once(chars.as_slice(), " ") {
        Some(p) => p,
        None => {
            return Err(malformed);
        },
    };
    let empty: Vec<char> = Vec::new();
    assert(empty@ == Seq::<char>::empty());
    let (code, reason): (&[char], &[char]) = match text::split_once(rest, " ") {
        Some(p) => p,
        None => (rest, empty.as_slice()),
    };
    if !text::starts_with(version, "HTTP/") {
        return Err(malformed);
    }
    match text::parse_unsigned(code, 10, u16::MAX as u64) {
        Some(n) => Ok((n as u16, text::string(text::trim(reason)))),
        None => Err(malformed),
    }
}

fn read_headers(b: &[u8], end: &StreamEnd, start: usize) -> (r: Result<
    (Vec<(String, String)>, usize),
    Stop,
>)
    requires
        start <= b@.len(),
    ensures
        match r {
            Ok((headers, j)) => j <= b@.len() && headers_at(b@, end@, start as int, seq![]) == Ok::<
                _,
                StopView,
            >((text::pairs(headers@), j as int)),
            Err(e) => headers_at(b@, end@, start as int, seq![]) == Err::<
                (Seq<(Seq<char>, Seq<char>)>, int),
                _,
            >(e@),
        },
{
    let mut headers: Vec<(String, String)> = Vec::new();
    let mut i: usize = start;
    assert(text::pairs(headers@) == Seq::<(Seq<char>, Seq<char>)>::empty());
    loop
        invariant
            i <= b.len(),
            headers_at(b@, end@, start as int, seq![]) == headers_at(
                b@,
                end@,
                i as int,
                text::pairs(headers@),
            ),
        decreases b.len() - i,
    {
        let (line, j): (String, usize) = match read_line(b, end, i) {
            Ok(p) => p,
            Err(e) => {
                return Err(e);
            },
        };
        let chars: Vec<char> = text::chars(line.as_str());
        if chars.len() == 0 {
            return Ok((headers, j));
        }
        match text::split_once(chars.as_slice(), ":") {
            None => {
                return Err(
                    Stop::Error(text::concat3("malformed header line '", line.as_str(), "'")),
                );
            },
            Some((name, value)) => {
                let ghost before = text::pairs(headers@);
                let name: String = text::string(text::trim(name));
                let value: String = text::string(text::trim(value));
                headers.push((name, value));
                assert(text::pairs(headers@) == before.push((name@, value@)));
                i = j;
            },
        }
    }
}

fn skip_trailers(b: &[u8], end: &StreamEnd, start: usize) -> (r: Result<usize, Stop>)
    requires
        start <= b@.len(),
    ensures
        match r {
            Ok(j) => trailers_at(b@, end@, start as int) == Ok::<_, StopView>(j as int),
            Err(e) => trailers_at(b@, end@, start as int) == Err::<int, _>(e@),
        },
{
    let mut i: usize = start;
    loop
        invariant
            i <= b.len(),
            trailers_at(b@, end@, start as int) == trailers_at(b@, end@, i as int),
        decreases b.len() - i,
    {
        match read_line(b, end, i) {
            Err(e) => {
                return Err(e);
            },
            Ok((line, j)) => {
                if text::chars(line.as_str()).len() == 0 {
                    return Ok(j);
                }
                i = j;
            },
        }
    }
}

/// Decode a chunked transfer-encoded body, including trailer skipping.
fn read_chunked(b: &[u8], end: &StreamEnd, start: usize) -> (r: Result<Vec<u8>, Stop>)
    requires
        start <= b@.len(),
    ensures
        bytes_result(r) == chunks_at(b@, end@, start as int, seq![]),
{
    let mut body: Vec<u8> = Vec::new();
    let mut i: usize = start;
    assert(body@ == Seq::<u8>::empty());
    loop
        invariant
            i <= b.len(),
            chunks_at(b@, end@, start as int, seq![]) == chunks_at(b@, end@, i as int, body@),
        decreases b.len() - i,
    {
        let (line, j): (String, usize) = match read_line(b, end, i) {
            Ok(p) => p,
            Err(e) => {
                return Err(e);
            },
        };
        let chars: Vec<char> = text::chars(line.as_str());
        let parts: Vec<&[char]> = text::split_any(chars.as_slice(), ";");
        assert(text::slices(parts@)[0] == parts@[0]@);
        match text::parse_unsigned(text::trim(parts[0]), 16, usize::MAX as u64) {
            None => {
                return Err(
                    Stop::Error(text::concat3("invalid chunk size '", line.as_str(), "'")),
                );
            },
            Some(size) => {
                if size == 0 {
                    return match skip_trailers(b, end, j) {
                        Ok(_) => Ok(body),
                        Err(e) => Err(e),
                    };
                }
                let n: usize = size as usize;
                let mut chunk: Vec<u8> = match read_exact(b, end, j, n, "truncated chunk") {
                    Ok(v) => v,
                    Err(e) => {
                        return Err(e);
                    },
                };
                match read_line(b, end, j + n) {
                    Ok((_, k)) => {
                        body.append(&mut chunk);
                        i = k;
                    },
                    Err(e) => {
                        return Err(e);
                    },
                }
            },
        }
    }
}

fn read_body(
    b: &[u8],
    end: &StreamEnd,
    i: usize,
    status: u16,
    headers: &[(String, String)],
    head_request: bool,
) -> (r: Result<Vec<u8>, Stop>)
    requires
        i <= b@.len(),
    ensures
        bytes_result(r) == body_at(
            b@,
            end@,
            i as int,
            status,
            text::pairs(headers@),
            head_request,
        ),
{
    // HEAD responses and 1xx/204/304 have no body by definition.
    if head_request || status < 200 || status == 204 || status == 304 {
        let none: Vec<u8> = Vec::new();
        assert(none@ == Seq::<u8>::empty());
        return Ok(none);
    }
    if let Some(v) = find_header(headers, "Transfer-Encoding") {
        let v: Vec<char> = text::chars(v);
        let v: Vec<char> = text::to_ascii_lower(v.as_slice());
        if text::has(v.as_slice(), "chunked") {
            return read_chunked(b, end, i);
        }
    }
    match find_header(headers, "Content-Length") {
        Some(v) => {
            let chars: Vec<char> = text::chars(v);
            match text::parse_unsigned(text::trim(chars.as_slice()), 10, usize::MAX as u64) {
                Some(n) => read_exact(b, end, i, n as usize, "truncated body"),
                None => Err(Stop::Error(text::concat3("invalid Content-Length '", v, "'"))),
            }
        },
        None => read_to_end(b, end, i),
    }
}

/// The state of reading a response.
#[derive(Debug)]
pub enum Progress {
    NeedMore,
    Done(HttpResponse),
    Failed(String),
}

/// What a reading state stands for.
pub open spec fn progress_view(p: Progress) -> Result<ResponseView, StopView> {
    match p {
        Progress::NeedMore => Err(StopView::More),
        Progress::Done(r) => Ok(r@),
        Progress::Failed(e) => Err(StopView::Error(e@)),
    }
}

fn stopped(e: Stop) -> (r: Progress)
    ensures
        progress_view(r) == Err::<ResponseView, _>(e@),
{
    match e {
        Stop::More => Progress::NeedMore,
        Stop::Error(e) => Progress::Failed(e),
    }
}

/// Parse an HTTP/1.1 response from the bytes received so far, given how the
/// stream goes on.
pub fn scan_response(input: &[u8], end: &StreamEnd, head_request: bool) -> (r: Progress)
    ensures
        progress_view(r) == response_from(input@, end@, head_request),
{
    let (line, i): (String, usize) = match read_line(input, end, 0) {
        Ok(p) => p,
        Err(e) => {
            return stopped(e);
        },
    };
    let (status, reason): (u16, String) = match parse_status_line(line.as_str()) {
        Ok(p) => p,
        Err(e) => {
            return Progress::Failed(e);
        },
    };
    let (headers, j): (Vec<(String, String)>, usize) = match read_headers(input, end, i) {
        Ok(p) => p,
        Err(e) => {
            return stopped(e);
        },
    };
    match read_body(input, end, j, status, headers.as_slice(), head_request) {
        Ok(body) => {
            let final_url: String = String::new();
            let response: HttpResponse = HttpResponse { status, reason, headers, body, final_url };
            assert(response@.final_url == Seq::<char>::empty());
            Progress::Done(response)
        },
        Err(e) => stopped(e),
    }
}

/// What the result of reading a whole response holds.
pub open spec fn response_result(r: Result<HttpResponse, String>) -> Result<
    ResponseView,
    StopView,
> {
    match r {
        Ok(response) => Ok(response@),
        Err(e) => Err(StopView::Error(e@)),
    }
}

/// Parse an HTTP/1.1 response from all the bytes of a closed stream.
pub fn read_response(input: &[u8], head_request: bool) -> (r: Result<HttpResponse, String>)
    ensures
        response_result(r) == response_from(input@, EndView::Closed, head_request),
{
    let end: StreamEnd = StreamEnd::Closed;
    match scan_response(input, &end, head_request) {
        Progress::Done(response) => Ok(response),
        Progress::Failed(e) => Err(e),
        Progress::NeedMore => {
            proof {
                lemma_closed_needs_no_more(input@, head_request);
            }
            Err(String::new())
        },
    }
}

proof fn lemma_closed_headers(b: Seq<u8>, i: int, acc: Seq<(Seq<char>, Seq<char>)>)
    ensures
        headers_at(b, EndView::Closed, i, acc) != Err::<
            (Seq<(Seq<char>, Seq<char>)>, int),
            StopView,
        >(StopView::More),
    decreases b.len() - i,
{
    if let Ok((line, j)) = line_at(b, EndView::Closed, i) {
        if let Some((name, value)) = text::split_once_at(line, ":"@) {
            if line.len() > 0 {
                lemma_line_at(b, EndView::Closed, i);
                lemma_closed_headers(
                    b,
                    j,
                    acc.push((text::trimmed(name), text::trimmed(value))),
                );
            }
        }
    }
}

proof fn lemma_closed_trailers(b: Seq<u8>, i: int)
    ensures
        trailers_at(b, EndView::Closed, i) != Err::<int, StopView>(StopView::More),
    decreases b.len() - i,
{
    if let Ok((line, j)) = line_at(b, EndView::Closed, i) {
        if line.len() > 0 {
            lemma_line_at(b, EndView::Closed, i);
            lemma_closed_trailers(b, j);
        }
    }
}

proof fn lemma_closed_chunks(b: Seq<u8>, i: int, acc: Seq<u8>)
    ensures
        chunks_at(b, EndView::Closed, i, acc) != Err::<Seq<u8>, StopView>(StopView::More),
    decreases b.len() - i,
{
    if let Ok((line, j)) = line_at(b, EndView::Closed, i) {
        lemma_line_at(b, EndView::Closed, i);
        lemma_closed_trailers(b, j);
        if let Some(n) = chunk_size(line) {
            if let Ok(chunk) = bytes_at(b, EndView::Closed, j, n, "truncated chunk"@) {
                if let Ok((_, k)) = line_at(b, EndView::Closed, (j + n) as int) {
                    lemma_line_at(b, EndView::Closed, (j + n) as int);
                    lemma_closed_chunks(b, k, acc + chunk);
                }
            }
        }
    }
}

/// A closed stream always gives a definite answer.
pub proof fn lemma_closed_needs_no_more(b: Seq<u8>, head_request: bool)
    ensures
        response_from(b, EndView::Closed, head_request) != Err::<ResponseView, StopView>(
            StopView::More,
        ),
{
    if let Ok((line, i)) = line_at(b, EndView::Closed, 0) {
        lemma_closed_headers(b, i, seq![]);
        if let Ok((headers, j)) = headers_at(b, EndView::Closed, i, seq![]) {
            lemma_closed_chunks(b, j, seq![]);
        }
    }
}

// --------------------------------------------------------------- laws ----

proof fn lemma_newline_extended(b: Seq<u8>, x: Seq<u8>, i: int)
    requires
        newline(b, i) is Some,
    ensures
        newline(b + x, i) == newline(b, i),
    decreases b.len() - i,
{
    if b[i] != 10 {
        lemma_newline_extended(b, x, i + 1);
    }
}

proof fn lemma_line_extended(b: Seq<u8>, x: Seq<u8>, end: EndView, i: int)
    requires
        line_at(b, EndView::Open, i) != Err::<(Seq<char>, int), StopView>(StopView::More),
    ensures
        line_at(b + x, end, i) == line_at(b, EndView::Open, i),
{
    lemma_newline(b, i);
    lemma_newline_extended(b, x, i);
    let j = newline(b, i)->0;
    assert((b + x).subrange(i, j + 1) == b.subrange(i, j + 1));
}

proof fn lemma_headers_extended(
    b: Seq<u8>,
    x: Seq<u8>,
    end: EndView,
    i: int,
    acc: Seq<(Seq<char>, Seq<char>)>,
)
    requires
        headers_at(b, EndView::Open, i, acc) != Err::<
            (Seq<(Seq<char>, Seq<char>)>, int),
            StopView,
        >(StopView::More),
    ensures
        headers_at(b + x, end, i, acc) == headers_at(b, EndView::Open, i, acc),
    decreases b.len() - i,
{
    lemma_line_extended(b, x, end, i);
    if let Ok((line, j)) = line_at(b, EndView::Open, i) {
        lemma_line_at(b, EndView::Open, i);
        if let Some((name, value)) = text::split_once_at(line, ":"@) {
            if line.len() > 0 {
                lemma_headers_extended(
                    b,
                    x,
                    end,
                    j,
                    acc.push((text::trimmed(name), text::trimmed(value))),
                );
            }
        }
    }
}

proof fn lemma_trailers_extended(b: Seq<u8>, x: Seq<u8>, end: EndView, i: int)
    requires
        trailers_at(b, EndView::Open, i) != Err::<int, StopView>(StopView::More),
    ensures
        trailers_at(b + x, end, i) == trailers_at(b, EndView::Open, i),
    decreases b.len() - i,
{
    lemma_line_extended(b, x, end, i);
    if let Ok((line, j)) = line_at(b, EndView::Open, i) {
        lemma_line_at(b, EndView::Open, i);
        if line.len() > 0 {
            lemma_trailers_extended(b, x, end, j);
        }
    }
}

proof fn lemma_chunks_extended(b: Seq<u8>, x: Seq<u8>, end: EndView, i: int, acc: Seq<u8>)
    requires
        0 <= i,
        chunks_at(b, EndView::Open, i, acc) != Err::<Seq<u8>, StopView>(StopView::More),
    ensures
        chunks_at(b + x, end, i, acc) == chunks_at(b, EndView::Open, i, acc),
    decreases b.len() - i,
{
    lemma_line_extended(b, x, end, i);
    if let Ok((line, j)) = line_at(b, EndView::Open, i) {
        lemma_line_at(b, EndView::Open, i);
        if let Some(n) = chunk_size(line) {
            if n == 0 {
                lemma_trailers_extended(b, x, end, j);
            } else if let Ok(chunk) = bytes_at(b, EndView::Open, j, n, "truncated chunk"@) {
                assert((b + x).subrange(j, j + n) == b.subrange(j, j + n));
                lemma_line_extended(b, x, end, (j + n) as int);
                if let Ok((_, k)) = line_at(b, EndView::Open, (j + n) as int) {
                    lemma_line_at(b, EndView::Open, (j + n) as int);
                    lemma_chunks_extended(b, x, end, k, acc + chunk);
                }
            }
        }
    }
}

/// How the bytes arrive does not matter: an answer given on an open stream
/// stands, whatever bytes follow and however the stream ends.
pub proof fn law_answer_is_final(b: Seq<u8>, x: Seq<u8>, end: EndView, head_request: bool)
    requires
        response_from(b, EndView::Open, head_request) != Err::<ResponseView, StopView>(
            StopView::More,
        ),
    ensures
        response_from(b + x, end, head_request) == response_from(b, EndView::Open, head_request),
{
    lemma_line_extended(b, x, end, 0);
    if let Ok((line, i)) = line_at(b, EndView::Open, 0) {
        if let Ok((status, _)) = status_line(line) {
            lemma_headers_extended(b, x, end, i, seq![]);
            if let Ok((headers, j)) = headers_at(b, EndView::Open, i, seq![]) {
                lemma_line_at(b, EndView::Open, 0);
                lemma_headers_position(b, EndView::Open, i, seq![]);
                let coding = header_from(headers, "Transfer-Encoding"@, 0);
                if bodyless(status, head_request) {
                } else if coding is Some && text::contains(
                    text::ascii_lower(coding->0),
                    "chunked"@,
                ) {
                    lemma_chunks_extended(b, x, end, j, seq![]);
                } else if let Some(v) = header_from(headers, "Content-Length"@, 0) {
                    if let Some(n) = text::unsigned(text::trimmed(v), 10, usize::MAX as nat) {
                        if j + n <= b.len() {
                            assert((b + x).subrange(j, j + n) == b.subrange(j, j + n));
                        }
                    }
                }
            }
        }
    }
}

proof fn lemma_headers_position(
    b: Seq<u8>,
    end: EndView,
    i: int,
    acc: Seq<(Seq<char>, Seq<char>)>,
)
    ensures
        headers_at(b, end, i, acc) matches Ok((_, j)) ==> i < j <= b.len(),
    decreases b.len() - i,
{
    lemma_line_at(b, end, i);
    if let Ok((line, j)) = line_at(b, end, i) {
        if let Some((name, value)) = text::split_once_at(line, ":"@) {
            if line.len() > 0 {
                lemma_headers_position(
                    b,
                    end,
                    j,
                    acc.push((text::trimmed(name), text::trimmed(value))),
                );
            }
        }
    }
}

pub(crate) proof fn lemma_header_found(headers: Seq<(Seq<char>, Seq<char>)>, name: Seq<char>, i: int, k: int)
    requires
        0 <= i <= k < headers.len(),
        text::same_letters(headers[k].0, name),
    ensures
        header_from(headers, name, i) is Some,
    decreases headers.len() - i,
{
    if !text::same_letters(headers[i].0, name) {
        lemma_header_found(headers, name, i + 1, k);
    }
}

/// A user header takes the place of the default of that name, whatever the
/// case of its letters.
pub proof fn law_user_header_replaces_default(
    headers: Seq<(Seq<char>, Seq<char>)>,
    k: int,
    name: Seq<char>,
    value: Seq<char>,
)
    requires
        0 <= k < headers.len(),
        text::same_letters(headers[k].0, name),
    ensures
        default_line(headers, name, value) == Seq::<char>::empty(),
{
    lemma_header_found(headers, name, 0, k);
}

// ---------------------------------------------------------- redirects ----

/// The statuses that ask for a redirect.
pub open spec fn redirects(status: u16) -> bool {
    status == 301 || status == 302 || status == 303 || status == 307 || status == 308
}

/// What follows a response.
#[derive(Debug)]
pub enum Next {
    Finish(HttpResponse),
    Follow { method: String, target: Url, body: Vec<u8> },
    Fail(String),
}

/// What the next step stands for.
pub enum NextView {
    Finish(ResponseView),
    Follow { method: Seq<char>, target: UrlView, body: Seq<u8> },
    Fail(Seq<char>),
}

impl View for Next {
    type V = NextView;

    open spec fn view(&self) -> NextView {
        match self {
            Next::Finish(r) => NextView::Finish(r@),
            Next::Follow { method, target, body } => NextView::Follow {
                method: method@,
                target: target@,
                body: body@,
            },
            Next::Fail(e) => NextView::Fail(e@),
        }
    }
}

/// The request becomes a plain GET on its way.
pub open spec fn demoted(status: u16, method: Seq<char>) -> bool {
    status == 303 || ((status == 301 || status == 302) && method == "POST"@)
}

/// What follows the response to the hop with the given number, counted from
/// zero.
pub open spec fn next_step(
    response: ResponseView,
    method: Seq<char>,
    current: UrlView,
    body: Seq<u8>,
    hop: nat,
    no_redirect: bool,
) -> NextView {
    if no_redirect || !redirects(response.status) {
        NextView::Finish(response)
    } else {
        match response.header("Location"@) {
            None => NextView::Fail(
                text::decimal(response.status as nat) + " response without a Location header"@,
            ),
            Some(location) => match url::resolved(current, location) {
                Err(e) => NextView::Fail(e),
                Ok(target) => if hop >= MAX_REDIRECTS {
                    NextView::Fail("more than 10 redirects"@)
                } else if demoted(response.status, method) {
                    NextView::Follow { method: "GET"@, target, body: seq![] }
                } else {
                    NextView::Follow { method, target, body }
                },
            },
        }
    }
}

/// Decide what follows a response: return it, follow its redirect, or give up.
pub fn next_hop(
    response: HttpResponse,
    method: String,
    current: &Url,
    body: Vec<u8>,
    hop: usize,
    no_redirect: bool,
) -> (r: Next)
    ensures
        r@ == next_step(response@, method@, current@, body@, hop as nat, no_redirect),
{
    let status: u16 = response.status;
    let redirect: bool = status == 301 || status == 302 || status == 303 || status == 307 || status
        == 308;
    if no_redirect || !redirect {
        return Next::Finish(response);
    }
    match response.header("Location") {
        None => {
            let code: String = text::decimal_string(status as u64);
            Next::Fail(text::concat2(code.as_str(), " response without a Location header"))
        },
        Some(location) => match url::resolve_location(current, location) {
            Err(e) => Next::Fail(e),
            Ok(target) => {
                if hop >= MAX_REDIRECTS {
                    return Next::Fail(text::owned("more than 10 redirects"));
                }
                // Per RFC 9110: 303 always becomes GET; historic 301/302 behavior
                // demotes POST to GET. 307/308 keep the method and body.
                if status == 303 || ((status == 301 || status == 302) && text::same_str(
                    method.as_str(),
                    "POST",
                )) {
                    let none: Vec<u8> = Vec::new();
                    assert(none@ == Seq::<u8>::empty());
                    return Next::Follow { method: text::owned("GET"), target, body: none };
                }
                Next::Follow { method, target, body }
            },
        },
    }
}

/// The redirect limit holds: the response to the last hop is never followed.
pub proof fn law_redirects_are_bounded(
    response: ResponseView,
    method: Seq<char>,
    current: UrlView,
    body: Seq<u8>,
    hop: nat,
    no_redirect: bool,
)
    requires
        hop >= MAX_REDIRECTS,
    ensures
        !(next_step(response, method, current, body, hop, no_redirect) is Follow),
{
}

/// A redirect keeps method and body, or turns the request into a GET without
/// a body; 307 and 308 always keep them.
pub proof fn law_redirect_method(
    response: ResponseView,
    method: Seq<char>,
    current: UrlView,
    body: Seq<u8>,
    hop: nat,
    no_redirect: bool,
)
    ensures
        next_step(response, method, current, body, hop, no_redirect) matches NextView::Follow {
            method: m,
            body: b,
            ..
        } ==> (m == method && b == body) || (m == "GET"@ && b.len() == 0 && response.status != 307
            && response.status != 308),
{
}

/// A request on its way: what is sent next, and how many redirects led there.
#[derive(Debug)]
pub struct Exchange {
    pub method: String,
    pub target: Url,
    pub body: Vec<u8>,
    pub hop: usize,
}

/// What a request on its way holds.
#[verifier::ext_equal]
pub struct ExchangeView {
    pub method: Seq<char>,
    pub target: UrlView,
    pub body: Seq<u8>,
    pub hop: nat,
}

impl View for Exchange {
    type V = ExchangeView;

    open spec fn view(&self) -> ExchangeView {
        ExchangeView {
            method: self.method@,
            target: self.target@,
            body: self.body@,
            hop: self.hop as nat,
        }
    }
}

/// What a response to a request on its way leads to.
#[derive(Debug)]
pub enum Hop {
    Finish(HttpResponse),
    Send(Exchange),
    Fail(String),
}

/// What the outcome of a hop stands for.
pub enum HopView {
    Finish(ResponseView),
    Send(ExchangeView),
    Fail(Seq<char>),
}

impl View for Hop {
    type V = HopView;

    open spec fn view(&self) -> HopView {
        match self {
            Hop::Finish(r) => HopView::Finish(r@),
            Hop::Send(e) => HopView::Send(e@),
            Hop::Fail(e) => HopView::Fail(e@),
        }
    }
}

/// What a response leads to; each redirect is one hop more.
pub open spec fn answered(e: ExchangeView, response: ResponseView, no_redirect: bool) -> HopView {
    match next_step(response, e.method, e.target, e.body, e.hop, no_redirect) {
        NextView::Finish(r) => HopView::Finish(r),
        NextView::Follow { method, target, body } => HopView::Send(
            ExchangeView { method, target, body, hop: e.hop + 1 },
        ),
        NextView::Fail(m) => HopView::Fail(m),
    }
}

impl Exchange {
    /// A request that is about to be sent first.
    pub fn new(method: &str, target: &Url, body: Vec<u8>) -> (r: Exchange)
        ensures
            r@ == (ExchangeView { method: method@, target: target@, body: body@, hop: 0 }),
    {
        Exchange { method: text::owned(method), target: target.clone(), body, hop: 0 }
    }

    /// Take the response to the request.
    pub fn answer(self, response: HttpResponse, no_redirect: bool) -> (r: Hop)
        ensures
            r@ == answered(self@, response@, no_redirect),
    {
        let hop: usize = self.hop;
        match next_hop(response, self.method, &self.target, self.body, hop, no_redirect) {
            Next::Finish(response) => Hop::Finish(response),
            Next::Fail(e) => Hop::Fail(e),
            Next::Follow { method, target, body } => Hop::Send(
                Exchange { method, target, body, hop: hop + 1 },
            ),
        }
    }
}

/// The request on its way after the first `n` responses, if it still is.
pub open spec fn under_way(
    e: ExchangeView,
    responses: Seq<ResponseView>,
    no_redirect: bool,
    n: nat,
) -> Option<ExchangeView>
    decreases n,
{
    if n == 0 {
        Some(e)
    } else {
        match under_way(e, responses, no_redirect, (n - 1) as nat) {
            None => None,
            Some(f) => match answered(f, responses[n - 1], no_redirect) {
                HopView::Send(g) => Some(g),
                _ => None,
            },
        }
    }
}

/// Whatever the responses are, a request is sent at most once and then once
/// for each redirect that the limit allows.
pub proof fn law_exchanges_are_bounded(
    e: ExchangeView,
    responses: Seq<ResponseView>,
    no_redirect: bool,
    n: nat,
)
    requires
        e.hop == 0,
    ensures
        under_way(e, responses, no_redirect, n) matches Some(f) ==> f.hop == n && n
            <= MAX_REDIRECTS,
        no_redirect && n > 0 ==> under_way(e, responses, no_redirect, n) is None,
    decreases n,
{
    if n > 0 {
        law_exchanges_are_bounded(e, responses, no_redirect, (n - 1) as nat);
    }
}

// --------------------------------------------------------- connection ----

/// The URL a response came from.
pub open spec fn shown_url(target: UrlView) -> Seq<char> {
    "http://"@ + target.host_value() + target.path_and_query
}

/// Note in a response where it came from.
pub fn with_final_url(response: HttpResponse, target: &Url) -> (r: HttpResponse)
    ensures
        r@ == (ResponseView { final_url: shown_url(target@), ..response@ }),
{
    let host: String = target.host_header();
    let final_url: String = text::concat3(
        "http://",
        host.as_str(),
        target.path_and_query.as_str(),
    );
    HttpResponse { final_url, ..response }
}

/// The stage at which a connection failed.
#[derive(Debug, Clone, Copy, PartialEq, Eq, Structural)]
pub enum Stage {
    Resolve,
    ResolveEmpty,
    Connect,
    Write,
    Read,
}

/// The text of a connection failure.
pub open spec fn connection_error(
    stage: Stage,
    target: UrlView,
    kind: FaultKind,
    detail: Seq<char>,
) -> Seq<char> {
    let address = target.address();
    match stage {
        Stage::Resolve => "cannot resolve "@ + address + ": "@ + detail,
        Stage::ResolveEmpty => "cannot resolve "@ + address,
        Stage::Connect => "cannot connect to "@ + address + ": "@ + detail,
        Stage::Write => fault_text("write to "@ + address, kind, detail),
        Stage::Read => "read from "@ + address + ": "@ + detail,
    }
}

/// Say at which stage, and why, a connection failed.
pub fn connection_failed(stage: Stage, target: &Url, kind: FaultKind, detail: &str) -> (r: String)
    ensures
        r@ == connection_error(stage, target@, kind, detail@),
{
    let address: String = target.authority();
    let mut out: String = match stage {
        Stage::Resolve => text::concat3("cannot resolve ", address.as_str(), ": "),
        Stage::ResolveEmpty => {
            return text::concat2("cannot resolve ", address.as_str());
        },
        Stage::Connect => text::concat3("cannot connect to ", address.as_str(), ": "),
        Stage::Write => {
            let what: String = text::concat2("write to ", address.as_str());
            return io_context(what.as_str(), kind, detail);
        },
        Stage::Read => text::concat3("read from ", address.as_str(), ": "),
    };
    out.append(detail);
    out
}

// -------------------------------------------------- chunked transfers ----

/// A chunk as it goes on the wire: its size in hexadecimal, and its bytes,
/// each followed by CRLF.
pub open spec fn chunk(data: Seq<u8>) -> Seq<u8> {
    text::ascii_bytes(text::hexadecimal(data.len()) + seq!['\r', '\n']) + data + seq![13u8, 10u8]
}

/// A body in chunks, with the last chunk and no trailers.
pub open spec fn chunked(parts: Seq<Seq<u8>>) -> Seq<u8>
    decreases parts.len(),
{
    if parts.len() == 0 {
        seq![48u8, 13u8, 10u8, 13u8, 10u8]
    } else {
        chunk(parts[0]) + chunked(parts.drop_first())
    }
}

/// The bytes of all parts.
pub open spec fn joined_bytes(parts: Seq<Seq<u8>>) -> Seq<u8>
    decreases parts.len(),
{
    if parts.len() == 0 {
        seq![]
    } else {
        parts[0] + joined_bytes(parts.drop_first())
    }
}

pub(crate) proof fn lemma_newline_at(b: Seq<u8>, i: int, j: int)
    requires
        0 <= i <= j < b.len(),
        b[j] == 10,
        forall|k: int| i <= k < j ==> b[k] != 10,
    ensures
        newline(b, i) == Some(j),
    decreases j - i,
{
    if i < j {
        lemma_newline_at(b, i + 1, j);
    }
}

/// A line of ASCII text that ends in CRLF.
pub(crate) proof fn lemma_crlf_line(b: Seq<u8>, end: EndView, i: int, s: Seq<char>)
    requires
        0 <= i,
        i + s.len() + 2 <= b.len(),
        b.subrange(i, i + s.len() + 2) == text::ascii_bytes(s + seq!['\r', '\n']),
        forall|k: int| 0 <= k < s.len() ==> (#[trigger] s[k] as u32) < 128 && s[k] != '\r' && s[k] != '\n',
    ensures
        line_at(b, end, i) == Ok::<_, StopView>((s, (i + s.len() + 2) as int)),
{
    let line = s + seq!['\r', '\n'];
    let n = s.len() as int;
    let raw = b.subrange(i, i + n + 2);
    assert forall|k: int| 0 <= k < line.len() implies (#[trigger] line[k] as u32) < 128 by {
        if k < n {
            assert(line[k] == s[k]);
        }
    }
    text::lemma_ascii_bytes(line);
    encode_utf8_valid_utf8(line);
    encode_utf8_decode_utf8(line);
    assert(raw[n + 1] == (line[n + 1] as u32) as u8);
    assert(b[i + n + 1] == 10);
    assert forall|k: int| i <= k < i + n + 1 implies b[k] != 10 by {
        assert(b[k] == raw[k - i]);
        let c = line[k - i] as u32;
        assert(raw[k - i] == c as u8);
        if k < i + n {
            assert(line[k - i] == s[k - i]);
            assert(s[k - i] != '\n');
        } else {
            assert(line[k - i] == '\r');
        }
        if c == 10 {
            char_u32_cast(line[k - i], c);
        }
    }
    lemma_newline_at(b, i, i + n + 1);
    reveal_strlit("\r\n");
    let set = "\r\n"@;
    assert(set[0] == '\r' && set[1] == '\n');
    assert(set.contains('\r') && set.contains('\n'));
    reveal_with_fuel(text::back_set, 3);
    assert(text::back_set(line, set, n + 2) == n) by {
        assert(line[n + 1] == '\n' && line[n] == '\r');
        if n > 0 {
            assert(line[n - 1] == s[n - 1]);
            assert(!set.contains(line[n - 1]));
        }
    }
    assert(line.take(n) =~= s);
}

pub(crate) proof fn lemma_chunk_size(n: nat)
    requires
        n <= usize::MAX,
    ensures
        chunk_size(text::hexadecimal(n)) == Some(n),
        forall|k: int|
            0 <= k < text::hexadecimal(n).len() ==> (#[trigger] text::hexadecimal(n)[k] as u32)
                < 128 && text::hexadecimal(n)[k] != '\r' && text::hexadecimal(n)[k] != '\n',
{
    let h = text::hexadecimal(n);
    text::lemma_hexadecimal(n);
    reveal_strlit(";");
    assert forall|k: int| 0 <= k < h.len() implies !";"@.contains(#[trigger] h[k]) by {
        assert(text::digit_value(h[k], 16) is Some);
        assert(";"@[0] == ';');
    }
    text::lemma_find_set_none(h, ";"@, 0);
    assert(h.skip(0) =~= h);
    assert(text::split_set(h, ";"@, 0)[0] == h);
    assert(text::digit_value(h[0], 16) is Some);
    assert(text::digit_value(h[h.len() - 1], 16) is Some);
    text::lemma_trimmed_plain(h);
}

/// The last chunk ends the body.
proof fn lemma_last_chunk(b: Seq<u8>, end: EndView, i: int, acc: Seq<u8>)
    requires
        0 <= i,
        i + 5 <= b.len(),
        b.subrange(i, i + 5) == seq![48u8, 13u8, 10u8, 13u8, 10u8],
    ensures
        chunks_at(b, end, i, acc) == Ok::<_, StopView>(acc),
{
    let five = b.subrange(i, i + 5);
    let zero = text::hexadecimal(0);
    lemma_chunk_size(0);
    assert(zero =~= seq!['0']);
    assert(b.subrange(i, i + 3) =~= five.subrange(0, 3));
    assert(b.subrange(i, i + 3) =~= text::ascii_bytes(zero + seq!['\r', '\n']));
    lemma_crlf_line(b, end, i, zero);
    let none = Seq::<char>::empty();
    assert(b.subrange(i + 3, i + 5) =~= five.subrange(3, 5));
    assert(b.subrange(i + 3, i + 5) =~= text::ascii_bytes(none + seq!['\r', '\n']));
    lemma_crlf_line(b, end, i + 3, none);
    assert(trailers_at(b, end, i + 3) == Ok::<_, StopView>(i + 5));
}

/// A chunk adds its bytes.
pub(crate) proof fn lemma_one_chunk(b: Seq<u8>, end: EndView, i: int, data: Seq<u8>, acc: Seq<u8>)
    requires
        0 <= i,
        i + chunk(data).len() <= b.len(),
        b.subrange(i, i + chunk(data).len()) == chunk(data),
        0 < data.len() <= usize::MAX,
    ensures
        chunks_at(b, end, i, acc) == chunks_at(
            b,
            end,
            (i + chunk(data).len()) as int,
            acc + data,
        ),
{
    let whole = chunk(data);
    let h = text::hexadecimal(data.len());
    let n = h.len() as int;
    let head = text::ascii_bytes(h + seq!['\r', '\n']);
    lemma_chunk_size(data.len());
    let j = i + n + 2;
    assert(whole.subrange(0, n + 2) =~= head);
    assert(b.subrange(i, j) =~= whole.subrange(0, n + 2));
    lemma_crlf_line(b, end, i, h);
    let k = j + data.len();
    assert(whole.subrange(n + 2, n + 2 + data.len()) =~= data);
    assert(b.subrange(j, k) =~= whole.subrange(n + 2, n + 2 + data.len()));
    let none = Seq::<char>::empty();
    assert(b.subrange(k, k + 2) =~= whole.subrange(n + 2 + data.len(), whole.len() as int));
    assert(b.subrange(k, k + 2) =~= text::ascii_bytes(none + seq!['\r', '\n']));
    lemma_crlf_line(b, end, k, none);
}

/// Decoding a body in chunks gives back the bytes of its parts, wherever it
/// stands and whatever follows it.
pub proof fn law_chunked_body_decodes(
    before: Seq<u8>,
    parts: Seq<Seq<u8>>,
    after: Seq<u8>,
    end: EndView,
    acc: Seq<u8>,
)
    requires
        forall|k: int| 0 <= k < parts.len() ==> 0 < (#[trigger] parts[k]).len() <= usize::MAX,
    ensures
        chunks_at(before + chunked(parts) + after, end, before.len() as int, acc) == Ok::<
            _,
            StopView,
        >(acc + joined_bytes(parts)),
    decreases parts.len(),
{
    let b = before + chunked(parts) + after;
    let i = before.len() as int;
    if parts.len() == 0 {
        assert(b.subrange(i, i + 5) =~= chunked(parts));
        lemma_last_chunk(b, end, i, acc);
        assert(acc + joined_bytes(parts) =~= acc);
    } else {
        let data = parts[0];
        let rest = parts.drop_first();
        let longer = before + chunk(data);
        assert(chunked(parts) == chunk(data) + chunked(rest));
        assert(b =~= longer + chunked(rest) + after);
        assert(b.subrange(i, i + chunk(data).len()) =~= chunk(data));
        lemma_one_chunk(b, end, i, data, acc);
        assert forall|m: int| 0 <= m < rest.len() implies 0 < (#[trigger] rest[m]).len()
            <= usize::MAX by {
            assert(rest[m] == parts[m + 1]);
        }
        law_chunked_body_decodes(longer, rest, after, end, acc + data);
        assert(acc + data + joined_bytes(rest) =~= acc + joined_bytes(parts));
    }
}

/// ASCII text that fits on one line.
pub open spec fn one_line(s: Seq<char>) -> bool {
    forall|k: int|
        0 <= k < s.len() ==> (#[trigger] s[k] as u32) < 128 && s[k] != '\r' && s[k] != '\n'
}

/// Text without white space at either end.
pub open spec fn flush(s: Seq<char>) -> bool {
    s.len() > 0 ==> !text::whitespace(s[0]) && !text::whitespace(s.last())
}

/// A header that goes on the wire and comes back unchanged.
pub open spec fn plain_header(h: (Seq<char>, Seq<char>)) -> bool {
    &&& one_line(h.0)
    &&& one_line(h.1)
    &&& flush(h.0)
    &&& flush(h.1)
    &&& !h.0.contains(':')
}

/// A line on the wire.
pub open spec fn wire_line(s: Seq<char>) -> Seq<u8> {
    text::ascii_bytes(s + seq!['\r', '\n'])
}

pub open spec fn header_text(h: (Seq<char>, Seq<char>)) -> Seq<char> {
    h.0 + seq![':'] + (seq![' '] + h.1)
}

/// The header lines on the wire, with the blank line behind them.
pub open spec fn wire_headers(headers: Seq<(Seq<char>, Seq<char>)>) -> Seq<u8>
    decreases headers.len(),
{
    if headers.len() == 0 {
        wire_line(seq![])
    } else {
        wire_line(header_text(headers[0])) + wire_headers(headers.drop_first())
    }
}

pub open spec fn status_text(status: u16, reason: Seq<char>) -> Seq<char> {
    "HTTP/1.1"@ + seq![' '] + (text::decimal(status as nat) + seq![' '] + reason)
}

/// The head of a response on the wire.
pub open spec fn wire_head(
    status: u16,
    reason: Seq<char>,
    headers: Seq<(Seq<char>, Seq<char>)>,
) -> Seq<u8> {
    wire_line(status_text(status, reason)) + wire_headers(headers)
}

pub(crate) proof fn lemma_wire_line(before: Seq<u8>, s: Seq<char>, after: Seq<u8>, end: EndView)
    requires
        one_line(s),
    ensures
        line_at(before + wire_line(s) + after, end, before.len() as int) == Ok::<_, StopView>(
            (s, (before.len() + s.len() + 2) as int),
        ),
{
    let b = before + wire_line(s) + after;
    let i = before.len() as int;
    assert(b.subrange(i, i + s.len() + 2) =~= wire_line(s));
    lemma_crlf_line(b, end, i, s);
}

pub(crate) proof fn lemma_wire_headers(
    before: Seq<u8>,
    headers: Seq<(Seq<char>, Seq<char>)>,
    after: Seq<u8>,
    end: EndView,
    acc: Seq<(Seq<char>, Seq<char>)>,
)
    requires
        forall|k: int| 0 <= k < headers.len() ==> plain_header(#[trigger] headers[k]),
    ensures
        headers_at(before + wire_headers(headers) + after, end, before.len() as int, acc) == Ok::<
            _,
            StopView,
        >((acc + headers, (before.len() + wire_headers(headers).len()) as int)),
    decreases headers.len(),
{
    let b = before + wire_headers(headers) + after;
    if headers.len() == 0 {
        lemma_wire_line(before, seq![], after, end);
        assert(acc + headers =~= acc);
    } else {
        let h = headers[0];
        let line = header_text(h);
        let rest = headers.drop_first();
        let longer = before + wire_line(line);
        assert(plain_header(h));
        assert(one_line(line)) by {
            assert forall|k: int| 0 <= k < line.len() implies (#[trigger] line[k] as u32) < 128
                && line[k] != '\r' && line[k] != '\n' by {
                if k < h.0.len() {
                    assert(line[k] == h.0[k]);
                } else if k >= h.0.len() + 2 {
                    assert(line[k] == h.1[k - h.0.len() - 2]);
                }
            }
        }
        assert(b =~= before + wire_line(line) + (wire_headers(rest) + after));
        lemma_wire_line(before, line, wire_headers(rest) + after, end);
        reveal_strlit(":");
        assert(":"@ =~= seq![':']);
        text::lemma_split_once(h.0, ':', seq![' '] + h.1);
        text::lemma_trimmed_plain(h.0);
        text::lemma_trimmed_after_space(h.1);
        assert forall|k: int| 0 <= k < rest.len() implies plain_header(#[trigger] rest[k]) by {
            assert(rest[k] == headers[k + 1]);
        }
        assert(b =~= longer + wire_headers(rest) + after);
        lemma_wire_headers(longer, rest, after, end, acc.push(h));
        assert(acc.push(h) + rest =~= acc + headers);
    }
}

/// The head of a response reads back, and the body is read from behind it.
pub(crate) proof fn lemma_wire_head(
    status: u16,
    reason: Seq<char>,
    headers: Seq<(Seq<char>, Seq<char>)>,
    after: Seq<u8>,
    end: EndView,
    head_request: bool,
)
    requires
        one_line(reason),
        flush(reason),
        forall|k: int| 0 <= k < headers.len() ==> plain_header(#[trigger] headers[k]),
    ensures
        response_from(wire_head(status, reason, headers) + after, end, head_request) == (
        match body_at(
            wire_head(status, reason, headers) + after,
            end,
            wire_head(status, reason, headers).len() as int,
            status,
            headers,
            head_request,
        ) {
            Err(e) => Err::<ResponseView, StopView>(e),
            Ok(body) => Ok(ResponseView { status, reason, headers, body, final_url: seq![] }),
        }),
{
    let line = status_text(status, reason);
    let code = text::decimal(status as nat);
    let b = wire_head(status, reason, headers) + after;
    let none = Seq::<u8>::empty();
    text::lemma_decimal(status as nat);
    reveal_strlit("HTTP/1.1");
    reveal_strlit("HTTP/");
    reveal_strlit(" ");
    assert(one_line(line)) by {
        assert forall|k: int| 0 <= k < line.len() implies (#[trigger] line[k] as u32) < 128
            && line[k] != '\r' && line[k] != '\n' by {
            if 9 <= k < 9 + code.len() {
                assert(line[k] == code[k - 9]);
            } else if k >= 10 + code.len() {
                assert(line[k] == reason[k - 10 - code.len()]);
            }
        }
    }
    assert(b =~= none + wire_line(line) + (wire_headers(headers) + after));
    lemma_wire_line(none, line, wire_headers(headers) + after, end);
    assert(" "@ =~= seq![' ']);
    assert(!"HTTP/1.1"@.contains(' '));
    text::lemma_split_once("HTTP/1.1"@, ' ', code + seq![' '] + reason);
    assert(!code.contains(' ')) by {
        if code.contains(' ') {
            let k = choose|k: int| 0 <= k < code.len() && code[k] == ' ';
            assert(text::ascii_digit(code[k]));
        }
    }
    text::lemma_split_once(code, ' ', reason);
    text::lemma_trimmed_plain(reason);
    assert("HTTP/1.1"@.take(5) =~= "HTTP/"@);
    assert(text::ascii_digit(code[0]));
    assert(status_line(line) == Ok::<(u16, Seq<char>), Seq<char>>((status, reason)));
    assert(b =~= wire_line(line) + wire_headers(headers) + after);
    lemma_wire_headers(wire_line(line), headers, after, end, seq![]);
    assert(Seq::<(Seq<char>, Seq<char>)>::empty() + headers =~= headers);
}

/// A response with a `Content-Length` reads back as it was sent, whatever
/// bytes follow the body and whether or not the stream has ended.
pub proof fn law_sized_response_reads_back(response: ResponseView, after: Seq<u8>, end: EndView)
    requires
        one_line(response.reason),
        flush(response.reason),
        forall|k: int|
            0 <= k < response.headers.len() ==> plain_header(#[trigger] response.headers[k]),
        response.status >= 200,
        response.status != 204,
        response.status != 304,
        response.header("Transfer-Encoding"@) is None,
        response.header("Content-Length"@) == Some(text::decimal(response.body.len())),
        response.body.len() <= usize::MAX,
        response.final_url == Seq::<char>::empty(),
    ensures
        response_from(
            wire_head(response.status, response.reason, response.headers) + (response.body + after),
            end,
            false,
        ) == Ok::<_, StopView>(response),
{
    let head = wire_head(response.status, response.reason, response.headers);
    let b = head + (response.body + after);
    let n = response.body.len();
    let digits = text::decimal(n);
    lemma_wire_head(
        response.status,
        response.reason,
        response.headers,
        response.body + after,
        end,
        false,
    );
    text::lemma_decimal(n);
    assert(text::ascii_digit(digits[0]));
    assert(text::ascii_digit(digits[digits.len() - 1]));
    text::lemma_trimmed_plain(digits);
    let i = head.len() as int;
    assert(b.subrange(i, i + n) =~= response.body);
}

/// A response in chunks reads back with the bytes of all chunks as its body,
/// whatever other codings are named beside `chunked`.
pub proof fn law_chunked_response_reads_back(
    response: ResponseView,
    parts: Seq<Seq<u8>>,
    after: Seq<u8>,
    end: EndView,
    more: Seq<char>,
    word: Seq<char>,
    others: Seq<char>,
)
    requires
        one_line(response.reason),
        flush(response.reason),
        forall|k: int|
            0 <= k < response.headers.len() ==> plain_header(#[trigger] response.headers[k]),
        response.status >= 200,
        response.status != 204,
        response.status != 304,
        response.header("Transfer-Encoding"@) == Some(more + word + others),
        text::same_letters(word, "chunked"@),
        response.body == joined_bytes(parts),
        forall|k: int| 0 <= k < parts.len() ==> 0 < (#[trigger] parts[k]).len() <= usize::MAX,
        response.final_url == Seq::<char>::empty(),
    ensures
        response_from(
            wire_head(response.status, response.reason, response.headers) + (chunked(parts)
                + after),
            end,
            false,
        ) == Ok::<_, StopView>(response),
{
    let head = wire_head(response.status, response.reason, response.headers);
    let b = head + (chunked(parts) + after);
    lemma_wire_head(
        response.status,
        response.reason,
        response.headers,
        chunked(parts) + after,
        end,
        false,
    );
    reveal_strlit("chunked");
    assert(text::ascii_lower("chunked"@) =~= "chunked"@);
    let coding = more + word + others;
    assert(text::ascii_lower(coding) =~= text::ascii_lower(more) + "chunked"@ + text::ascii_lower(
        others,
    )) by {
        assert(text::ascii_lower(word) =~= "chunked"@);
        assert(text::ascii_lower(coding) =~= text::ascii_lower(more) + text::ascii_lower(word)
            + text::ascii_lower(others));
    }
    text_laws::law_parts(text::ascii_lower(more), "chunked"@, text::ascii_lower(others));
    assert(b =~= head + chunked(parts) + after);
    law_chunked_body_decodes(head, parts, after, end, seq![]);
    assert(Seq::<u8>::empty() + joined_bytes(parts) =~= joined_bytes(parts));
}

/// A response without a length or chunks has everything up to the end of the
/// stream as its body.
pub proof fn law_unsized_response_reads_back(response: ResponseView)
    requires
        one_line(response.reason),
        flush(response.reason),
        forall|k: int|
            0 <= k < response.headers.len() ==> plain_header(#[trigger] response.headers[k]),
        response.status >= 200,
        response.status != 204,
        response.status != 304,
        response.header("Transfer-Encoding"@) is None,
        response.header("Content-Length"@) is None,
        response.final_url == Seq::<char>::empty(),
    ensures
        response_from(
            wire_head(response.status, response.reason, response.headers) + response.body,
            EndView::Closed,
            false,
        ) == Ok::<_, StopView>(response),
{
    let head = wire_head(response.status, response.reason, response.headers);
    lemma_wire_head(
        response.status,
        response.reason,
        response.headers,
        response.body,
        EndView::Closed,
        false,
    );
    assert((head + response.body).skip(head.len() as int) =~= response.body);
}

} // verus!
