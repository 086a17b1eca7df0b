//! What goes over the wire: how responses are framed and what a request says.

use crate::http;
use crate::http::{EndView, FaultKind, NextView, ResponseView, Stage, StopView};
use crate::text;
use crate::text_laws;
use crate::url;
use crate::url::UrlView;
use vstd::prelude::*;
use vstd::utf8::*;

verus! {

// -------------------------------------------------------------- lines ----

/// A line may also end in a bare line feed.
pub proof fn law_line_feed_ends_a_line(
    before: Seq<u8>,
    s: Seq<char>,
    after: Seq<u8>,
    end: EndView,
)
    requires
        http::one_line(s),
    ensures
        http::line_at(
            before + text::ascii_bytes(s + seq!['\n']) + after,
            end,
            before.len() as int,
        ) == Ok::<_, StopView>((s, (before.len() + s.len() + 1) as int)),
        http::line_at(
            before + text::ascii_bytes(s + seq!['\r', '\n']) + after,
            end,
            before.len() as int,
        ) == Ok::<_, StopView>((s, (before.len() + s.len() + 2) as int)),
{
    http::lemma_wire_line(before, s, after, end);
    let line = s + seq!['\n'];
    let b = before + text::ascii_bytes(line) + after;
    let i = before.len() as int;
    let n = s.len() as int;
    let raw = b.subrange(i, i + n + 1);
    assert(raw =~= text::ascii_bytes(line));
    assert forall|k: int| 0 <= k < line.len() implies (#[trigger] line[k] as u32) < 128 by {
        if k < n {
            assert(line[k] == s[k]);
        }
    }
    text::lemma_ascii_bytes(line);
    encode_utf8_valid_utf8(line);
    encode_utf8_decode_utf8(line);
    assert(raw[n] == (line[n] as u32) as u8);
    assert(b[i + n] == 10);
    assert forall|k: int| i <= k < i + n implies b[k] != 10 by {
        assert(b[k] == raw[k - i]);
        let c = line[k - i] as u32;
        assert(raw[k - i] == c as u8);
        assert(line[k - i] == s[k - i]);
        if c == 10 {
            char_u32_cast(line[k - i], c);
        }
    }
    http::lemma_newline_at(b, i, i + n);
    reveal_strlit("\r\n");
    let set = "\r\n"@;
    assert(set[0] == '\r' && set[1] == '\n');
    assert(set.contains('\r') && set.contains('\n'));
    reveal_with_fuel(text::back_set, 3);
    assert(text::back_set(line, set, n + 1) == n) by {
        assert(line[n] == '\n');
        if n > 0 {
            assert(line[n - 1] == s[n - 1]);
            assert(!set.contains(line[n - 1]));
        }
    }
    assert(line.take(n) =~= s);
}

/// A status line is a version, a code and a reason, which may be missing; what
/// does not begin with `HTTP/` or has no number for a code is refused.
pub proof fn law_status_line(version: Seq<char>, status: u16, reason: Seq<char>, other: Seq<char>)
    requires
        !version.contains(' '),
        text_laws::flush(reason),
        !other.contains(' '),
    ensures
        http::status_line(
            "HTTP/"@ + version + seq![' '] + text::decimal(status as nat) + seq![' '] + reason,
        ) == Ok::<(u16, Seq<char>), Seq<char>>((status, reason)),
        http::status_line("HTTP/"@ + version + seq![' '] + text::decimal(status as nat)) == Ok::<
            (u16, Seq<char>),
            Seq<char>,
        >((status, seq![])),
        http::status_line(other) is Err,
        !text::starts(other, "HTTP/"@) ==> http::status_line(other + seq![' '] + reason) is Err,
{
    reveal_strlit("HTTP/");
    reveal_strlit(" ");
    assert(" "@ =~= seq![' ']);
    let v = "HTTP/"@ + version;
    let code = text::decimal(status as nat);
    text::lemma_decimal(status as nat);
    assert(!v.contains(' ')) by {
        if v.contains(' ') {
            let k = choose|k: int| 0 <= k < v.len() && v[k] == ' ';
            if k >= 5 {
                assert(version[k - 5] == ' ');
            }
        }
    }
    assert(!code.contains(' ')) by {
        if code.contains(' ') {
            let k = choose|k: int| 0 <= k < code.len() && code[k] == ' ';
            assert(text::ascii_digit(code[k]));
        }
    }
    assert(text::ascii_digit(code[0]));
    assert(text::starts(v, "HTTP/"@)) by {
        assert(v.take(5) =~= "HTTP/"@);
    }
    let full = code + seq![' '] + reason;
    assert("HTTP/"@ + version + seq![' '] + code + seq![' '] + reason =~= v + seq![' '] + full);
    text::lemma_split_once(v, ' ', full);
    text::lemma_split_once(code, ' ', reason);
    text::lemma_trimmed_plain(reason);
    text::lemma_split_once(v, ' ', code);
    lemma_no_split(code, ' ');
    assert(text::trimmed(Seq::<char>::empty()) =~= Seq::<char>::empty()) by {
        text::lemma_trimmed_plain(Seq::<char>::empty());
    }
    lemma_no_split(other, ' ');
    text::lemma_split_once(other, ' ', reason);
}

proof fn lemma_no_split(s: Seq<char>, c: char)
    requires
        !s.contains(c),
    ensures
        text::split_once_at(s, seq![c]) is None,
{
    assert forall|k: int| 0 <= k implies !#[trigger] text_laws::occurs(s, seq![c], k) by {
        if text_laws::occurs(s, seq![c], k) {
            assert(seq![c][0] == s[k + 0]);
            assert(s.contains(s[k]));
        }
    }
    text_laws::lemma_find_none(s, seq![c], 0);
}

/// A header line is a name and a value around its first colon, with any white
/// space around the value; it adds that pair to the headers.
pub proof fn law_header_line(
    before: Seq<u8>,
    name: Seq<char>,
    a: Seq<char>,
    value: Seq<char>,
    z: Seq<char>,
    after: Seq<u8>,
    end: EndView,
    acc: Seq<(Seq<char>, Seq<char>)>,
)
    requires
        http::one_line(name + seq![':'] + (a + value + z)),
        !name.contains(':'),
        text_laws::flush(name),
        text_laws::flush(value),
        text_laws::white(a),
        text_laws::white(z),
    ensures
        ({
            let line = http::wire_line(name + seq![':'] + (a + value + z));
            let b = before + line + after;
            http::headers_at(b, end, before.len() as int, acc) == http::headers_at(
                b,
                end,
                (before.len() + line.len()) as int,
                acc.push((name, value)),
            )
        }),
{
    let s = name + seq![':'] + (a + value + z);
    http::lemma_wire_line(before, s, after, end);
    reveal_strlit(":");
    assert(":"@ =~= seq![':']);
    text::lemma_split_once(name, ':', a + value + z);
    text::lemma_trimmed_plain(name);
    text_laws::law_trimmed(a, value, z);
}

// ------------------------------------------------------------- bodies ----

/// The answer to a HEAD request, and an answer with a status below 200 or with
/// 204 or 304, has no body, whatever its headers say and whatever follows.
pub proof fn law_bodyless_response(
    response: ResponseView,
    after: Seq<u8>,
    end: EndView,
    head_request: bool,
)
    requires
        http::one_line(response.reason),
        http::flush(response.reason),
        forall|k: int|
            0 <= k < response.headers.len() ==> http::plain_header(#[trigger] response.headers[k]),
        head_request || response.status < 200 || response.status == 204 || response.status == 304,
        response.body == Seq::<u8>::empty(),
        response.final_url == Seq::<char>::empty(),
    ensures
        http::response_from(
            http::wire_head(response.status, response.reason, response.headers) + after,
            end,
            head_request,
        ) == Ok::<_, StopView>(response),
{
    http::lemma_wire_head(
        response.status,
        response.reason,
        response.headers,
        after,
        end,
        head_request,
    );
}

/// A body shorter than its `Content-Length` is never taken for the whole: a
/// stream that is open has to give more, and one that ended is a failure.
pub proof fn law_truncated_response(
    status: u16,
    reason: Seq<char>,
    headers: Seq<(Seq<char>, Seq<char>)>,
    n: nat,
    part: Seq<u8>,
    end: EndView,
)
    requires
        http::one_line(reason),
        http::flush(reason),
        forall|k: int| 0 <= k < headers.len() ==> http::plain_header(#[trigger] headers[k]),
        status >= 200,
        status != 204,
        status != 304,
        http::header_from(headers, "Transfer-Encoding"@, 0) is None,
        http::header_from(headers, "Content-Length"@, 0) == Some(text::decimal(n)),
        part.len() < n <= usize::MAX,
    ensures
        ({
            let r = http::response_from(
                http::wire_head(status, reason, headers) + part,
                end,
                false,
            );
            if end is Open {
                r == Err::<ResponseView, StopView>(StopView::More)
            } else {
                r matches Err(StopView::Error(_))
            }
        }),
{
    http::lemma_wire_head(status, reason, headers, part, end, false);
    let digits = text::decimal(n);
    text::lemma_decimal(n);
    assert(text::ascii_digit(digits[0]));
    assert(text::ascii_digit(digits[digits.len() - 1]));
    text::lemma_trimmed_plain(digits);
}

/// A `Content-Length` that is no number is a failure.
pub proof fn law_invalid_length(
    status: u16,
    reason: Seq<char>,
    headers: Seq<(Seq<char>, Seq<char>)>,
    v: Seq<char>,
    k: int,
    after: Seq<u8>,
    end: EndView,
)
    requires
        http::one_line(reason),
        http::flush(reason),
        forall|k: int| 0 <= k < headers.len() ==> http::plain_header(#[trigger] headers[k]),
        status >= 200,
        status != 204,
        status != 304,
        http::header_from(headers, "Transfer-Encoding"@, 0) is None,
        http::header_from(headers, "Content-Length"@, 0) == Some(v),
        text_laws::flush(v),
        0 <= k < v.len(),
        !('0' <= v[k] <= '9'),
        k > 0 || v[0] != '+',
    ensures
        http::response_from(http::wire_head(status, reason, headers) + after, end, false) matches Err(
            StopView::Error(_),
        ),
{
    http::lemma_wire_head(status, reason, headers, after, end, false);
    text::lemma_trimmed_plain(v);
    text_laws::law_unsigned_decimal(0, usize::MAX as nat, v, k);
}

/// The size of a chunk is its hexadecimal number, whatever extension follows a
/// semicolon, and with white space around the number.
pub proof fn law_chunk_size(n: nat, z: Seq<char>, extension: Seq<char>)
    requires
        n <= usize::MAX,
        forall|k: int| 0 <= k < z.len() ==> #[trigger] z[k] == ' ',
    ensures
        http::chunk_size(text::hexadecimal(n)) == Some(n),
        http::chunk_size(text::hexadecimal(n) + z + seq![';'] + extension) == Some(n),
{
    http::lemma_chunk_size(n);
    let h = text::hexadecimal(n);
    text::lemma_hexadecimal(n);
    reveal_strlit(";");
    let set = ";"@;
    assert(set[0] == ';');
    let s = h + z + seq![';'] + extension;
    let m = (h.len() + z.len()) as int;
    assert forall|k: int| 0 <= k < m implies !set.contains(#[trigger] s[k]) by {
        if k < h.len() {
            assert(s[k] == h[k]);
            assert(text::digit_value(h[k], 16) is Some);
        } else {
            assert(s[k] == z[k - h.len()]);
        }
    }
    assert(s[m] == ';');
    assert(set.contains(s[m]));
    lemma_find_set(s, set, 0, m);
    let first = s.subrange(0, m);
    assert(first =~= Seq::<char>::empty() + h + z);
    assert(text::split_set(s, set, 0)[0] == first);
    assert(text::digit_value(h[0], 16) is Some);
    assert(text::digit_value(h[h.len() - 1], 16) is Some);
    text_laws::law_trimmed(seq![], h, z);
    assert(Seq::<char>::empty() + h + Seq::<char>::empty() =~= h);
    text_laws::law_trimmed(seq![], h, seq![]);
    assert(text::unsigned(h, 16, usize::MAX as nat) == Some(n));
}

proof fn lemma_find_set(s: Seq<char>, set: Seq<char>, i: int, m: int)
    requires
        0 <= i <= m < s.len(),
        forall|k: int| i <= k < m ==> !set.contains(#[trigger] s[k]),
        set.contains(s[m]),
    ensures
        text::find_set(s, set, i) == Some(m),
    decreases m - i,
{
    if i < m {
        lemma_find_set(s, set, i + 1, m);
    }
}

/// Trailers after the last chunk are passed over: the body is complete where
/// the blank line behind them is.
pub proof fn law_trailers_are_passed_over(
    before: Seq<u8>,
    trailers: Seq<(Seq<char>, Seq<char>)>,
    after: Seq<u8>,
    end: EndView,
    acc: Seq<u8>,
)
    requires
        forall|k: int| 0 <= k < trailers.len() ==> http::plain_header(#[trigger] trailers[k]),
    ensures
        http::chunks_at(
            before + http::wire_line(seq!['0']) + http::wire_headers(trailers) + after,
            end,
            before.len() as int,
            acc,
        ) == Ok::<_, StopView>(acc),
{
    let b = before + http::wire_line(seq!['0']) + http::wire_headers(trailers) + after;
    assert(b =~= before + http::wire_line(seq!['0']) + (http::wire_headers(trailers) + after));
    http::lemma_wire_line(before, seq!['0'], http::wire_headers(trailers) + after, end);
    http::lemma_chunk_size(0);
    assert(text::hexadecimal(0) =~= seq!['0']);
    lemma_trailers(before + http::wire_line(seq!['0']), trailers, after, end);
}

proof fn lemma_trailers(
    before: Seq<u8>,
    headers: Seq<(Seq<char>, Seq<char>)>,
    after: Seq<u8>,
    end: EndView,
)
    requires
        forall|k: int| 0 <= k < headers.len() ==> http::plain_header(#[trigger] headers[k]),
    ensures
        http::trailers_at(before + http::wire_headers(headers) + after, end, before.len() as int)
            == Ok::<_, StopView>((before.len() + http::wire_headers(headers).len()) as int),
    decreases headers.len(),
{
    let b = before + http::wire_headers(headers) + after;
    if headers.len() == 0 {
        http::lemma_wire_line(before, seq![], after, end);
    } else {
        let h = headers[0];
        let line = http::header_text(h);
        let rest = headers.drop_first();
        let longer = before + http::wire_line(line);
        assert(http::plain_header(h));
        lemma_header_one_line(h);
        assert(b =~= before + http::wire_line(line) + (http::wire_headers(rest) + after));
        http::lemma_wire_line(before, line, http::wire_headers(rest) + after, end);
        assert forall|k: int| 0 <= k < rest.len() implies http::plain_header(#[trigger] rest[k]) by {
            assert(rest[k] == headers[k + 1]);
        }
        assert(b =~= longer + http::wire_headers(rest) + after);
        lemma_trailers(longer, rest, after, end);
    }
}

proof fn lemma_header_one_line(h: (Seq<char>, Seq<char>))
    requires
        http::plain_header(h),
    ensures
        http::one_line(http::header_text(h)),
{
    let line = http::header_text(h);
    assert forall|k: int| 0 <= k < line.len() implies (#[trigger] line[k] as u32) < 128 && line[k]
        != '\r' && line[k] != '\n' by {
        if k < h.0.len() {
            assert(line[k] == h.0[k]);
        } else if k >= h.0.len() + 2 {
            assert(line[k] == h.1[k - h.0.len() - 2]);
        }
    }
}

// ---------------------------------------------------------- redirects ----

/// Exactly the statuses 301, 302, 303, 307 and 308 are followed, to where the
/// `Location` leads; every other answer is the final one.
pub proof fn law_redirect_statuses(
    response: ResponseView,
    method: Seq<char>,
    current: UrlView,
    body: Seq<u8>,
    hop: nat,
    location: Seq<char>,
)
    requires
        hop < 10,
        response.header("Location"@) == Some(location),
    ensures
        ({
            let r = http::next_step(response, method, current, body, hop, false);
            let s = response.status;
            if s == 301 || s == 302 || s == 303 || s == 307 || s == 308 {
                match url::resolved(current, location) {
                    Ok(u) => r matches NextView::Follow { target, .. } && target == u,
                    Err(e) => r == NextView::Fail(e),
                }
            } else {
                r == NextView::Finish(response)
            }
        }),
        http::next_step(response, method, current, body, hop, true) == NextView::Finish(response),
{
}

/// A 303 turns any request into a GET without a body, a 301 or 302 a POST; any
/// other redirect repeats the request as it was.
pub proof fn law_redirect_request(
    response: ResponseView,
    method: Seq<char>,
    current: UrlView,
    body: Seq<u8>,
    hop: nat,
)
    ensures
        http::next_step(response, method, current, body, hop, false) matches NextView::Follow {
            method: m,
            body: b,
            ..
        } ==> if response.status == 303 || (method == "POST"@ && (response.status == 301
            || response.status == 302)) {
            m == "GET"@ && b == Seq::<u8>::empty()
        } else {
            m == method && b == body
        },
{
}

// ------------------------------------------------------------ request ----

/// A default header, where the user gave none of that name.
spec fn default_of(
    headers: Seq<(Seq<char>, Seq<char>)>,
    name: Seq<char>,
    value: Seq<char>,
) -> Seq<(Seq<char>, Seq<char>)> {
    if http::header_from(headers, name, 0) is Some {
        seq![]
    } else {
        seq![(name, value)]
    }
}

/// All headers of a request, as a server reads them.
spec fn sent_headers(
    method: Seq<char>,
    target: UrlView,
    headers: Seq<(Seq<char>, Seq<char>)>,
    length: nat,
) -> Seq<(Seq<char>, Seq<char>)> {
    default_of(headers, "Host"@, target.host_value()) + default_of(
        headers,
        "User-Agent"@,
        "reqrun/0.1.0"@,
    ) + default_of(headers, "Accept"@, "*/*"@) + (if http::sized(method, length) {
        default_of(headers, "Content-Length"@, text::decimal(length))
    } else {
        seq![]
    }) + headers + default_of(headers, "Connection"@, "close"@)
}

/// The text of header lines.
spec fn lines_of(headers: Seq<(Seq<char>, Seq<char>)>) -> Seq<char>
    decreases headers.len(),
{
    if headers.len() == 0 {
        seq![]
    } else {
        http::header_text(headers[0]) + seq!['\r', '\n'] + lines_of(headers.drop_first())
    }
}

proof fn lemma_lines_add(a: Seq<(Seq<char>, Seq<char>)>, b: Seq<(Seq<char>, Seq<char>)>)
    ensures
        lines_of(a + b) == lines_of(a) + lines_of(b),
    decreases a.len(),
{
    if a.len() == 0 {
        assert(a + b =~= b);
        assert(lines_of(a) + lines_of(b) =~= lines_of(b));
    } else {
        assert((a + b).drop_first() =~= a.drop_first() + b);
        lemma_lines_add(a.drop_first(), b);
        assert(lines_of(a + b) =~= lines_of(a) + lines_of(b));
    }
}

proof fn lemma_one_line_of(h: (Seq<char>, Seq<char>))
    ensures
        lines_of(seq![h]) == h.0 + ": "@ + h.1 + "\r\n"@,
{
    reveal_strlit(": ");
    reveal_strlit("\r\n");
    let one = seq![h];
    assert(one.drop_first() =~= Seq::<(Seq<char>, Seq<char>)>::empty());
    assert(lines_of(one.drop_first()) =~= seq![]);
    assert(lines_of(one) =~= h.0 + ": "@ + h.1 + "\r\n"@);
}

proof fn lemma_default_lines(
    headers: Seq<(Seq<char>, Seq<char>)>,
    name: Seq<char>,
    value: Seq<char>,
)
    ensures
        http::default_line(headers, name, value) == lines_of(default_of(headers, name, value)),
{
    lemma_one_line_of((name, value));
}

proof fn lemma_header_lines(headers: Seq<(Seq<char>, Seq<char>)>, n: nat)
    requires
        n <= headers.len(),
    ensures
        http::header_lines(headers, n) == lines_of(headers.take(n as int)),
    decreases n,
{
    if n == 0 {
        assert(headers.take(0) =~= seq![]);
    } else {
        let m = (n - 1) as nat;
        lemma_header_lines(headers, m);
        let h = headers[n - 1];
        assert(headers.take(n as int) =~= headers.take(m as int) + seq![h]);
        lemma_lines_add(headers.take(m as int), seq![h]);
        lemma_one_line_of(h);
        let before = http::header_lines(headers, m);
        assert(before + h.0 + ": "@ + h.1 + "\r\n"@ =~= before + (h.0 + ": "@ + h.1 + "\r\n"@));
    }
}

proof fn lemma_wire_of_lines(headers: Seq<(Seq<char>, Seq<char>)>)
    ensures
        text::ascii_bytes(lines_of(headers) + seq!['\r', '\n']) == http::wire_headers(headers),
    decreases headers.len(),
{
    let end = seq!['\r', '\n'];
    if headers.len() == 0 {
        assert(lines_of(headers) + end =~= Seq::<char>::empty() + end);
    } else {
        let rest = headers.drop_first();
        lemma_wire_of_lines(rest);
        let line = http::header_text(headers[0]) + end;
        assert(lines_of(headers) + end =~= line + (lines_of(rest) + end));
        assert(text::ascii_bytes(line + (lines_of(rest) + end)) =~= text::ascii_bytes(line)
            + text::ascii_bytes(lines_of(rest) + end));
    }
}

proof fn lemma_lines_ascii(headers: Seq<(Seq<char>, Seq<char>)>)
    requires
        forall|k: int| 0 <= k < headers.len() ==> http::plain_header(#[trigger] headers[k]),
    ensures
        forall|k: int| 0 <= k < lines_of(headers).len() ==> (#[trigger] lines_of(headers)[k] as u32)
            < 128,
    decreases headers.len(),
{
    if headers.len() > 0 {
        let rest = headers.drop_first();
        assert forall|k: int| 0 <= k < rest.len() implies http::plain_header(#[trigger] rest[k]) by {
            assert(rest[k] == headers[k + 1]);
        }
        lemma_lines_ascii(rest);
        assert(http::plain_header(headers[0]));
        lemma_header_one_line(headers[0]);
        let line = http::header_text(headers[0]);
        let all = lines_of(headers);
        assert forall|k: int| 0 <= k < all.len() implies (#[trigger] all[k] as u32) < 128 by {
            let n = line.len() as int;
            if k < n {
                assert(all[k] == line[k]);
            } else if k >= n + 2 {
                assert(all[k] == lines_of(rest)[k - n - 2]);
            }
        }
    }
}

#[verifier::spinoff_prover]
#[verifier::rlimit(60)]
proof fn lemma_head_text(
    method: Seq<char>,
    target: UrlView,
    headers: Seq<(Seq<char>, Seq<char>)>,
    length: nat,
)
    ensures
        http::request_head(method, target, headers, length) == (method + seq![' ']
            + target.path_and_query + seq![' '] + "HTTP/1.1"@ + seq!['\r', '\n']) + (lines_of(
            sent_headers(method, target, headers, length),
        ) + seq!['\r', '\n']),
{
    reveal_strlit(" ");
    reveal_strlit(" HTTP/1.1\r\n");
    reveal_strlit("HTTP/1.1");
    reveal_strlit("\r\n");
    let a = default_of(headers, "Host"@, target.host_value());
    let b = default_of(headers, "User-Agent"@, "reqrun/0.1.0"@);
    let c = default_of(headers, "Accept"@, "*/*"@);
    let d = if http::sized(method, length) {
        default_of(headers, "Content-Length"@, text::decimal(length))
    } else {
        seq![]
    };
    let e = default_of(headers, "Connection"@, "close"@);
    lemma_default_lines(headers, "Host"@, target.host_value());
    lemma_default_lines(headers, "User-Agent"@, "reqrun/0.1.0"@);
    lemma_default_lines(headers, "Accept"@, "*/*"@);
    lemma_default_lines(headers, "Content-Length"@, text::decimal(length));
    lemma_default_lines(headers, "Connection"@, "close"@);
    lemma_header_lines(headers, headers.len());
    assert(headers.take(headers.len() as int) =~= headers);
    lemma_lines_add(a, b);
    lemma_lines_add(a + b, c);
    lemma_lines_add(a + b + c, d);
    lemma_lines_add(a + b + c + d, headers);
    lemma_lines_add(a + b + c + d + headers, e);
    let first = method + " "@ + target.path_and_query + " HTTP/1.1\r\n"@;
    let (la, lb, lc, ld) = (lines_of(a), lines_of(b), lines_of(c), lines_of(d));
    let (lh, le) = (lines_of(headers), lines_of(e));
    let tail = "\r\n"@;
    assert(http::request_head(method, target, headers, length) == first + la + lb + lc + ld + lh
        + le + tail);
    assert(first + la + lb + lc + ld + lh + le + tail =~= first + ((la + lb + lc + ld + lh + le)
        + tail));
    assert(first =~= method + seq![' '] + target.path_and_query + seq![' '] + "HTTP/1.1"@ + seq![
        '\r',
        '\n',
    ]);
    assert(tail =~= seq!['\r', '\n']);
}

proof fn lemma_plain_literals(length: nat)
    ensures
        http::plain_header(("User-Agent"@, "reqrun/0.1.0"@)),
        http::plain_header(("Accept"@, "*/*"@)),
        http::plain_header(("Content-Length"@, text::decimal(length))),
        http::plain_header(("Connection"@, "close"@)),
        http::one_line("Host"@) && http::flush("Host"@) && !"Host"@.contains(':'),
{
    reveal_strlit("User-Agent");
    reveal_strlit("reqrun/0.1.0");
    reveal_strlit("Accept");
    reveal_strlit("*/*");
    reveal_strlit("Content-Length");
    reveal_strlit("Connection");
    reveal_strlit("close");
    reveal_strlit("Host");
    text::lemma_decimal(length);
    let d = text::decimal(length);
    assert(text::ascii_digit(d[0]) && text::ascii_digit(d[d.len() - 1]));
    assert forall|k: int| 0 <= k < d.len() implies (#[trigger] d[k] as u32) < 128 && d[k] != '\r'
        && d[k] != '\n' by {
        assert(text::ascii_digit(d[k]));
    }
}

/// What a server reads off the wire: a request line with the method and the
/// target, then the headers, a blank line, and the body exactly. The headers
/// are those of the user, in order, and the defaults around them.
pub proof fn law_request_reads_back(
    method: Seq<char>,
    target: UrlView,
    headers: Seq<(Seq<char>, Seq<char>)>,
    body: Seq<u8>,
    end: EndView,
) -> (sent: (Seq<(Seq<char>, Seq<char>)>, Seq<(Seq<char>, Seq<char>)>))
    requires
        http::one_line(method),
        http::one_line(target.path_and_query),
        http::one_line(target.host_value()),
        http::flush(target.host_value()),
        forall|k: int| 0 <= k < headers.len() ==> http::plain_header(#[trigger] headers[k]),
    ensures
        ({
            let wire = encode_utf8(http::request_head(method, target, headers, body.len())) + body;
            let line = method + seq![' '] + target.path_and_query + seq![' '] + "HTTP/1.1"@;
            &&& http::line_at(wire, end, 0) == Ok::<_, StopView>((line, line.len() as int + 2))
            &&& http::headers_at(wire, end, line.len() as int + 2, seq![]) matches Ok((all, n))
                && all == sent.0 + headers + sent.1 && wire.skip(n) == body
        }),
        forall|k: int|
            0 <= k < sent.0.len() ==> http::header_from(headers, (#[trigger] sent.0[k]).0, 0)
                is None,
        forall|k: int|
            0 <= k < sent.1.len() ==> http::header_from(headers, (#[trigger] sent.1[k]).0, 0)
                is None,
        http::header_from(headers, "Host"@, 0) is None ==> sent.0.contains(
            ("Host"@, target.host_value()),
        ),
        http::header_from(headers, "User-Agent"@, 0) is None ==> sent.0.contains(
            ("User-Agent"@, "reqrun/0.1.0"@),
        ),
        http::header_from(headers, "Accept"@, 0) is None ==> sent.0.contains(("Accept"@, "*/*"@)),
        http::header_from(headers, "Content-Length"@, 0) is None && (body.len() > 0 || method
            == "POST"@ || method == "PUT"@ || method == "PATCH"@) ==> sent.0.contains(
            ("Content-Length"@, text::decimal(body.len())),
        ),
        body.len() == 0 && method != "POST"@ && method != "PUT"@ && method != "PATCH"@
            ==> forall|k: int| 0 <= k < sent.0.len() ==> (#[trigger] sent.0[k]).0
            != "Content-Length"@,
        http::header_from(headers, "Connection"@, 0) is None ==> sent.1.contains(
            ("Connection"@, "close"@),
        ),
        sent.0.len() <= 4,
        sent.1.len() <= 1,
{
    let front = defaults(method, target, headers, body.len());
    let e = default_of(headers, "Connection"@, "close"@);
    lemma_defaults(method, target, headers, body.len());
    lemma_wire_request(method, target, headers, body, end);
    assert(sent_headers(method, target, headers, body.len()) =~= front + headers + e);
    if e.len() > 0 {
        assert(e[0] == ("Connection"@, "close"@));
    }
    (front, e)
}

/// The default headers in front of those of the user.
spec fn defaults(
    method: Seq<char>,
    target: UrlView,
    headers: Seq<(Seq<char>, Seq<char>)>,
    length: nat,
) -> Seq<(Seq<char>, Seq<char>)> {
    default_of(headers, "Host"@, target.host_value()) + default_of(
        headers,
        "User-Agent"@,
        "reqrun/0.1.0"@,
    ) + default_of(headers, "Accept"@, "*/*"@) + (if http::sized(method, length) {
        default_of(headers, "Content-Length"@, text::decimal(length))
    } else {
        seq![]
    })
}

proof fn lemma_defaults(
    method: Seq<char>,
    target: UrlView,
    headers: Seq<(Seq<char>, Seq<char>)>,
    length: nat,
)
    ensures
        ({
            let front = defaults(method, target, headers, length);
            &&& front.len() <= 4
            &&& forall|k: int|
                0 <= k < front.len() ==> http::header_from(headers, (#[trigger] front[k]).0, 0)
                    is None
            &&& http::header_from(headers, "Host"@, 0) is None ==> front.contains(
                ("Host"@, target.host_value()),
            )
            &&& http::header_from(headers, "User-Agent"@, 0) is None ==> front.contains(
                ("User-Agent"@, "reqrun/0.1.0"@),
            )
            &&& http::header_from(headers, "Accept"@, 0) is None ==> front.contains(
                ("Accept"@, "*/*"@),
            )
            &&& http::header_from(headers, "Content-Length"@, 0) is None && http::sized(
                method,
                length,
            ) ==> front.contains(("Content-Length"@, text::decimal(length)))
            &&& !http::sized(method, length) ==> forall|k: int|
                0 <= k < front.len() ==> (#[trigger] front[k]).0 != "Content-Length"@
            &&& http::one_line(target.host_value()) && http::flush(target.host_value())
                ==> forall|k: int| 0 <= k < front.len() ==> http::plain_header(#[trigger] front[k])
        }),
{
    let a = default_of(headers, "Host"@, target.host_value());
    let b = default_of(headers, "User-Agent"@, "reqrun/0.1.0"@);
    let c = default_of(headers, "Accept"@, "*/*"@);
    let d = if http::sized(method, length) {
        default_of(headers, "Content-Length"@, text::decimal(length))
    } else {
        seq![]
    };
    let front = a + b + c + d;
    lemma_plain_literals(length);
    lemma_front_members(a, b, c, d);
    reveal_strlit("Host");
    reveal_strlit("User-Agent");
    reveal_strlit("Accept");
    reveal_strlit("Content-Length");
    assert("Host"@.len() == 4 && "User-Agent"@.len() == 10 && "Accept"@.len() == 6
        && "Content-Length"@.len() == 14);
    let plain = http::one_line(target.host_value()) && http::flush(target.host_value());
    assert forall|k: int| 0 <= k < front.len() implies http::header_from(
        headers,
        (#[trigger] front[k]).0,
        0,
    ) is None && (!http::sized(method, length) ==> front[k].0 != "Content-Length"@) && (plain
        ==> http::plain_header(front[k])) by {
        lemma_in_front(a, b, c, d, k);
    }
}

proof fn lemma_wire_request(
    method: Seq<char>,
    target: UrlView,
    headers: Seq<(Seq<char>, Seq<char>)>,
    body: Seq<u8>,
    end: EndView,
)
    requires
        http::one_line(method),
        http::one_line(target.path_and_query),
        http::one_line(target.host_value()),
        http::flush(target.host_value()),
        forall|k: int| 0 <= k < headers.len() ==> http::plain_header(#[trigger] headers[k]),
    ensures
        ({
            let wire = encode_utf8(http::request_head(method, target, headers, body.len())) + body;
            let line = method + seq![' '] + target.path_and_query + seq![' '] + "HTTP/1.1"@;
            &&& http::line_at(wire, end, 0) == Ok::<_, StopView>((line, line.len() as int + 2))
            &&& http::headers_at(wire, end, line.len() as int + 2, seq![]) matches Ok((all, n))
                && all == sent_headers(method, target, headers, body.len()) && wire.skip(n) == body
        }),
{
    let length = body.len();
    let front = defaults(method, target, headers, length);
    let e = default_of(headers, "Connection"@, "close"@);
    let all = sent_headers(method, target, headers, length);
    assert(all =~= front + headers + e);
    lemma_defaults(method, target, headers, length);
    lemma_plain_literals(length);
    assert forall|k: int| 0 <= k < all.len() implies http::plain_header(#[trigger] all[k]) by {
        if k < front.len() {
            assert(all[k] == front[k]);
        } else if k < front.len() + headers.len() {
            assert(all[k] == headers[k - front.len()]);
        } else {
            assert(all[k] == e[k - front.len() - headers.len()]);
        }
    }
    let line = method + seq![' '] + target.path_and_query + seq![' '] + "HTTP/1.1"@;
    lemma_request_line(method, target.path_and_query);
    let crlf = seq!['\r', '\n'];
    let head = http::request_head(method, target, headers, length);
    lemma_head_text(method, target, headers, length);
    lemma_lines_wire(line, all, head);
    let first = http::wire_line(line);
    let wire = encode_utf8(head) + body;
    assert(wire =~= Seq::<u8>::empty() + first + (http::wire_headers(all) + body));
    http::lemma_wire_line(seq![], line, http::wire_headers(all) + body, end);
    assert(wire =~= first + http::wire_headers(all) + body);
    http::lemma_wire_headers(first, all, body, end, seq![]);
    assert(Seq::<(Seq<char>, Seq<char>)>::empty() + all =~= all);
    assert(wire.skip((first.len() + http::wire_headers(all).len()) as int) =~= body);
    assert(first.len() == line.len() + 2);
}

proof fn lemma_request_line(method: Seq<char>, path: Seq<char>)
    requires
        http::one_line(method),
        http::one_line(path),
    ensures
        http::one_line(method + seq![' '] + path + seq![' '] + "HTTP/1.1"@),
{
    reveal_strlit("HTTP/1.1");
    let line = method + seq![' '] + path + seq![' '] + "HTTP/1.1"@;
    let m = method.len() as int;
    let p = path.len() as int;
    assert forall|k: int| 0 <= k < line.len() implies (#[trigger] line[k] as u32) < 128 && line[k]
        != '\r' && line[k] != '\n' by {
        if k < m {
            assert(line[k] == method[k]);
        } else if m + 1 <= k < m + 1 + p {
            assert(line[k] == path[k - m - 1]);
        } else if k >= m + p + 2 {
            assert(line[k] == "HTTP/1.1"@[k - m - p - 2]);
        }
    }
}

/// A head of one line and header lines, on the wire.
proof fn lemma_lines_wire(line: Seq<char>, all: Seq<(Seq<char>, Seq<char>)>, head: Seq<char>)
    requires
        http::one_line(line),
        forall|k: int| 0 <= k < all.len() ==> http::plain_header(#[trigger] all[k]),
        head == (line + seq!['\r', '\n']) + (lines_of(all) + seq!['\r', '\n']),
    ensures
        encode_utf8(head) == http::wire_line(line) + http::wire_headers(all),
{
    let rest = lines_of(all) + seq!['\r', '\n'];
    lemma_lines_ascii(all);
    assert forall|k: int| 0 <= k < head.len() implies (#[trigger] head[k] as u32) < 128 by {
        let n = line.len() as int;
        if k < n {
            assert(head[k] == line[k]);
        } else if k >= n + 2 {
            assert(head[k] == rest[k - n - 2]);
            if k - n - 2 < lines_of(all).len() {
                assert(rest[k - n - 2] == lines_of(all)[k - n - 2]);
            }
        }
    }
    text::lemma_ascii_bytes(head);
    lemma_wire_of_lines(all);
    assert(text::ascii_bytes(head) =~= http::wire_line(line) + text::ascii_bytes(rest));
}

proof fn lemma_in_front<T>(a: Seq<T>, b: Seq<T>, c: Seq<T>, d: Seq<T>, k: int)
    requires
        0 <= k < (a + b + c + d).len(),
    ensures
        ({
            let x = (a + b + c + d)[k];
            ||| exists|i: int| 0 <= i < a.len() && x == #[trigger] a[i]
            ||| exists|i: int| 0 <= i < b.len() && x == #[trigger] b[i]
            ||| exists|i: int| 0 <= i < c.len() && x == #[trigger] c[i]
            ||| exists|i: int| 0 <= i < d.len() && x == #[trigger] d[i]
        }),
{
    let x = (a + b + c + d)[k];
    let (p, q, r) = (a.len() as int, b.len() as int, c.len() as int);
    if k < p {
        assert(x == a[k]);
    } else if k < p + q {
        assert(x == b[k - p]);
    } else if k < p + q + r {
        assert(x == c[k - p - q]);
    } else {
        assert(x == d[k - p - q - r]);
    }
}

proof fn lemma_front_members<T>(a: Seq<T>, b: Seq<T>, c: Seq<T>, d: Seq<T>)
    ensures
        ({
            let s = a + b + c + d;
            &&& a.len() > 0 ==> s.contains(a[0])
            &&& b.len() > 0 ==> s.contains(b[0])
            &&& c.len() > 0 ==> s.contains(c[0])
            &&& d.len() > 0 ==> s.contains(d[0])
        }),
{
    let s = a + b + c + d;
    let (p, q, r) = (a.len() as int, b.len() as int, c.len() as int);
    if a.len() > 0 {
        assert(s[0] == a[0]);
    }
    if b.len() > 0 {
        assert(s[p] == b[0]);
    }
    if c.len() > 0 {
        assert(s[p + q] == c[0]);
    }
    if d.len() > 0 {
        assert(s[p + q + r] == d[0]);
    }
}

// -------------------------------------------------------- content type ----

/// The media type is what stands before the first semicolon, trimmed and in
/// lower case; the charset is the value of the parameter of that name, in
/// lower case and without its quotes. Other parameters do not count, and
/// without the header both are empty.
pub proof fn law_content_type(
    response: ResponseView,
    value: Seq<char>,
    pieces: Seq<Seq<char>>,
    k: int,
    left: Seq<char>,
    key: Seq<char>,
    quotes: nat,
    charset: Seq<char>,
    right: Seq<char>,
)
    requires
        response.header("Content-Type"@) == Some(value),
        pieces.len() > 0,
        value == text_laws::pieces_text(pieces, ';', 0),
        forall|i: int, j: int|
            0 <= i < pieces.len() && 0 <= j < pieces[i].len() ==> #[trigger] pieces[i][j] != ';',
        forall|i: int|
            1 <= i < pieces.len() && i != k ==> !text::starts(
                text::ascii_lower(text::trimmed(#[trigger] pieces[i])),
                "charset="@,
            ),
        1 <= k < pieces.len() ==> {
            &&& text_laws::white(left)
            &&& text_laws::white(right)
            &&& text::same_letters(key, "charset"@)
            &&& charset.len() > 0
            &&& charset[0] != '"'
            &&& charset.last() != '"'
            &&& text_laws::flush(charset)
            &&& pieces[k] == left + (key + seq!['='] + (Seq::new(quotes, |i: int| '"') + charset
                + Seq::new(quotes, |i: int| '"'))) + right
        },
    ensures
        response.content_type().0 == text::ascii_lower(text::trimmed(pieces[0])),
        1 <= k < pieces.len() ==> response.content_type().1 == text::ascii_lower(charset),
        !(1 <= k < pieces.len()) ==> response.content_type().1.len() == 0,
{
    reveal_strlit(";");
    assert(";"@ =~= seq![';']);
    text_laws::law_split(pieces, ';');
    if 1 <= k < pieces.len() {
        lemma_charset_part(pieces[k], left, key, quotes, charset, right);
    }
    lemma_charset(pieces, 1, seq![], k, text::ascii_lower(charset));
}

proof fn lemma_charset_part(
    part: Seq<char>,
    left: Seq<char>,
    key: Seq<char>,
    quotes: nat,
    charset: Seq<char>,
    right: Seq<char>,
)
    requires
        text_laws::white(left),
        text_laws::white(right),
        text::same_letters(key, "charset"@),
        charset.len() > 0,
        charset[0] != '"',
        charset.last() != '"',
        text_laws::flush(charset),
        part == left + (key + seq!['='] + (Seq::new(quotes, |i: int| '"') + charset + Seq::new(
            quotes,
            |i: int| '"',
        ))) + right,
    ensures
        text::after_prefix(text::ascii_lower(text::trimmed(part)), "charset="@) matches Some(c)
            && text::rstrip(text::lstrip(c, "\""@), "\""@) == text::ascii_lower(charset),
{
    reveal_strlit("charset=");
    reveal_strlit("charset");
    reveal_strlit("\"");
    assert("\""@ =~= seq!['"']);
    let q = Seq::new(quotes, |i: int| '"');
    let value = q + charset + q;
    let s = key + seq!['='] + value;
    let word = "charset"@;
    let low = text::ascii_lower(s);
    assert(text::ascii_lower(word) =~= word);
    assert(key.len() == 7) by {
        assert(text::ascii_lower(key).len() == key.len());
    }
    assert(text::ascii_lower(key)[0] == 'c');
    assert(!text::whitespace(key[0]));
    assert(s[0] == key[0]);
    assert(s.last() == if quotes > 0 {
        '"'
    } else {
        charset.last()
    });
    text_laws::law_trimmed(left, s, right);
    assert(low.take(8) =~= "charset="@) by {
        assert forall|i: int| 0 <= i < 7 implies low[i] == "charset="@[i] by {
            assert(low[i] == text::ascii_lower(key)[i]);
            assert(word[i] == "charset="@[i]);
        }
        assert(low[7] == '=');
    }
    let lc = text::ascii_lower(charset);
    assert(low.skip(8) =~= q + lc + q);
    assert(lc[0] != '"' && lc.last() != '"');
    text_laws::law_stripped('"', quotes, lc, quotes);
}

proof fn lemma_charset(
    pieces: Seq<Seq<char>>,
    i: int,
    acc: Seq<char>,
    k: int,
    charset: Seq<char>,
)
    requires
        1 <= i <= pieces.len(),
        forall|j: int|
            1 <= j < pieces.len() && j != k ==> !text::starts(
                text::ascii_lower(text::trimmed(#[trigger] pieces[j])),
                "charset="@,
            ),
        1 <= k < pieces.len() ==> (text::after_prefix(
            text::ascii_lower(text::trimmed(pieces[k])),
            "charset="@,
        ) matches Some(c) && text::rstrip(text::lstrip(c, "\""@), "\""@) == charset),
    ensures
        http::charset_from(pieces, i, acc) == (if i <= k < pieces.len() {
            charset
        } else {
            acc
        }),
    decreases pieces.len() - i,
{
    if i < pieces.len() {
        if i == k {
            lemma_charset(pieces, i + 1, charset, k, charset);
        } else {
            assert(!text::starts(text::ascii_lower(text::trimmed(pieces[i])), "charset="@));
            lemma_charset(pieces, i + 1, acc, k, charset);
        }
    }
}

/// Where a response came from is the URL that was asked last.
pub proof fn law_shown_url(target: UrlView)
    ensures
        target.port == 80 ==> http::shown_url(target) == "http://"@ + target.host
            + target.path_and_query,
        target.port != 80 ==> http::shown_url(target) == "http://"@ + (target.host + seq![':']
            + text::decimal(target.port as nat)) + target.path_and_query,
{
    reveal_strlit(":");
    assert(":"@ =~= seq![':']);
}

/// A timeout says that it is one, however the system calls it; any other
/// failure keeps its detail.
pub proof fn law_failures_tell(what: Seq<char>, detail: Seq<char>)
    ensures
        http::fault_text(what, FaultKind::WouldBlock, detail) == what
            + ": timed out (see --timeout)"@,
        http::fault_text(what, FaultKind::TimedOut, detail) == what + ": timed out (see --timeout)"@,
        http::fault_text(what, FaultKind::Other, detail) == what + ": "@ + detail,
{
}

/// A failure to connect says at which stage it came, and names the address.
pub proof fn law_connection_failures_tell(target: UrlView, detail: Seq<char>)
    ensures
        ({
            let address = target.host + seq![':'] + text::decimal(target.port as nat);
            &&& http::connection_error(Stage::Resolve, target, FaultKind::Other, detail)
                == "cannot resolve "@ + address + ": "@ + detail
            &&& http::connection_error(Stage::Connect, target, FaultKind::Other, detail)
                == "cannot connect to "@ + address + ": "@ + detail
            &&& http::connection_error(Stage::Write, target, FaultKind::Other, detail)
                == "write to "@ + address + ": "@ + detail
            &&& http::connection_error(Stage::Write, target, FaultKind::TimedOut, detail)
                == "write to "@ + address + ": timed out (see --timeout)"@
            &&& http::connection_error(Stage::Read, target, FaultKind::Other, detail)
                == "read from "@ + address + ": "@ + detail
        }),
{
    reveal_strlit(":");
    assert(":"@ =~= seq![':']);
}

} // verus!
