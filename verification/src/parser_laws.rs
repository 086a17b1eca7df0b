//! Whole `.http` files: what is written down is what is read.

use crate::parser;
use crate::parser::{BodyView, FileView, HandlerView, RequestView, Tail};
use crate::text;
use crate::text_laws;
use vstd::prelude::*;

verus! {

// ------------------------------------------------------------- header ----

/// A header name as it may stand in a file: a word without a colon that does
/// not look like a comment or a save directive.
pub open spec fn header_name(name: Seq<char>) -> bool {
    &&& name.len() > 0
    &&& forall|k: int|
        0 <= k < name.len() ==> !text::whitespace(#[trigger] name[k]) && name[k] != ':'
    &&& name[0] != '#'
    &&& !(name[0] == '/' && name.len() > 1 && name[1] == '/')
    &&& !(name[0] == '>' && name.len() > 1 && name[1] == '>')
}

/// A header line is a name, a colon and a value: the value is everything after
/// the first colon, without the white space around it.
pub proof fn law_header_line(name: Seq<char>, a: Seq<char>, value: Seq<char>, z: Seq<char>)
    requires
        header_name(name),
        text_laws::white(a),
        text_laws::flush(value),
        text_laws::white(z),
    ensures
        parser::header_line(name + seq![':'] + (a + value + z)) == Ok::<
            (Seq<char>, Seq<char>),
            Seq<char>,
        >((name, value)),
{
    reveal_strlit(":");
    assert(":"@ =~= seq![':']);
    assert(!name.contains(':'));
    text::lemma_split_once(name, ':', a + value + z);
    text::lemma_trimmed_plain(name);
    text_laws::law_trimmed(a, value, z);
}

/// In a file a header line adds its name and value to the headers, wherever it
/// stands and whatever its value holds, colons included; comments between
/// header lines add nothing.
pub proof fn law_header_rows(
    lines: Seq<Seq<char>>,
    i: int,
    acc: Seq<(Seq<char>, Seq<char>)>,
    name: Seq<char>,
    value: Seq<char>,
)
    requires
        0 <= i < lines.len(),
        header_name(name),
        lines[i] == name + seq![':', ' '] + value,
    ensures
        parser::headers_from(lines, i, acc) == parser::headers_from(
            lines,
            i + 1,
            acc.push((name, text::trimmed(value))),
        ),
        !parser::continues_url(lines[i]),
{
    let (a, z) = text_laws::lemma_around(value);
    let v = text::trimmed(value);
    let pad = seq![' '] + a;
    assert(text_laws::white(pad));
    let row = name + seq![':'] + (pad + v + z);
    assert(lines[i] =~= row);
    let e = Seq::<char>::empty();
    if v.len() > 0 {
        let t = name + seq![':'] + (pad + v);
        assert(row =~= e + t + z);
        assert(t.last() == v.last());
        text_laws::law_trimmed(e, t, z);
        assert(pad + v + e =~= pad + v);
        law_header_line(name, pad, v, e);
        assert(t.take(name.len() as int) =~= name);
        lemma_header_row(t, name);
    } else {
        let t = name + seq![':'];
        assert(row =~= e + t + (pad + z));
        assert(text_laws::white(pad + z)) by {
            assert forall|k: int| 0 <= k < (pad + z).len() implies text::whitespace(
                #[trigger] (pad + z)[k],
            ) by {
                if k < pad.len() {
                    assert((pad + z)[k] == pad[k]);
                } else {
                    assert((pad + z)[k] == z[k - pad.len()]);
                }
            }
        }
        text_laws::law_trimmed(e, t, pad + z);
        assert(t =~= name + seq![':'] + (e + v + e));
        law_header_line(name, e, v, e);
        assert(t.take(name.len() as int) =~= name);
        lemma_header_row(t, name);
    }
    reveal_strlit(" ");
    reveal_strlit("\t");
    if text::starts(row, " "@) {
        assert(row.take(1)[0] == ' ');
        assert(row[0] == name[0]);
    }
    if text::starts(row, "\t"@) {
        assert(row.take(1)[0] == '\t');
        assert(row[0] == name[0]);
    }
}

/// Text that begins with a header name and a colon is neither a comment nor
/// the end of the headers.
proof fn lemma_header_row(t: Seq<char>, name: Seq<char>)
    requires
        header_name(name),
        t.len() > name.len(),
        t.take(name.len() as int) == name,
        t[name.len() as int] == ':',
    ensures
        !parser::comment(t),
        !parser::ends_headers(t),
{
    reveal_strlit("#");
    reveal_strlit("//");
    reveal_strlit("###");
    reveal_strlit("> {%");
    reveal_strlit(">>");
    assert(t[0] == t.take(name.len() as int)[0]);
    assert(name.len() > 1 ==> t[1] == t.take(name.len() as int)[1]);
    assert(t[1] == ':' || t[1] == name[1]);
    if text::starts(t, "#"@) {
        assert(t.take(1)[0] == '#');
    }
    if text::starts(t, "//"@) {
        assert(t.take(2)[0] == '/' && t.take(2)[1] == '/');
    }
    if text::starts(t, "###"@) {
        assert(t.take(3)[0] == '#');
    }
    if text::starts(t, "> {%"@) {
        assert(t.take(4)[1] == ' ');
        assert(name.len() > 1 ==> !text::whitespace(name[1]));
    }
    if text::starts(t, ">>"@) {
        assert(t.take(2)[0] == '>' && t.take(2)[1] == '>');
    }
}

// --------------------------------------------------------------- text ----

/// Each row on a line of its own.
pub open spec fn written(rows: Seq<Seq<char>>) -> Seq<char>
    decreases rows.len(),
{
    if rows.len() == 0 {
        seq![]
    } else {
        rows[0] + seq!['\n'] + written(rows.drop_first())
    }
}

/// Text that fits on one line.
pub open spec fn one_row(s: Seq<char>) -> bool {
    &&& forall|k: int| 0 <= k < s.len() ==> #[trigger] s[k] != '\n'
    &&& s.len() > 0 ==> s.last() != '\r'
}

/// The lines of a text are the rows that were written.
pub proof fn law_lines_of_rows(rows: Seq<Seq<char>>)
    requires
        forall|k: int| 0 <= k < rows.len() ==> one_row(#[trigger] rows[k]),
    ensures
        text::lines(written(rows), 0) == rows,
    decreases rows.len(),
{
    if rows.len() == 0 {
        assert(text::lines(written(rows), 0) =~= rows);
    } else {
        let rest = rows.drop_first();
        assert(one_row(rows[0]));
        assert forall|k: int| 0 <= k < rest.len() implies one_row(#[trigger] rest[k]) by {
            assert(rest[k] == rows[k + 1]);
        }
        law_lines_of_rows(rest);
        parser::lemma_first_line(rows[0], written(rest));
        assert(text::without_cr(rows[0]) == rows[0]);
        assert(seq![rows[0]] + rest =~= rows);
    }
}

// -------------------------------------------------------------- drafts ----

/// The body of a request as it is written.
pub enum DraftBody {
    Lines(Seq<Seq<char>>),
    File { path: Seq<char>, substitute: bool },
}

/// A request as it is written.
pub struct Draft {
    pub name: Option<Seq<char>>,
    pub no_redirect: bool,
    pub method: Seq<char>,
    pub url: Seq<char>,
    pub headers: Seq<(Seq<char>, Seq<char>)>,
    pub body: Option<DraftBody>,
    pub script: Option<Seq<Seq<char>>>,
    pub save: Option<(Seq<char>, bool)>,
}

/// A line of an inline body: it is not taken for a directive.
pub open spec fn body_line(s: Seq<char>, first: bool) -> bool {
    let t = text::trimmed(s);
    &&& one_row(s)
    &&& !text::starts(t, "###"@)
    &&& !text::starts(t, "> {%"@)
    &&& !text::starts(t, "> "@)
    &&& !text::starts(t, ">>"@)
    &&& !text::starts(t, "<>"@)
    &&& first ==> !text::starts(t, "<"@)
}

/// A file name that can be written down.
pub open spec fn path_text(p: Seq<char>) -> bool {
    p.len() > 0 && one_row(p) && text_laws::flush(p) && p[0] != '!'
}

/// A draft that can be written down and read back.
pub open spec fn plain(d: Draft) -> bool {
    &&& d.name matches Some(n) ==> n.len() > 0 && one_row(n) && text_laws::flush(n)
    &&& verb(d.method)
    &&& parser::single_word(d.url)
    &&& forall|k: int|
        0 <= k < d.headers.len() ==> header_name((#[trigger] d.headers[k]).0) && one_row(
            d.headers[k].1,
        ) && text_laws::flush(d.headers[k].1)
    &&& d.body matches Some(DraftBody::Lines(ls)) ==> {
        &&& ls.len() > 0
        &&& text::trimmed(ls.last()).len() > 0
        &&& forall|k: int| 0 <= k < ls.len() ==> body_line(#[trigger] ls[k], k == 0)
    }
    &&& d.body matches Some(DraftBody::File { path, substitute }) ==> path_text(path) && path[0]
        != '@' && path[0] != '>'
    &&& d.script matches Some(ls) ==> forall|k: int|
        0 <= k < ls.len() ==> one_row(#[trigger] ls[k]) && !text::ends(text::rtrim(ls[k]), "%}"@)
    &&& d.save matches Some((path, _)) ==> path_text(path)
}

pub open spec fn title_row(name: Option<Seq<char>>) -> Seq<char> {
    match name {
        None => seq!['#', '#', '#'],
        Some(n) => seq!['#', '#', '#', ' '] + n,
    }
}

pub open spec fn redirect_rows(no_redirect: bool) -> Seq<Seq<char>> {
    if no_redirect {
        seq!["# @no-redirect"@]
    } else {
        seq![]
    }
}

pub open spec fn header_rows(headers: Seq<(Seq<char>, Seq<char>)>) -> Seq<Seq<char>> {
    Seq::new(headers.len(), |i: int| headers[i].0 + seq![':', ' '] + headers[i].1)
}

pub open spec fn body_rows(body: Option<DraftBody>) -> Seq<Seq<char>> {
    match body {
        None => seq![],
        Some(DraftBody::Lines(ls)) => ls,
        Some(DraftBody::File { path, substitute }) => if substitute {
            seq![seq!['<', '@', ' '] + path]
        } else {
            seq![seq!['<', ' '] + path]
        },
    }
}

pub open spec fn script_rows(script: Option<Seq<Seq<char>>>) -> Seq<Seq<char>> {
    match script {
        None => seq![],
        Some(ls) => seq![seq!['>', ' ', '{', '%']] + ls + seq![seq!['%', '}']],
    }
}

pub open spec fn save_rows(save: Option<(Seq<char>, bool)>) -> Seq<Seq<char>> {
    match save {
        None => seq![],
        Some((path, force)) => if force {
            seq![seq!['>', '>', '!', ' '] + path]
        } else {
            seq![seq!['>', '>', ' '] + path]
        },
    }
}

/// The rows of a request after its headers, without the blank line.
pub open spec fn tail_rows(d: Draft) -> Seq<Seq<char>> {
    body_rows(d.body) + script_rows(d.script) + save_rows(d.save)
}

/// The rows before the request line.
pub open spec fn head_rows(d: Draft) -> Seq<Seq<char>> {
    seq![title_row(d.name)] + redirect_rows(d.no_redirect)
}

/// A request, row by row: the separator with the title, the directive, the
/// request line, the headers, a blank line, the body, the handler and where
/// the response is saved.
#[verifier::opaque]
pub open spec fn block(d: Draft) -> Seq<Seq<char>> {
    head_rows(d) + seq![d.method + seq![' '] + d.url] + header_rows(d.headers) + seq![
        Seq::<char>::empty(),
    ] + tail_rows(d)
}

/// What a draft stands for, where its separator is row `i`, counted from zero.
pub open spec fn meant(d: Draft, i: int) -> RequestView {
    let first = i + 1 + if d.no_redirect {
        1int
    } else {
        0
    };
    RequestView {
        name: d.name,
        line: first + 1,
        method: d.method,
        url: d.url,
        headers: d.headers,
        body: match d.body {
            None => None,
            Some(DraftBody::Lines(ls)) => Some(BodyView::Inline(text::joined(ls, seq!['\n']))),
            Some(DraftBody::File { path, substitute }) => Some(
                BodyView::FromFile { path, substitute },
            ),
        },
        handler: match d.script {
            None => None,
            Some(ls) => Some(
                HandlerView {
                    script: text::joined(seq![Seq::<char>::empty()] + ls, seq!['\n']),
                    line: first + 1 + d.headers.len() + 2 + match d.body {
                        None => 0int,
                        Some(DraftBody::Lines(ls)) => ls.len() as int,
                        Some(DraftBody::File { .. }) => 1,
                    },
                },
            ),
        },
        no_redirect: d.no_redirect,
        save_response: d.save,
    }
}

/// Rows stand at a place.
spec fn stand(lines: Seq<Seq<char>>, i: int, rows: Seq<Seq<char>>) -> bool {
    &&& 0 <= i
    &&& i + rows.len() <= lines.len()
    &&& forall|k: int| 0 <= k < rows.len() ==> #[trigger] lines[i + k] == rows[k]
}

proof fn lemma_stand_parts(
    lines: Seq<Seq<char>>,
    i: int,
    a: Seq<Seq<char>>,
    b: Seq<Seq<char>>,
)
    requires
        stand(lines, i, a + b),
    ensures
        stand(lines, i, a),
        stand(lines, i + a.len(), b),
{
    assert forall|k: int| 0 <= k < a.len() implies #[trigger] lines[i + k] == a[k] by {
        assert((a + b)[k] == a[k]);
    }
    assert forall|k: int| 0 <= k < b.len() implies #[trigger] lines[i + a.len() + k] == b[k] by {
        assert((a + b)[a.len() + k] == b[k]);
        assert(lines[i + (a.len() + k)] == b[k]);
    }
}

proof fn lemma_one(lines: Seq<Seq<char>>, i: int, row: Seq<char>)
    requires
        stand(lines, i, seq![row]),
    ensures
        0 <= i < lines.len(),
        lines[i] == row,
{
    assert(lines[i + 0] == seq![row][0]);
}

/// A text that begins with given characters.
proof fn lemma_prefix(t: Seq<char>, p: Seq<char>, c: char, k: int)
    requires
        0 <= k < p.len(),
        p[k] == c,
        t.len() <= k || t[k] != c,
    ensures
        !text::starts(t, p),
{
    if text::starts(t, p) {
        assert(t.take(p.len() as int)[k] == t[k]);
    }
}

proof fn lemma_after(p: Seq<char>, rest: Seq<char>)
    ensures
        text::after_prefix(p + rest, p) == Some(rest),
        text::starts(p + rest, p),
{
    assert((p + rest).take(p.len() as int) =~= p);
    assert((p + rest).skip(p.len() as int) =~= rest);
}

/// The separator row names the request.
proof fn lemma_title(
    lines: Seq<Seq<char>>,
    i: int,
    acc: FileView,
    d: Draft,
)
    requires
        plain(d),
        0 <= i < lines.len(),
        lines[i] == title_row(d.name),
    ensures
        parser::file_from(lines, i, acc, None, false) == parser::file_from(
            lines,
            i + 1,
            acc,
            d.name,
            false,
        ),
        text::starts(text::trimmed(lines[i]), "###"@),
{
    reveal_strlit("###");
    let p = "###"@;
    assert(p =~= seq!['#', '#', '#']);
    match d.name {
        None => {
            let row = title_row(d.name);
            text::lemma_trimmed_plain(row);
            assert(row =~= p + Seq::<char>::empty());
            lemma_after(p, Seq::<char>::empty());
            text::lemma_trimmed_plain(Seq::<char>::empty());
        },
        Some(n) => {
            let row = title_row(d.name);
            assert(row.last() == n.last());
            text::lemma_trimmed_plain(row);
            assert(row =~= p + (seq![' '] + n));
            lemma_after(p, seq![' '] + n);
            text::lemma_trimmed_after_space(n);
        },
    }
}

/// The directive row.
proof fn lemma_directive(
    lines: Seq<Seq<char>>,
    i: int,
    acc: FileView,
    name: Option<Seq<char>>,
)
    requires
        0 <= i < lines.len(),
        lines[i] == "# @no-redirect"@,
    ensures
        parser::file_from(lines, i, acc, name, false) == parser::file_from(
            lines,
            i + 1,
            acc,
            name,
            true,
        ),
{
    reveal_strlit("# @no-redirect");
    reveal_strlit("@no-redirect");
    reveal_strlit("###");
    reveal_strlit("#");
    reveal_strlit("#/");
    reveal_strlit("@name");
    let row = "# @no-redirect"@;
    text::lemma_trimmed_plain(row);
    lemma_prefix(row, "###"@, '#', 1);
    assert(text::starts(row, "#"@)) by {
        assert(row.take(1) =~= "#"@);
    }
    let set = "#/"@;
    assert(set[0] == '#' && set[1] == '/');
    assert(set.contains('#'));
    assert(!set.contains(' '));
    reveal_with_fuel(text::skip_set, 3);
    assert(row[0] == '#' && row[1] == ' ');
    assert(text::skip_set(row, set, 0) == 1);
    let bare = text::lstrip(row, set);
    assert(bare =~= row.skip(1));
    assert(bare[0] == ' ' && bare[1] == '@');
    reveal_with_fuel(text::skip_white, 3);
    assert(text::skip_white(bare, 0) == 1);
    let body = text::ltrim(bare);
    assert(body =~= "@no-redirect"@);
    lemma_prefix(body, "@name"@, 'a', 2);
    text::lemma_trimmed_plain(body);
}

proof fn lemma_method(m: Seq<char>)
    requires
        parser::method(m),
    ensures
        parser::single_word(m),
        'A' <= m[0] <= 'Z',
        text::ascii_upper(m) == m,
{
    reveal_strlit("GET");
    reveal_strlit("POST");
    reveal_strlit("PUT");
    reveal_strlit("DELETE");
    reveal_strlit("PATCH");
    reveal_strlit("HEAD");
    reveal_strlit("OPTIONS");
    reveal_strlit("TRACE");
    reveal_strlit("CONNECT");
    assert(forall|k: int| 0 <= k < m.len() ==> 'A' <= #[trigger] m[k] <= 'Z');
    assert(text::ascii_upper(m) =~= m);
}

/// The request methods.
pub open spec fn verb(m: Seq<char>) -> bool {
    m == "GET"@ || m == "POST"@ || m == "PUT"@ || m == "DELETE"@ || m == "PATCH"@ || m == "HEAD"@
        || m == "OPTIONS"@ || m == "TRACE"@ || m == "CONNECT"@
}

/// A request line names one of the methods, in any case of letters, and a URL;
/// another first word is refused unless it is a URL itself, and so is anything
/// but a protocol version behind the URL.
pub proof fn law_request_line(head: Seq<char>, url: Seq<char>, extra: Seq<char>)
    requires
        parser::single_word(head),
        parser::single_word(url),
        parser::single_word(extra),
    ensures
        verb(text::ascii_upper(head)) ==> parser::request_line(head + seq![' '] + url) == Ok::<
            (Seq<char>, Seq<char>),
            Seq<char>,
        >((text::ascii_upper(head), url)),
        verb(text::ascii_upper(head)) ==> parser::request_line(head) is Err,
        !verb(text::ascii_upper(head)) && !text::contains(head, "://"@) && !text::starts(
            head,
            "{{"@,
        ) ==> parser::request_line(head + seq![' '] + url) is Err && parser::request_line(head)
            is Err,
        !verb(text::ascii_upper(head)) && (text::contains(head, "://"@) || text::starts(
            head,
            "{{"@,
        )) ==> parser::request_line(head) == Ok::<(Seq<char>, Seq<char>), Seq<char>>(
            ("GET"@, head),
        ),
        verb(text::ascii_upper(head)) && !text::starts(text::ascii_upper(extra), "HTTP/"@)
            ==> parser::request_line(head + seq![' '] + url + seq![' '] + extra) is Err,
{
    reveal_strlit("HTTP/1.1");
    reveal_strlit("HTTP/");
    let version = "HTTP/1.1"@;
    assert(text::ascii_upper(version) =~= version);
    assert(version.take(5) =~= "HTTP/"@);
    let none = Seq::<char>::empty();
    let space = seq![' '];
    let short = head + space + url;
    if verb(text::ascii_upper(head)) {
        parser::law_version_token_is_ignored(head, url, version);
    } else if text::contains(head, "://"@) || text::starts(head, "{{"@) {
        parser::law_bare_url_means_get(head, version);
    }
    assert(head =~= none + head + none);
    parser::lemma_word_between(none, head, none, 0);
    assert(text::word(head, head.len() as int) is None);
    assert(short =~= none + head + (space + url));
    parser::lemma_word_between(none, head, space + url, 0);
    let long = short + space + extra;
    assert(long =~= none + head + (space + url + space + extra));
    parser::lemma_word_between(none, head, space + url + space + extra, 0);
    assert(long =~= (head + space) + url + (space + extra));
    parser::lemma_word_between(head + space, url, space + extra, head.len() as int);
    assert(long =~= (short + space) + extra + none);
    parser::lemma_word_between(short + space, extra, none, short.len() as int);
}

proof fn lemma_headers(
    lines: Seq<Seq<char>>,
    i: int,
    headers: Seq<(Seq<char>, Seq<char>)>,
    n: int,
    acc: Seq<(Seq<char>, Seq<char>)>,
)
    requires
        stand(lines, i, header_rows(headers)),
        forall|k: int|
            0 <= k < headers.len() ==> header_name((#[trigger] headers[k]).0) && text_laws::flush(
                headers[k].1,
            ),
        0 <= n <= headers.len(),
        acc == headers.take(n),
    ensures
        parser::headers_from(lines, i + n, acc) == parser::headers_from(
            lines,
            i + headers.len(),
            headers,
        ),
    decreases headers.len() - n,
{
    if n < headers.len() {
        let h = headers[n];
        assert(header_rows(headers)[n] == lines[i + n]);
        assert(header_name(headers[n].0));
        law_header_rows(lines, i + n, acc, h.0, h.1);
        text::lemma_trimmed_plain(h.1);
        assert(acc.push(h) =~= headers.take(n + 1));
        lemma_headers(lines, i, headers, n + 1, headers.take(n + 1));
        assert(h == (h.0, h.1));
    } else {
        assert(headers.take(n) =~= headers);
    }
}

// ---------------------------------------------------------------- tail ----

proof fn lemma_body_lines(
    lines: Seq<Seq<char>>,
    i: int,
    ls: Seq<Seq<char>>,
    n: int,
)
    requires
        stand(lines, i, ls),
        forall|k: int| 0 <= k < ls.len() ==> body_line(#[trigger] ls[k], k == 0),
        0 <= n <= ls.len(),
    ensures
        parser::tail_from(lines, i + n, Tail { lines: ls.take(n), ..parser::empty_tail() })
            == parser::tail_from(
            lines,
            i + ls.len(),
            Tail { lines: ls, ..parser::empty_tail() },
        ),
    decreases ls.len() - n,
{
    if n < ls.len() {
        assert(lines[i + n] == ls[n]);
        assert(body_line(ls[n], n == 0));
        let t = text::trimmed(ls[n]);
        reveal_strlit(">>!");
        reveal_strlit(">>");
        reveal_strlit("<@");
        reveal_strlit("<");
        if text::starts(t, ">>!"@) {
            assert(t.take(2) =~= t.take(3).take(2));
            assert(">>!"@.take(2) =~= ">>"@);
        }
        if text::starts(t, "<@"@) {
            assert(t.take(1) =~= t.take(2).take(1));
            assert("<@"@.take(1) =~= "<"@);
        }
        assert(ls.take(n).push(ls[n]) =~= ls.take(n + 1));
        lemma_body_lines(lines, i, ls, n + 1);
    } else {
        assert(ls.take(n) =~= ls);
    }
}

proof fn lemma_body_file(lines: Seq<Seq<char>>, i: int, path: Seq<char>, substitute: bool)
    requires
        stand(lines, i, body_rows(Some(DraftBody::File { path, substitute }))),
        path_text(path),
        path[0] != '@',
        path[0] != '>',
    ensures
        parser::tail_from(lines, i, parser::empty_tail()) == parser::tail_from(
            lines,
            i + 1,
            Tail {
                from_file: Some(BodyView::FromFile { path, substitute }),
                ..parser::empty_tail()
            },
        ),
{
    reveal_strlit("###");
    reveal_strlit("> {%");
    reveal_strlit("> ");
    reveal_strlit(">>!");
    reveal_strlit(">>");
    reveal_strlit("<>");
    reveal_strlit("<@");
    reveal_strlit("<");
    let row = if substitute {
        seq!['<', '@', ' '] + path
    } else {
        seq!['<', ' '] + path
    };
    lemma_one(lines, i, row);
    assert(row.last() == path.last());
    text::lemma_trimmed_plain(row);
    lemma_prefix(row, "###"@, '#', 0);
    lemma_prefix(row, "> {%"@, '>', 0);
    lemma_prefix(row, "> "@, '>', 0);
    lemma_prefix(row, ">>!"@, '>', 0);
    lemma_prefix(row, ">>"@, '>', 0);
    lemma_prefix(row, "<>"@, '>', 1);
    text::lemma_trimmed_after_space(path);
    if substitute {
        assert(row =~= "<@"@ + (seq![' '] + path));
        lemma_after("<@"@, seq![' '] + path);
    } else {
        lemma_prefix(row, "<@"@, '@', 1);
        assert(row =~= "<"@ + (seq![' '] + path));
        lemma_after("<"@, seq![' '] + path);
    }
}

proof fn lemma_script_lines(
    lines: Seq<Seq<char>>,
    start: int,
    i: int,
    ls: Seq<Seq<char>>,
    n: int,
)
    requires
        stand(lines, i, ls + seq![seq!['%', '}']]),
        forall|k: int|
            0 <= k < ls.len() ==> one_row(#[trigger] ls[k]) && !text::ends(
                text::rtrim(ls[k]),
                "%}"@,
            ),
        0 <= n <= ls.len(),
    ensures
        parser::handler_from(
            lines,
            start,
            i + n,
            seq![Seq::<char>::empty()] + ls.take(n),
        ) == Ok::<(Seq<char>, int), parser::ErrorView>(
            (text::joined(seq![Seq::<char>::empty()] + ls, "\n"@), i + ls.len() + 1),
        ),
    decreases ls.len() - n,
{
    let all = ls + seq![seq!['%', '}']];
    assert(lines[i + n] == all[n]);
    reveal_strlit("%}");
    let mark = "%}"@;
    assert(mark =~= seq!['%', '}']);
    let row = lines[i + n];
    let t = text::rtrim(row);
    if n < ls.len() {
        assert(one_row(ls[n]));
        lemma_rtrim_twice(row);
        if text::trimmed(t) == mark {
            lemma_trim_ends(t, mark);
            assert(text::rtrim(t) == t);
        }
        assert((seq![Seq::<char>::empty()] + ls.take(n)).push(ls[n]) =~= seq![
            Seq::<char>::empty(),
        ] + ls.take(n + 1));
        lemma_script_lines(lines, start, i, ls, n + 1);
    } else {
        assert(row == mark);
        assert(text::back_white(mark, 2) == 2);
        assert(mark.take(2) =~= mark);
        assert(t == mark);
        text::lemma_trimmed_plain(mark);
        assert(ls.take(n) =~= ls);
    }
}

proof fn lemma_rtrim_twice(s: Seq<char>)
    ensures
        text::rtrim(text::rtrim(s)) == text::rtrim(s),
{
    text::lemma_trim_bounds(s);
    let t = text::rtrim(s);
    assert(t.len() > 0 ==> t.last() == s[t.len() - 1]);
    assert(text::back_white(t, t.len() as int) == t.len());
    assert(t.take(t.len() as int) =~= t);
}

/// Where trimming a text without white space at its end gives a mark, the text
/// ends with it.
proof fn lemma_trim_ends(t: Seq<char>, mark: Seq<char>)
    requires
        text::trimmed(t) == mark,
        text::rtrim(t) == t,
        mark.len() > 0,
    ensures
        text::ends(t, mark),
{
    text::lemma_trim_bounds(t);
    let u = text::ltrim(t);
    text::lemma_trim_bounds(u);
    let n = text::back_white(t, t.len() as int);
    assert(t.take(n).len() == n);
    assert(n == t.len());
    if t.len() > 0 {
        assert(!text::whitespace(t.last()));
    }
    if u.len() > 0 {
        assert(u.last() == t.last());
    }
    assert(text::back_white(u, u.len() as int) == u.len());
    assert(u.take(u.len() as int) =~= u);
    assert(u == mark);
    assert(t.skip(t.len() - mark.len()) =~= u);
}

proof fn lemma_script(lines: Seq<Seq<char>>, i: int, ls: Seq<Seq<char>>, st: Tail)
    requires
        stand(lines, i, script_rows(Some(ls))),
        forall|k: int|
            0 <= k < ls.len() ==> one_row(#[trigger] ls[k]) && !text::ends(
                text::rtrim(ls[k]),
                "%}"@,
            ),
    ensures
        parser::tail_from(lines, i, st) == parser::tail_from(
            lines,
            i + ls.len() + 2,
            Tail {
                handler: Some(
                    HandlerView {
                        script: text::joined(seq![Seq::<char>::empty()] + ls, "\n"@),
                        line: i + 1,
                    },
                ),
                ..st
            },
        ),
{
    reveal_strlit("###");
    reveal_strlit("> {%");
    reveal_strlit("%}");
    let open_row = seq!['>', ' ', '{', '%'];
    let rest = ls + seq![seq!['%', '}']];
    assert(script_rows(Some(ls)) =~= seq![open_row] + rest);
    lemma_stand_parts(lines, i, seq![open_row], rest);
    lemma_one(lines, i, open_row);
    text::lemma_trimmed_plain(open_row);
    lemma_prefix(open_row, "###"@, '#', 0);
    let none = Seq::<char>::empty();
    assert("> {%"@ =~= open_row);
    assert(open_row =~= open_row + none);
    lemma_after(open_row, none);
    assert(text::rtrim(none) =~= none);
    assert(!text::ends(none, "%}"@));
    assert(text::ltrim(none) =~= none);
    assert(seq![none] + ls.take(0) =~= seq![none]);
    lemma_script_lines(lines, i, i + 1, ls, 0);
}

proof fn lemma_save(lines: Seq<Seq<char>>, i: int, path: Seq<char>, force: bool, st: Tail)
    requires
        stand(lines, i, save_rows(Some((path, force)))),
        path_text(path),
    ensures
        parser::tail_from(lines, i, st) == parser::tail_from(
            lines,
            i + 1,
            Tail { save: Some((path, force)), ..st },
        ),
{
    reveal_strlit("###");
    reveal_strlit("> {%");
    reveal_strlit("> ");
    reveal_strlit(">>!");
    reveal_strlit(">>");
    let row = if force {
        seq!['>', '>', '!', ' '] + path
    } else {
        seq!['>', '>', ' '] + path
    };
    lemma_one(lines, i, row);
    assert(row.last() == path.last());
    text::lemma_trimmed_plain(row);
    lemma_prefix(row, "###"@, '#', 0);
    lemma_prefix(row, "> {%"@, ' ', 1);
    lemma_prefix(row, "> "@, ' ', 1);
    text::lemma_trimmed_after_space(path);
    if force {
        assert(row =~= ">>!"@ + (seq![' '] + path));
        lemma_after(">>!"@, seq![' '] + path);
    } else {
        lemma_prefix(row, ">>!"@, '!', 2);
        assert(row =~= ">>"@ + (seq![' '] + path));
        lemma_after(">>"@, seq![' '] + path);
    }
}

/// The part after the headers.
proof fn lemma_tail(lines: Seq<Seq<char>>, i: int, d: Draft)
    requires
        plain(d),
        stand(lines, i, tail_rows(d)),
        i + tail_rows(d).len() == lines.len() || text::starts(
            text::trimmed(lines[i + tail_rows(d).len()]),
            "###"@,
        ),
    ensures
        ({
            let end = (i + tail_rows(d).len()) as int;
            parser::tail_from(lines, i, parser::empty_tail()) matches Ok((st, next)) && next == end
                && parser::tail_body(st) == meant(d, 0).body && st.save == d.save && st.handler == (
            match d.script {
                None => None::<HandlerView>,
                Some(ls) => Some(
                    HandlerView {
                        script: text::joined(seq![Seq::<char>::empty()] + ls, seq!['\n']),
                        line: i + body_rows(d.body).len() + 1,
                    },
                ),
            })
        }),
{
    let (a, b, c) = (body_rows(d.body), script_rows(d.script), save_rows(d.save));
    reveal_strlit("\n");
    assert("\n"@ =~= seq!['\n']);
    assert(a + b + c =~= a + (b + c));
    lemma_stand_parts(lines, i, a, b + c);
    let j = i + a.len();
    lemma_stand_parts(lines, j, b, c);
    let k = j + b.len();
    let e = parser::empty_tail();
    let one = match d.body {
        None => e,
        Some(DraftBody::Lines(ls)) => Tail { lines: ls, ..e },
        Some(DraftBody::File { path, substitute }) => Tail {
            from_file: Some(BodyView::FromFile { path, substitute }),
            ..e
        },
    };
    match d.body {
        None => {},
        Some(DraftBody::Lines(ls)) => {
            assert(ls.take(0) =~= seq![]);
            assert(Tail { lines: ls.take(0), ..e } == e);
            lemma_body_lines(lines, i, ls, 0);
        },
        Some(DraftBody::File { path, substitute }) => {
            lemma_body_file(lines, i, path, substitute);
        },
    }
    assert(parser::tail_from(lines, i, e) == parser::tail_from(lines, j, one));
    let two = match d.script {
        None => one,
        Some(ls) => Tail {
            handler: Some(
                HandlerView {
                    script: text::joined(seq![Seq::<char>::empty()] + ls, "\n"@),
                    line: j + 1,
                },
            ),
            ..one
        },
    };
    if let Some(ls) = d.script {
        lemma_script(lines, j, ls, one);
    }
    assert(parser::tail_from(lines, j, one) == parser::tail_from(lines, k, two));
    let three = Tail { save: d.save, ..two };
    if let Some((path, force)) = d.save {
        lemma_save(lines, k, path, force, two);
    }
    let end = i + tail_rows(d).len();
    assert(end == k + c.len());
    assert(parser::tail_from(lines, k, two) == parser::tail_from(lines, end, three));
    if let Some(DraftBody::Lines(ls)) = d.body {
        assert(parser::without_blank_end(ls) == ls);
    }
}

// --------------------------------------------------------------- files ----

/// A blank line ends the headers and does not continue the URL.
proof fn lemma_blank_row()
    ensures
        text::trimmed(Seq::<char>::empty()) == Seq::<char>::empty(),
        !parser::continues_url(Seq::<char>::empty()),
{
    text::lemma_trimmed_plain(Seq::<char>::empty());
    reveal_strlit(" ");
    reveal_strlit("\t");
}

/// The request of a draft, from its request line on.
proof fn lemma_request(lines: Seq<Seq<char>>, i: int, d: Draft, no_redirect: bool)
    requires
        plain(d),
        ({
            let rows = seq![d.method + seq![' '] + d.url] + header_rows(d.headers) + seq![
                Seq::<char>::empty(),
            ] + tail_rows(d);
            &&& stand(lines, i, rows)
            &&& i + rows.len() == lines.len() || text::starts(
                text::trimmed(lines[i + rows.len()]),
                "###"@,
            )
        }),
    ensures
        ({
            let first = i - 1 - if d.no_redirect {
                1int
            } else {
                0
            };
            parser::request_at(lines, i, d.name, no_redirect) == Ok::<
                (RequestView, int),
                parser::ErrorView,
            >(
                (
                    RequestView { no_redirect, ..meant(d, first) },
                    i + 2 + d.headers.len() + tail_rows(d).len(),
                ),
            )
        }),
        text::trimmed(lines[i]) == d.method + seq![' '] + d.url,
{
    let row = d.method + seq![' '] + d.url;
    let heads = header_rows(d.headers);
    let blank = seq![Seq::<char>::empty()];
    let tail = tail_rows(d);
    assert(seq![row] + heads + blank + tail =~= seq![row] + (heads + (blank + tail)));
    lemma_stand_parts(lines, i, seq![row], heads + (blank + tail));
    lemma_one(lines, i, row);
    lemma_stand_parts(lines, i + 1, heads, blank + tail);
    let j = i + 1 + heads.len();
    lemma_stand_parts(lines, j, blank, tail);
    lemma_one(lines, j, Seq::<char>::empty());
    lemma_method(d.method);
    assert(row[0] == d.method[0]);
    assert(row.last() == d.url.last());
    assert(!text::whitespace(d.url.last()));
    text::lemma_trimmed_plain(row);
    reveal_strlit("HTTP/1.1");
    reveal_strlit("HTTP/");
    let version = "HTTP/1.1"@;
    assert(text::ascii_upper(version) =~= version);
    assert(version.take(5) =~= "HTTP/"@);
    parser::law_version_token_is_ignored(d.method, d.url, version);
    lemma_blank_row();
    if d.headers.len() > 0 {
        let h = d.headers[0];
        assert(heads[0] == lines[i + 1 + 0]);
        assert(header_name(d.headers[0].0));
        law_header_rows(lines, i + 1, seq![], h.0, h.1);
    }
    assert(parser::full_url(lines, i + 1, d.url) == (d.url, i + 1));
    assert(d.headers.take(0) =~= seq![]);
    lemma_headers(lines, i + 1, d.headers, 0, seq![]);
    assert(parser::headers_from(lines, i + 1, seq![]) == Ok::<
        (Seq<(Seq<char>, Seq<char>)>, int),
        parser::ErrorView,
    >((d.headers, j)));
    lemma_tail(lines, j + 1, d);
}

/// A whole block adds its request.
proof fn lemma_block(lines: Seq<Seq<char>>, i: int, d: Draft, acc: FileView)
    requires
        plain(d),
        stand(lines, i, block(d)),
        i + block(d).len() == lines.len() || text::starts(
            text::trimmed(lines[i + block(d).len()]),
            "###"@,
        ),
    ensures
        parser::file_from(lines, i, acc, None, false) == parser::file_from(
            lines,
            i + block(d).len(),
            FileView { requests: acc.requests.push(meant(d, i)), ..acc },
            None,
            false,
        ),
        text::starts(text::trimmed(lines[i]), "###"@),
{
    let heads = head_rows(d);
    let rest = seq![d.method + seq![' '] + d.url] + header_rows(d.headers) + seq![
        Seq::<char>::empty(),
    ] + tail_rows(d);
    assert(block(d) =~= heads + rest) by {
        reveal(block);
    }
    lemma_stand_parts(lines, i, heads, rest);
    lemma_stand_parts(lines, i, seq![title_row(d.name)], redirect_rows(d.no_redirect));
    lemma_one(lines, i, title_row(d.name));
    lemma_title(lines, i, acc, d);
    let k = i + heads.len();
    if d.no_redirect {
        lemma_one(lines, i + 1, "# @no-redirect"@);
        lemma_directive(lines, i + 1, acc, d.name);
    }
    assert(parser::file_from(lines, i, acc, None, false) == parser::file_from(
        lines,
        k,
        acc,
        d.name,
        d.no_redirect,
    ));
    lemma_request_row(lines, k, d, acc);
}

/// The request line and what follows it add the request.
proof fn lemma_request_row(lines: Seq<Seq<char>>, k: int, d: Draft, acc: FileView)
    requires
        plain(d),
        ({
            let rows = seq![d.method + seq![' '] + d.url] + header_rows(d.headers) + seq![
                Seq::<char>::empty(),
            ] + tail_rows(d);
            &&& stand(lines, k, rows)
            &&& k + rows.len() == lines.len() || text::starts(
                text::trimmed(lines[k + rows.len()]),
                "###"@,
            )
        }),
    ensures
        parser::file_from(lines, k, acc, d.name, d.no_redirect) == parser::file_from(
            lines,
            k + 2 + d.headers.len() + tail_rows(d).len(),
            FileView {
                requests: acc.requests.push(
                    meant(
                        d,
                        k - 1 - if d.no_redirect {
                            1int
                        } else {
                            0
                        },
                    ),
                ),
                ..acc
            },
            None,
            false,
        ),
{
    lemma_request(lines, k, d, d.no_redirect);
    parser::lemma_request_progress(lines, k, d.name, d.no_redirect);
    let row = d.method + seq![' '] + d.url;
    lemma_method(d.method);
    assert(row[0] == d.method[0]);
    reveal_strlit("###");
    reveal_strlit("#");
    reveal_strlit("//");
    reveal_strlit("@");
    lemma_prefix(row, "###"@, '#', 0);
    lemma_prefix(row, "#"@, '#', 0);
    lemma_prefix(row, "//"@, '/', 0);
    lemma_prefix(row, "@"@, '@', 0);
}

/// All blocks, one after the other.
pub open spec fn blocks(ds: Seq<Draft>) -> Seq<Seq<char>>
    decreases ds.len(),
{
    if ds.len() == 0 {
        seq![]
    } else {
        block(ds[0]) + blocks(ds.drop_first())
    }
}

/// What the drafts stand for, where the first separator is row `i`.
pub open spec fn all_meant(ds: Seq<Draft>, i: int) -> Seq<RequestView>
    decreases ds.len(),
{
    if ds.len() == 0 {
        seq![]
    } else {
        seq![meant(ds[0], i)] + all_meant(ds.drop_first(), i + block(ds[0]).len())
    }
}

proof fn lemma_blocks(lines: Seq<Seq<char>>, i: int, ds: Seq<Draft>, acc: FileView)
    requires
        forall|k: int| 0 <= k < ds.len() ==> plain(#[trigger] ds[k]),
        stand(lines, i, blocks(ds)),
        i + blocks(ds).len() == lines.len(),
    ensures
        parser::file_from(lines, i, acc, None, false) == Ok::<FileView, parser::ErrorView>(
            FileView { requests: acc.requests + all_meant(ds, i), ..acc },
        ),
        ds.len() > 0 ==> text::starts(text::trimmed(lines[i]), "###"@),
    decreases ds.len(),
{
    if ds.len() == 0 {
        assert(acc.requests + all_meant(ds, i) =~= acc.requests);
    } else {
        let rest = ds.drop_first();
        assert(plain(ds[0]));
        lemma_stand_parts(lines, i, block(ds[0]), blocks(rest));
        let j = i + block(ds[0]).len();
        assert forall|k: int| 0 <= k < rest.len() implies plain(#[trigger] rest[k]) by {
            assert(rest[k] == ds[k + 1]);
        }
        let more = FileView { requests: acc.requests.push(meant(ds[0], i)), ..acc };
        lemma_blocks(lines, j, rest, more);
        if rest.len() == 0 {
            assert(blocks(rest).len() == 0);
        }
        lemma_block(lines, i, ds[0], acc);
        assert(more.requests + all_meant(rest, j) =~= acc.requests + all_meant(ds, i));
    }
}

/// A file variable as it is written.
pub open spec fn variable_row(v: (Seq<char>, Seq<char>)) -> Seq<char> {
    seq!['@'] + v.0 + seq![' ', '=', ' '] + v.1
}

/// A file variable that can be written down and read back.
pub open spec fn plain_variable(v: (Seq<char>, Seq<char>)) -> bool {
    &&& v.0.len() > 0
    &&& forall|k: int|
        0 <= k < v.0.len() ==> {
            let c = #[trigger] v.0[k];
            'a' <= c <= 'z' || 'A' <= c <= 'Z' || '0' <= c <= '9' || c == '_' || c == '-' || c
                == '.' || c == '$'
        }
    &&& v.1.len() > 0
    &&& one_row(v.1)
    &&& text_laws::flush(v.1)
}

/// A file variable is a name and a value around the first equals sign.
pub proof fn law_file_variable(
    a: Seq<char>,
    v: (Seq<char>, Seq<char>),
    b: Seq<char>,
    c: Seq<char>,
    z: Seq<char>,
)
    requires
        plain_variable(v),
        forall|k: int| 0 <= k < a.len() ==> #[trigger] a[k] == ' ',
        forall|k: int| 0 <= k < b.len() ==> #[trigger] b[k] == ' ',
        text_laws::white(c),
        text_laws::white(z),
    ensures
        parser::file_variable(a + v.0 + b + seq!['='] + (c + v.1 + z)) == Ok::<
            (Seq<char>, Seq<char>),
            Seq<char>,
        >(v),
{
    reveal_strlit("=");
    assert("="@ =~= seq!['=']);
    let left = a + v.0 + b;
    assert(!left.contains('=')) by {
        if left.contains('=') {
            let k = choose|k: int| 0 <= k < left.len() && left[k] == '=';
            if k < a.len() {
                assert(left[k] == a[k]);
            } else if k < a.len() + v.0.len() {
                assert(left[k] == v.0[k - a.len()]);
            } else {
                assert(left[k] == b[k - a.len() - v.0.len()]);
            }
        }
    }
    text::lemma_split_once(left, '=', c + v.1 + z);
    assert(text_laws::white(a) && text_laws::white(b));
    let last = v.0[v.0.len() - 1];
    assert(text_laws::flush(v.0)) by {
        assert(!text::whitespace(v.0[0]));
        assert(!text::whitespace(last));
    }
    text_laws::law_trimmed(a, v.0, b);
    text_laws::law_trimmed(c, v.1, z);
    assert(parser::ident(v.0)) by {
        assert forall|k: int| 0 <= k < v.0.len() implies parser::ident_char(#[trigger] v.0[k]) by {}
    }
}

proof fn lemma_variables(
    lines: Seq<Seq<char>>,
    variables: Seq<(Seq<char>, Seq<char>)>,
    n: int,
    acc: FileView,
)
    requires
        forall|k: int| 0 <= k < variables.len() ==> plain_variable(#[trigger] variables[k]),
        variables.len() <= lines.len(),
        forall|k: int|
            0 <= k < variables.len() ==> #[trigger] lines[k] == variable_row(variables[k]),
        0 <= n <= variables.len(),
        acc == (FileView { variables: variables.take(n), requests: seq![] }),
    ensures
        parser::file_from(lines, n, acc, None, false) == parser::file_from(
            lines,
            variables.len() as int,
            FileView { variables, requests: seq![] },
            None,
            false,
        ),
    decreases variables.len() - n,
{
    if n < variables.len() {
        let v = variables[n];
        assert(plain_variable(variables[n]));
        let row = variable_row(v);
        assert(lines[n] == row);
        assert(row[0] == '@');
        assert(row.last() == v.1.last());
        text::lemma_trimmed_plain(row);
        reveal_strlit("###");
        reveal_strlit("#");
        reveal_strlit("//");
        reveal_strlit("@");
        lemma_prefix(row, "###"@, '#', 0);
        lemma_prefix(row, "#"@, '#', 0);
        lemma_prefix(row, "//"@, '/', 0);
        let none = Seq::<char>::empty();
        let sp = seq![' '];
        let rest = none + v.0 + sp + seq!['='] + (sp + v.1 + none);
        assert(row =~= "@"@ + rest);
        lemma_after("@"@, rest);
        assert(text_laws::white(sp));
        law_file_variable(none, v, sp, sp, none);
        assert(variables.take(n).push(v) =~= variables.take(n + 1));
        lemma_variables(
            lines,
            variables,
            n + 1,
            FileView { variables: variables.take(n + 1), requests: seq![] },
        );
    } else {
        assert(variables.take(n) =~= variables);
    }
}

/// The rows of a file: its variables, then its requests.
pub open spec fn file_rows(
    variables: Seq<(Seq<char>, Seq<char>)>,
    ds: Seq<Draft>,
) -> Seq<Seq<char>> {
    Seq::new(variables.len(), |k: int| variable_row(variables[k])) + blocks(ds)
}

/// A file that is written down parses to what was written: the variables, and
/// every request with its name, line, method, URL, headers, body, handler,
/// redirect directive and the place where its response is saved.
pub proof fn law_written_file_parses_back(
    variables: Seq<(Seq<char>, Seq<char>)>,
    ds: Seq<Draft>,
)
    requires
        forall|k: int| 0 <= k < variables.len() ==> plain_variable(#[trigger] variables[k]),
        forall|k: int| 0 <= k < ds.len() ==> plain(#[trigger] ds[k]),
    ensures
        parser::parsed(written(file_rows(variables, ds))) == Ok::<FileView, parser::ErrorView>(
            FileView { variables, requests: all_meant(ds, variables.len() as int) },
        ),
{
    let rows = file_rows(variables, ds);
    let heads = Seq::new(variables.len(), |k: int| variable_row(variables[k]));
    assert forall|k: int| 0 <= k < rows.len() implies one_row(#[trigger] rows[k]) by {
        if k < heads.len() {
            assert(rows[k] == heads[k]);
            assert(plain_variable(variables[k]));
            lemma_variable_row(variables[k]);
        } else {
            lemma_blocks_rows(ds, k - heads.len());
            assert(rows[k] == blocks(ds)[k - heads.len()]);
        }
    }
    law_lines_of_rows(rows);
    let none = FileView { variables: seq![], requests: seq![] };
    assert(variables.take(0) =~= seq![]);
    assert forall|k: int| 0 <= k < variables.len() implies #[trigger] rows[k] == variable_row(
        variables[k],
    ) by {
        assert(rows[k] == heads[k]);
    }
    lemma_variables(rows, variables, 0, none);
    let n = variables.len() as int;
    assert(stand(rows, n, blocks(ds))) by {
        assert forall|k: int| 0 <= k < blocks(ds).len() implies #[trigger] rows[n + k] == blocks(
            ds,
        )[k] by {}
    }
    let acc = FileView { variables, requests: seq![] };
    lemma_blocks(rows, n, ds, acc);
    assert(Seq::<RequestView>::empty() + all_meant(ds, n) =~= all_meant(ds, n));
}

proof fn lemma_variable_row(v: (Seq<char>, Seq<char>))
    requires
        plain_variable(v),
    ensures
        one_row(variable_row(v)),
{
    let row = variable_row(v);
    assert forall|k: int| 0 <= k < row.len() implies #[trigger] row[k] != '\n' by {
        if 1 <= k < 1 + v.0.len() {
            assert(row[k] == v.0[k - 1]);
        } else if k >= 4 + v.0.len() {
            assert(row[k] == v.1[k - 4 - v.0.len()]);
        }
    }
    assert(row.last() == v.1.last());
}

/// Text after characters of its own line.
proof fn lemma_one_row_add(a: Seq<char>, b: Seq<char>)
    requires
        forall|k: int| 0 <= k < a.len() ==> #[trigger] a[k] != '\n' && a[k] != '\r',
        one_row(b),
    ensures
        one_row(a + b),
{
    let s = a + b;
    assert forall|k: int| 0 <= k < s.len() implies #[trigger] s[k] != '\n' by {
        if k < a.len() {
            assert(s[k] == a[k]);
        } else {
            assert(s[k] == b[k - a.len()]);
        }
    }
    if b.len() > 0 {
        assert(s.last() == b.last());
    } else if a.len() > 0 {
        assert(s.last() == a.last());
    }
}

proof fn lemma_block_rows(d: Draft, k: int)
    requires
        plain(d),
        0 <= k < block(d).len(),
    ensures
        one_row(block(d)[k]),
{
    reveal(block);
    let (a, b) = (head_rows(d), seq![d.method + seq![' '] + d.url]);
    let (c, e) = (header_rows(d.headers), seq![Seq::<char>::empty()]);
    let t = tail_rows(d);
    let row = block(d)[k];
    let (na, nb, nc) = (a.len() as int, a.len() + 1, a.len() + 1 + c.len());
    reveal_strlit("# @no-redirect");
    if k < na {
        assert(row == a[k]);
        if k == 0 {
            if let Some(n) = d.name {
                lemma_one_row_add(seq!['#', '#', '#', ' '], n);
            }
        } else {
            assert(a[k] == redirect_rows(d.no_redirect)[k - 1]);
        }
    } else if k < nb {
        assert(row == b[0]);
        lemma_method(d.method);
        let m = d.method + seq![' '];
        assert forall|i: int| 0 <= i < m.len() implies #[trigger] m[i] != '\n' && m[i] != '\r' by {
            if i < d.method.len() {
                assert(m[i] == d.method[i]);
                assert(!text::whitespace(d.method[i]));
            }
        }
        assert(one_row(d.url)) by {
            assert forall|i: int| 0 <= i < d.url.len() implies #[trigger] d.url[i] != '\n' by {
                assert(!text::whitespace(d.url[i]));
            }
            assert(!text::whitespace(d.url.last()));
        }
        lemma_one_row_add(m, d.url);
    } else if k < nc {
        assert(row == c[k - nb]);
        let h = d.headers[k - nb];
        assert(header_name(d.headers[k - nb].0));
        let m = h.0 + seq![':', ' '];
        assert forall|i: int| 0 <= i < m.len() implies #[trigger] m[i] != '\n' && m[i] != '\r' by {
            if i < h.0.len() {
                assert(m[i] == h.0[i]);
                assert(!text::whitespace(h.0[i]));
            }
        }
        lemma_one_row_add(m, h.1);
    } else if k == nc {
        assert(row == e[0]);
    } else {
        assert(row == t[k - nc - 1]);
        lemma_tail_row(d, k - nc - 1);
    }
}

proof fn lemma_tail_row(d: Draft, k: int)
    requires
        plain(d),
        0 <= k < tail_rows(d).len(),
    ensures
        one_row(tail_rows(d)[k]),
{
    let (a, b, c) = (body_rows(d.body), script_rows(d.script), save_rows(d.save));
    let row = tail_rows(d)[k];
    if k < a.len() {
        assert(row == a[k]);
        match d.body {
            None => {},
            Some(DraftBody::Lines(ls)) => {
                assert(body_line(ls[k], k == 0));
            },
            Some(DraftBody::File { path, substitute }) => {
                lemma_one_row_add(seq!['<', '@', ' '], path);
                lemma_one_row_add(seq!['<', ' '], path);
            },
        }
    } else if k < a.len() + b.len() {
        assert(row == b[k - a.len()]);
        if let Some(ls) = d.script {
            let i = k - a.len();
            if 0 < i <= ls.len() {
                assert(b[i] == ls[i - 1]);
                assert(one_row(ls[i - 1]));
            }
        }
    } else {
        assert(row == c[k - a.len() - b.len()]);
        if let Some((path, force)) = d.save {
            lemma_one_row_add(seq!['>', '>', '!', ' '], path);
            lemma_one_row_add(seq!['>', '>', ' '], path);
        }
    }
}

proof fn lemma_blocks_rows(ds: Seq<Draft>, k: int)
    requires
        forall|k: int| 0 <= k < ds.len() ==> plain(#[trigger] ds[k]),
        0 <= k < blocks(ds).len(),
    ensures
        one_row(blocks(ds)[k]),
    decreases ds.len(),
{
    let rest = ds.drop_first();
    assert(plain(ds[0]));
    if k < block(ds[0]).len() {
        assert(blocks(ds)[k] == block(ds[0])[k]);
        lemma_block_rows(ds[0], k);
    } else {
        assert forall|k: int| 0 <= k < rest.len() implies plain(#[trigger] rest[k]) by {
            assert(rest[k] == ds[k + 1]);
        }
        assert(blocks(ds)[k] == blocks(rest)[k - block(ds[0]).len()]);
        lemma_blocks_rows(rest, k - block(ds[0]).len());
    }
}

// ---------------------------------------------------------- directives ----

/// A blank line between requests changes nothing.
pub proof fn law_blank_rows(
    lines: Seq<Seq<char>>,
    i: int,
    acc: FileView,
    name: Option<Seq<char>>,
    no_redirect: bool,
)
    requires
        0 <= i < lines.len(),
        text_laws::white(lines[i]),
    ensures
        parser::file_from(lines, i, acc, name, no_redirect) == parser::file_from(
            lines,
            i + 1,
            acc,
            name,
            no_redirect,
        ),
{
    let e = Seq::<char>::empty();
    assert(lines[i] =~= lines[i] + e + e);
    text_laws::law_trimmed(lines[i], e, e);
}

/// A comment: one or two marks, then text.
pub open spec fn comment_row(slashes: bool, body: Seq<char>) -> Seq<char> {
    if slashes {
        seq!['/', '/', ' '] + body
    } else {
        seq!['#', ' '] + body
    }
}

proof fn lemma_comment(slashes: bool, body: Seq<char>)
    requires
        body.len() > 0,
        text_laws::flush(body),
        body[0] != '#',
        body[0] != '/',
    ensures
        ({
            let row = comment_row(slashes, body);
            &&& text::trimmed(row) == row
            &&& parser::comment(row)
            &&& !text::starts(row, "###"@)
            &&& parser::comment_body(row) == body
        }),
{
    let row = comment_row(slashes, body);
    assert(row.last() == body.last());
    text::lemma_trimmed_plain(row);
    reveal_strlit("###");
    reveal_strlit("#");
    reveal_strlit("//");
    reveal_strlit("#/");
    lemma_prefix(row, "###"@, '#', 1);
    let set = "#/"@;
    assert(set[0] == '#' && set[1] == '/');
    assert(set.contains('#') && set.contains('/'));
    assert(!set.contains(' '));
    reveal_with_fuel(text::skip_set, 4);
    if slashes {
        assert(row.take(2) =~= "//"@);
        assert(row[0] == '/' && row[1] == '/' && row[2] == ' ');
        assert(text::skip_set(row, set, 0) == 2);
    } else {
        assert(row.take(1) =~= "#"@);
        assert(row[0] == '#' && row[1] == ' ');
        assert(text::skip_set(row, set, 0) == 1);
    }
    let bare = text::lstrip(row, set);
    assert(bare =~= seq![' '] + body);
    assert(bare[1] == body[0]);
    reveal_with_fuel(text::skip_white, 3);
    assert(text::skip_white(bare, 0) == 1);
    assert(text::ltrim(bare) =~= body);
}

/// A comment that is no directive changes nothing.
pub proof fn law_comments_change_nothing(
    lines: Seq<Seq<char>>,
    i: int,
    acc: FileView,
    name: Option<Seq<char>>,
    no_redirect: bool,
    slashes: bool,
    body: Seq<char>,
)
    requires
        0 <= i < lines.len(),
        lines[i] == comment_row(slashes, body),
        body.len() > 0,
        text_laws::flush(body),
        body[0] != '#',
        body[0] != '/',
        body[0] != '@',
    ensures
        parser::file_from(lines, i, acc, name, no_redirect) == parser::file_from(
            lines,
            i + 1,
            acc,
            name,
            no_redirect,
        ),
{
    lemma_comment(slashes, body);
    reveal_strlit("@name");
    reveal_strlit("@no-redirect");
    lemma_prefix(body, "@name"@, '@', 0);
    text::lemma_trimmed_plain(body);
    assert("@no-redirect"@[0] == '@');
}

/// `@name` in a comment names the next request, and `@no-redirect` keeps it
/// from following redirects.
pub proof fn law_directives(
    lines: Seq<Seq<char>>,
    i: int,
    acc: FileView,
    name: Option<Seq<char>>,
    no_redirect: bool,
    slashes: bool,
    given: Seq<char>,
)
    requires
        0 <= i < lines.len(),
        given.len() > 0,
        text_laws::flush(given),
        given[0] != '=',
    ensures
        lines[i] == comment_row(slashes, seq!['@', 'n', 'a', 'm', 'e', ' '] + given)
            ==> parser::file_from(lines, i, acc, name, no_redirect) == parser::file_from(
            lines,
            i + 1,
            acc,
            Some(given),
            no_redirect,
        ),
        lines[i] == comment_row(slashes, "@no-redirect"@) ==> parser::file_from(
            lines,
            i,
            acc,
            name,
            no_redirect,
        ) == parser::file_from(lines, i + 1, acc, name, true),
{
    let body = seq!['@', 'n', 'a', 'm', 'e', ' '] + given;
    assert(body.last() == given.last());
    lemma_comment(slashes, body);
    reveal_strlit("@name");
    reveal_strlit("@no-redirect");
    reveal_strlit(" =");
    assert(body =~= "@name"@ + (seq![' '] + given));
    lemma_after("@name"@, seq![' '] + given);
    let rest = seq![' '] + given;
    let set = " ="@;
    assert(set[0] == ' ' && set[1] == '=');
    assert(set.contains(' '));
    assert(!set.contains(given[0])) by {
        assert(!text::whitespace(given[0]));
    }
    reveal_with_fuel(text::skip_set, 3);
    assert(rest[1] == given[0]);
    assert(text::skip_set(rest, set, 0) == 1);
    assert(text::lstrip(rest, set) =~= given);
    text::lemma_trimmed_plain(given);
    let other = "@no-redirect"@;
    lemma_comment(slashes, other);
    lemma_prefix(other, "@name"@, 'a', 2);
    text::lemma_trimmed_plain(other);
}

/// An indented line that begins with `?` or `&` goes on with the URL.
pub proof fn law_url_goes_on(
    lines: Seq<Seq<char>>,
    i: int,
    url: Seq<char>,
    a: Seq<char>,
    more: Seq<char>,
    z: Seq<char>,
)
    requires
        0 <= i < lines.len(),
        lines[i] == a + more + z,
        text_laws::white(a),
        a.len() > 0,
        a[0] == ' ' || a[0] == '\t',
        text_laws::white(z),
        text_laws::flush(more),
        more.len() > 0,
        more[0] == '?' || more[0] == '&',
    ensures
        parser::full_url(lines, i, url) == parser::full_url(lines, i + 1, url + more),
{
    text_laws::law_trimmed(a, more, z);
    reveal_strlit(" ");
    reveal_strlit("\t");
    reveal_strlit("?");
    reveal_strlit("&");
    let row = lines[i];
    assert(row[0] == a[0]);
    assert(row.take(1) =~= " "@ || row.take(1) =~= "\t"@);
    assert(more.take(1) =~= "?"@ || more.take(1) =~= "&"@);
}

/// What stands before the closing mark of a handler.
proof fn lemma_closing_mark(inner: Seq<char>)
    ensures
        text::before_suffix(text::rtrim(inner + seq!['%', '}']), "%}"@) == Some(inner),
{
    reveal_strlit("%}");
    let rest = inner + seq!['%', '}'];
    assert(rest.last() == '}');
    assert(text::back_white(rest, rest.len() as int) == rest.len());
    assert(rest.take(rest.len() as int) =~= rest);
    assert(rest.skip(inner.len() as int) =~= "%}"@);
    assert(rest.take(inner.len() as int) =~= inner);
}

/// What stands behind the opening mark of a handler.
proof fn lemma_opening_mark(rest: Seq<char>)
    requires
        rest.len() > 0,
        !text::whitespace(rest.last()),
    ensures
        text::after_prefix(text::trimmed(seq!['>', ' ', '{', '%'] + rest), "> {%"@) == Some(rest),
{
    reveal_strlit("> {%");
    let mark = seq!['>', ' ', '{', '%'];
    assert("> {%"@ =~= mark);
    let row = mark + rest;
    assert(row[0] == '>');
    assert(row.last() == rest.last());
    text::lemma_trimmed_plain(row);
    lemma_after(mark, rest);
}

/// A handler on one line is what stands between its marks, without the white
/// space around it.
pub proof fn law_inline_handler(
    lines: Seq<Seq<char>>,
    start: int,
    a: Seq<char>,
    script: Seq<char>,
    z: Seq<char>,
)
    requires
        0 <= start < lines.len(),
        lines[start] == seq!['>', ' ', '{', '%'] + (a + script + z) + seq!['%', '}'],
        text_laws::white(a),
        text_laws::white(z),
        text_laws::flush(script),
    ensures
        parser::handler_at(lines, start) == Ok::<(Seq<char>, int), parser::ErrorView>(
            (script, start + 1),
        ),
{
    let inner = a + script + z;
    let rest = inner + seq!['%', '}'];
    assert(lines[start] =~= seq!['>', ' ', '{', '%'] + rest);
    assert(rest.last() == '}');
    lemma_opening_mark(rest);
    lemma_closing_mark(inner);
    text_laws::law_trimmed(a, script, z);
}

/// What does not begin with a character does not begin with a word that does.
proof fn lemma_starts_otherwise(t: Seq<char>, p: Seq<char>)
    requires
        p.len() > 0,
        t.len() == 0 || t[0] != p[0],
    ensures
        !text::starts(t, p),
{
    if text::starts(t, p) {
        assert(t.take(p.len() as int)[0] == t[0]);
    }
}

/// The lines behind the headers: a separator ends the request; a handler in a
/// file of its own is refused; a line that names an earlier response is passed
/// over; once a handler or a save directive has come, only blank lines may
/// follow; and any other line belongs to the body, as it stands.
pub proof fn law_lines_behind_headers(
    lines: Seq<Seq<char>>,
    i: int,
    st: Tail,
    a: Seq<char>,
    t: Seq<char>,
    z: Seq<char>,
    rest: Seq<char>,
)
    requires
        0 <= i < lines.len(),
        lines[i] == a + t + z,
        text_laws::white(a),
        text_laws::white(z),
        text_laws::flush(t),
        rest.len() > 0,
    ensures
        t == seq!['#', '#', '#'] + rest ==> parser::tail_from(lines, i, st) == Ok::<
            (Tail, int),
            parser::ErrorView,
        >((st, i)),
        t == seq!['>', ' '] + rest && rest[0] != '{' && text_laws::flush(rest)
            ==> parser::tail_from(lines, i, st) == Err::<(Tail, int), parser::ErrorView>(
            parser::ErrorView {
                line: i + 1,
                message: "external response handler '"@ + rest
                    + "' is not supported; inline it as > {% ... %}"@,
            },
        ),
        t == seq!['<', '>'] + rest ==> parser::tail_from(lines, i, st) == parser::tail_from(
            lines,
            i + 1,
            st,
        ),
        t.len() == 0 || (t[0] != '#' && t[0] != '>' && t[0] != '<') ==> ({
            let seen = st.handler is Some || st.save is Some;
            &&& seen && t.len() == 0 ==> parser::tail_from(lines, i, st) == parser::tail_from(
                lines,
                i + 1,
                st,
            )
            &&& seen && t.len() > 0 ==> parser::tail_from(lines, i, st) == Err::<
                (Tail, int),
                parser::ErrorView,
            >(
                parser::ErrorView {
                    line: i + 1,
                    message:
                        "unexpected content after the response handler; start a new request with ###"@,
                },
            )
            &&& !seen ==> parser::tail_from(lines, i, st) == parser::tail_from(
                lines,
                i + 1,
                Tail { lines: st.lines.push(lines[i]), ..st },
            )
        }),
{
    text_laws::law_trimmed(a, t, z);
    reveal_strlit("###");
    reveal_strlit("> {%");
    reveal_strlit("> ");
    reveal_strlit(">>!");
    reveal_strlit(">>");
    reveal_strlit("<>");
    reveal_strlit("<@");
    reveal_strlit("<");
    if t == seq!['#', '#', '#'] + rest {
        assert(t.take(3) =~= "###"@);
    } else if t == seq!['>', ' '] + rest && rest[0] != '{' && text_laws::flush(rest) {
        lemma_starts_otherwise(t, "###"@);
        assert(!text::starts(t, "> {%"@)) by {
            if text::starts(t, "> {%"@) {
                assert(t.take(4)[2] == '{');
                assert(t[2] == rest[0]);
            }
        }
        assert(t.take(2) =~= "> "@);
        assert(t.skip(2) =~= rest);
        let e = Seq::<char>::empty();
        text_laws::law_trimmed(e, rest, e);
        assert(e + rest + e =~= rest);
    } else if t == seq!['<', '>'] + rest {
        lemma_starts_otherwise(t, "###"@);
        lemma_starts_otherwise(t, "> {%"@);
        lemma_starts_otherwise(t, "> "@);
        lemma_starts_otherwise(t, ">>!"@);
        lemma_starts_otherwise(t, ">>"@);
        assert(t.take(2) =~= "<>"@);
    }
    if t.len() == 0 || (t[0] != '#' && t[0] != '>' && t[0] != '<') {
        lemma_starts_otherwise(t, "###"@);
        lemma_starts_otherwise(t, "> {%"@);
        lemma_starts_otherwise(t, "> "@);
        lemma_starts_otherwise(t, ">>!"@);
        lemma_starts_otherwise(t, ">>"@);
        lemma_starts_otherwise(t, "<>"@);
        lemma_starts_otherwise(t, "<@"@);
        lemma_starts_otherwise(t, "<"@);
    }
}

/// A header line without a colon is refused, and so is one whose name is empty
/// or holds white space.
pub proof fn law_refused_header_lines(t: Seq<char>, name: Seq<char>, value: Seq<char>, k: int)
    requires
        forall|j: int| 0 <= j < t.len() ==> #[trigger] t[j] != ':',
        !name.contains(':'),
        text_laws::flush(name),
        name.len() == 0 || (0 <= k < name.len() && text::whitespace(name[k])),
    ensures
        parser::header_line(t) == Err::<(Seq<char>, Seq<char>), Seq<char>>(
            "expected 'Header: value', found '"@ + t + "'"@,
        ),
        parser::header_line(name + seq![':'] + value) == Err::<(Seq<char>, Seq<char>), Seq<char>>(
            "invalid header name '"@ + name + "'"@,
        ),
{
    reveal_strlit(":");
    let colon = ":"@;
    assert(colon =~= seq![':']);
    assert forall|j: int| 0 <= j implies !#[trigger] text_laws::occurs(t, colon, j) by {
        if text_laws::occurs(t, colon, j) {
            assert(colon[0] == t[j + 0]);
        }
    }
    text_laws::lemma_find_none(t, colon, 0);
    text::lemma_split_once(name, ':', value);
    let e = Seq::<char>::empty();
    text_laws::law_trimmed(e, name, e);
    assert(e + name + e =~= name);
}

} // verus!
