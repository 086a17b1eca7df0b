//! Written URLs and redirect targets read back.

use crate::text;
use crate::text_laws;
use crate::url;
use crate::url::UrlView;
use vstd::prelude::*;

verus! {

/// A host as it is written: no colon, slash, question mark or white space, and
/// no bracket at its start.
pub open spec fn plain_host(host: Seq<char>) -> bool {
    &&& host.len() > 0
    &&& host[0] != '['
    &&& forall|k: int|
        0 <= k < host.len() ==> #[trigger] host[k] != ':' && host[k] != '/' && host[k] != '?'
            && !text::whitespace(host[k])
}

/// A target as it is written: nothing, or what begins with a slash or a
/// question mark and does not end with white space.
pub open spec fn plain_target(target: Seq<char>) -> bool {
    target.len() == 0 || ((target[0] == '/' || target[0] == '?') && !text::whitespace(
        target.last(),
    ))
}

/// The port as it is written behind a host.
pub open spec fn port_text(port: Option<u16>) -> Seq<char> {
    match port {
        None => seq![],
        Some(n) => seq![':'] + text::decimal(n as nat),
    }
}

proof fn lemma_scheme(scheme: Seq<char>, rest: Seq<char>)
    requires
        forall|k: int| 0 <= k < scheme.len() ==> #[trigger] scheme[k] != ':',
    ensures
        text::split_once_at(scheme + seq![':', '/', '/'] + rest, "://"@) == Some((scheme, rest)),
{
    reveal_strlit("://");
    let s = scheme + seq![':', '/', '/'] + rest;
    let p = "://"@;
    let n = scheme.len() as int;
    assert(text_laws::occurs(s, p, n)) by {
        assert(p[0] == s[n] && p[1] == s[n + 1] && p[2] == s[n + 2]);
    }
    assert forall|k: int| 0 <= k < n implies !#[trigger] text_laws::occurs(s, p, k) by {
        assert(s[k] == scheme[k]);
        if text_laws::occurs(s, p, k) {
            assert(p[0] == s[k + 0]);
        }
    }
    text_laws::lemma_find_at(s, p, 0, n);
    assert(s.take(n) =~= scheme);
    assert(s.skip(n + 3) =~= rest);
}

proof fn lemma_target(authority: Seq<char>, target: Seq<char>)
    requires
        forall|k: int|
            0 <= k < authority.len() ==> #[trigger] authority[k] != '/' && authority[k] != '?',
        target.len() == 0 || target[0] == '/' || target[0] == '?',
    ensures
        url::split_target(authority + target) == (
            authority,
            if target.len() == 0 {
                seq!['/']
            } else if target[0] == '/' {
                target
            } else {
                seq!['/'] + target
            },
        ),
{
    reveal_strlit("/?");
    reveal_strlit("/");
    let set = "/?"@;
    let s = authority + target;
    let n = authority.len() as int;
    assert("/"@ =~= seq!['/']);
    assert(set[0] == '/' && set[1] == '?');
    assert forall|k: int| 0 <= k < n implies !set.contains(#[trigger] s[k]) by {
        assert(s[k] == authority[k]);
    }
    if target.len() == 0 {
        assert(s =~= authority);
        text::lemma_find_set_none(s, set, 0);
    } else {
        assert(s[n] == target[0]);
        assert(set.contains(s[n]));
        url::lemma_find_set_first(s, set, 0, n);
        assert(s.take(n) =~= authority);
        assert(s.skip(n) =~= target);
    }
}

proof fn lemma_authority(host: Seq<char>, port: Option<u16>)
    requires
        plain_host(host),
    ensures
        url::host_port(host + port_text(port)) == Ok::<(Seq<char>, u16), Seq<char>>(
            (
                host,
                match port {
                    None => 80u16,
                    Some(n) => n,
                },
            ),
        ),
{
    reveal_strlit("[");
    reveal_strlit(":");
    let a = host + port_text(port);
    let colon = ":"@;
    assert(colon =~= seq![':']);
    assert(!text::starts(a, "["@)) by {
        assert(a[0] == host[0]);
        if text::starts(a, "["@) {
            assert(a.take(1)[0] == '[');
        }
    }
    let n = host.len() as int;
    assert forall|k: int| 0 <= k < n implies !colon.contains(#[trigger] a[k]) by {
        assert(a[k] == host[k]);
    }
    match port {
        None => {
            assert(a =~= host);
            url::lemma_rfind_none(a, colon, a.len() as int);
        },
        Some(m) => {
            let digits = text::decimal(m as nat);
            text::lemma_decimal(m as nat);
            assert(a[n] == ':');
            assert(colon[0] == ':');
            assert(colon.contains(a[n]));
            assert forall|k: int| n < k < a.len() implies !colon.contains(#[trigger] a[k]) by {
                assert(a[k] == digits[k - n - 1]);
                assert(text::ascii_digit(digits[k - n - 1]));
            }
            url::lemma_rfind_last(a, colon, a.len() as int, n);
            assert(a.skip(n + 1) =~= digits);
            assert(a.take(n) =~= host);
            text_laws::law_unsigned_decimal(m as nat, u16::MAX as nat, seq!['x'], 0);
        },
    }
}

proof fn lemma_written(
    left: Seq<char>,
    scheme: Seq<char>,
    authority: Seq<char>,
    target: Seq<char>,
    right: Seq<char>,
)
    requires
        text_laws::white(left),
        text_laws::white(right),
        scheme.len() > 0,
        !text::whitespace(scheme[0]),
        forall|k: int| 0 <= k < scheme.len() ==> #[trigger] scheme[k] != ':',
        authority.len() > 0 ==> !text::whitespace(authority.last()),
        plain_target(target),
    ensures
        ({
            let s = scheme + seq![':', '/', '/'] + (authority + target);
            &&& text::trimmed(left + s + right) == s
            &&& text::split_once_at(s, "://"@) == Some((scheme, authority + target))
        }),
{
    let s = scheme + seq![':', '/', '/'] + (authority + target);
    assert(s[0] == scheme[0]);
    assert(!text::whitespace('/'));
    assert(s.last() == if target.len() > 0 {
        target.last()
    } else if authority.len() > 0 {
        authority.last()
    } else {
        '/'
    });
    text_laws::law_trimmed(left, s, right);
    lemma_scheme(scheme, authority + target);
}

/// `http://host:port/path?query`, in any case of the scheme and with any white
/// space around it, has that host, that port and that target. Without a port
/// it is 80; without a path it is the root.
pub proof fn law_written_url(
    left: Seq<char>,
    scheme: Seq<char>,
    host: Seq<char>,
    port: Option<u16>,
    target: Seq<char>,
    right: Seq<char>,
)
    requires
        text_laws::white(left),
        text_laws::white(right),
        text::same_letters(scheme, "http"@),
        plain_host(host),
        plain_target(target),
    ensures
        url::parsed(
            left + (scheme + seq![':', '/', '/'] + (host + port_text(port) + target)) + right,
        ) == Ok::<UrlView, Seq<char>>(
            UrlView {
                scheme: "http"@,
                host,
                port: match port {
                    None => 80u16,
                    Some(n) => n,
                },
                path_and_query: if target.len() == 0 {
                    seq!['/']
                } else if target[0] == '/' {
                    target
                } else {
                    seq!['/'] + target
                },
            },
        ),
{
    lemma_http(scheme);
    let authority = host + port_text(port);
    lemma_port_text(host, port);
    assert forall|k: int| 0 <= k < authority.len() implies #[trigger] authority[k] != '/'
        && authority[k] != '?' by {
        lemma_port_char(host, port, k);
    }
    lemma_written(left, scheme, authority, target, right);
    lemma_target(authority, target);
    lemma_authority(host, port);
    reveal_strlit("http");
    reveal_strlit("https");
    assert("http"@.len() == 4 && "https"@.len() == 5);
}

proof fn lemma_http(scheme: Seq<char>)
    requires
        text::same_letters(scheme, "http"@),
    ensures
        text::ascii_lower(scheme) == "http"@,
        scheme.len() == 4,
        !text::whitespace(scheme[0]),
        forall|k: int| 0 <= k < scheme.len() ==> #[trigger] scheme[k] != ':',
{
    reveal_strlit("http");
    let http = "http"@;
    assert(text::ascii_lower(http) =~= http);
    let low = text::ascii_lower(scheme);
    assert(low.len() == scheme.len());
    assert forall|k: int| 0 <= k < scheme.len() implies #[trigger] scheme[k] != ':' by {
        assert(low[k] == http[k]);
    }
    assert(low[0] == 'h');
}

proof fn lemma_port_text(host: Seq<char>, port: Option<u16>)
    requires
        plain_host(host),
    ensures
        !text::whitespace((host + port_text(port)).last()),
        (host + port_text(port)).len() > 0,
{
    match port {
        None => {
            assert(host + port_text(port) =~= host);
            assert(!text::whitespace(host[host.len() - 1]));
        },
        Some(n) => {
            text::lemma_decimal(n as nat);
            let d = text::decimal(n as nat);
            assert(text::ascii_digit(d[d.len() - 1]));
            assert((host + port_text(port)).last() == d.last());
        },
    }
}

proof fn lemma_port_char(host: Seq<char>, port: Option<u16>, k: int)
    requires
        plain_host(host),
        0 <= k < (host + port_text(port)).len(),
    ensures
        (host + port_text(port))[k] != '/',
        (host + port_text(port))[k] != '?',
{
    let a = host + port_text(port);
    if k < host.len() {
        assert(a[k] == host[k]);
    } else {
        let n = port->0;
        text::lemma_decimal(n as nat);
        if k > host.len() {
            let d = text::decimal(n as nat);
            assert(a[k] == d[k - host.len() - 1]);
            assert(text::ascii_digit(d[k - host.len() - 1]));
        }
    }
}

/// A host that holds colons is written in brackets.
pub proof fn law_bracketed_host(host: Seq<char>, port: Option<u16>)
    requires
        host.len() > 0,
        forall|k: int| 0 <= k < host.len() ==> #[trigger] host[k] != ']',
    ensures
        url::host_port(seq!['['] + host + seq![']'] + port_text(port)) == Ok::<
            (Seq<char>, u16),
            Seq<char>,
        >(
            (
                host,
                match port {
                    None => 80u16,
                    Some(n) => n,
                },
            ),
        ),
{
    reveal_strlit("[");
    reveal_strlit("]");
    reveal_strlit(":");
    let p = port_text(port);
    let a = seq!['['] + host + seq![']'] + p;
    assert("["@ =~= seq!['['] && "]"@ =~= seq![']'] && ":"@ =~= seq![':']);
    assert(a.take(1) =~= "["@);
    assert(a.skip(1) =~= host + seq![']'] + p);
    assert(!host.contains(']'));
    text::lemma_split_once(host, ']', p);
    match port {
        None => {
            assert(!text::starts(p, ":"@));
        },
        Some(n) => {
            let digits = text::decimal(n as nat);
            assert(p.take(1) =~= ":"@);
            assert(p.skip(1) =~= digits);
            text_laws::law_unsigned_decimal(n as nat, u16::MAX as nat, seq!['x'], 0);
        },
    }
}

/// A scheme other than `http` is refused, and so is a URL without a host, or
/// with a port that is no number or too large.
pub proof fn law_refused_urls(
    scheme: Seq<char>,
    host: Seq<char>,
    port: Seq<char>,
    target: Seq<char>,
    k: int,
    n: nat,
)
    requires
        scheme.len() > 0,
        text_laws::flush(scheme),
        forall|j: int| 0 <= j < scheme.len() ==> #[trigger] scheme[j] != ':',
        plain_host(host),
        plain_target(target),
        port == text::decimal(n) && n > 65535 || (0 <= k < port.len() && !('0' <= port[k] <= '9')
            && (k > 0 || port[0] != '+') && forall|j: int|
            0 <= j < port.len() ==> #[trigger] port[j] != ':' && port[j] != '/' && port[j] != '?'
                && !text::whitespace(port[j])),
    ensures
        !text::same_letters(scheme, "http"@) ==> url::parsed(
            scheme + seq![':', '/', '/'] + (host + target),
        ) is Err,
        text::same_letters(scheme, "http"@) ==> url::parsed(
            scheme + seq![':', '/', '/'] + target,
        ) is Err,
        text::same_letters(scheme, "http"@) ==> url::parsed(
            scheme + seq![':', '/', '/'] + (host + seq![':'] + port + target),
        ) == Err::<UrlView, Seq<char>>("invalid port '"@ + port + "'"@),
{
    let e = Seq::<char>::empty();
    assert(!text::whitespace(host[host.len() - 1]));
    reveal_strlit("http");
    reveal_strlit("https");
    assert("http"@.len() == 4 && "https"@.len() == 5);
    assert(text::ascii_lower("http"@) =~= "http"@);
    let s1 = scheme + seq![':', '/', '/'] + (host + target);
    lemma_written(e, scheme, host, target, e);
    assert(e + s1 + e =~= s1);
    if text::same_letters(scheme, "http"@) {
        let s2 = scheme + seq![':', '/', '/'] + target;
        lemma_written(e, scheme, e, target, e);
        assert(e + target =~= target);
        assert(e + s2 + e =~= s2);
        lemma_target(e, target);
        lemma_refused_port(scheme, host, port, target, k, n);
    }
}

proof fn lemma_refused_port(
    scheme: Seq<char>,
    host: Seq<char>,
    port: Seq<char>,
    target: Seq<char>,
    k: int,
    n: nat,
)
    requires
        text::same_letters(scheme, "http"@),
        plain_host(host),
        plain_target(target),
        port == text::decimal(n) && n > 65535 || (0 <= k < port.len() && !('0' <= port[k] <= '9')
            && (k > 0 || port[0] != '+') && forall|j: int|
            0 <= j < port.len() ==> #[trigger] port[j] != ':' && port[j] != '/' && port[j] != '?'
                && !text::whitespace(port[j])),
    ensures
        url::parsed(scheme + seq![':', '/', '/'] + (host + seq![':'] + port + target)) == Err::<
            UrlView,
            Seq<char>,
        >("invalid port '"@ + port + "'"@),
{
    let e = Seq::<char>::empty();
    let a = host + seq![':'] + port;
    lemma_http(scheme);
    reveal_strlit("http");
    reveal_strlit("https");
    assert("http"@.len() == 4 && "https"@.len() == 5);
    reveal_strlit("[");
    reveal_strlit(":");
    let colon = ":"@;
    assert(colon =~= seq![':']);
    if port == text::decimal(n) && n > 65535 {
        text::lemma_decimal(n);
        assert forall|j: int| 0 <= j < port.len() implies #[trigger] port[j] != ':' && port[j]
            != '/' && port[j] != '?' && !text::whitespace(port[j]) by {
            assert(text::ascii_digit(port[j]));
        }
        text_laws::law_unsigned_decimal(n, u16::MAX as nat, seq!['x'], 0);
    } else {
        text_laws::law_unsigned_decimal(n, u16::MAX as nat, port, k);
    }
    assert(text::unsigned(port, 10, u16::MAX as nat) is None);
    assert forall|j: int| 0 <= j < a.len() implies #[trigger] a[j] != '/' && a[j] != '?' by {
        if j < host.len() {
            assert(a[j] == host[j]);
        } else if j > host.len() {
            assert(a[j] == port[j - host.len() - 1]);
        }
    }
    assert(!text::whitespace(a.last())) by {
        assert(a.last() == port[port.len() - 1]);
    }
    lemma_written(e, scheme, a, target, e);
    let s = scheme + seq![':', '/', '/'] + (a + target);
    assert(e + s + e =~= s);
    lemma_target(a, target);
    let m = host.len() as int;
    assert(!text::starts(a, "["@)) by {
        assert(a[0] == host[0]);
        if text::starts(a, "["@) {
            assert(a.take(1)[0] == '[');
        }
    }
    assert(a[m] == ':');
    assert(colon[0] == ':');
    assert(colon.contains(a[m]));
    assert forall|j: int| m < j < a.len() implies !colon.contains(#[trigger] a[j]) by {
        assert(a[j] == port[j - m - 1]);
    }
    url::lemma_rfind_last(a, colon, a.len() as int, m);
    assert(a.skip(m + 1) =~= port);
}

/// The `Host` header leaves out the port of the scheme, and no other.
pub proof fn law_host_header(u: UrlView)
    ensures
        u.port == 80 ==> u.host_value() == u.host,
        u.port != 80 ==> u.host_value() == u.host + seq![':'] + text::decimal(u.port as nat),
        u.address() == u.host + seq![':'] + text::decimal(u.port as nat),
{
    reveal_strlit(":");
    assert(":"@ =~= seq![':']);
}

/// A redirect target without a scheme and without a slash at its start
/// replaces what follows the last slash of the path, query and all.
pub proof fn law_relative_target(
    base: UrlView,
    dir: Seq<char>,
    file: Seq<char>,
    query: Seq<char>,
    location: Seq<char>,
)
    requires
        base.path_and_query == dir + seq!['/'] + file + query,
        forall|k: int| 0 <= k < dir.len() ==> #[trigger] dir[k] != '?' && dir[k] != '#',
        forall|k: int|
            0 <= k < file.len() ==> #[trigger] file[k] != '/' && file[k] != '?' && file[k] != '#',
        query.len() == 0 || query[0] == '?' || query[0] == '#',
        !text::starts(location, "/"@),
        !text::contains(location, "://"@),
    ensures
        url::resolved(base, location) == Ok::<UrlView, Seq<char>>(
            UrlView {
                scheme: base.scheme,
                host: base.host,
                port: base.port,
                path_and_query: dir + seq!['/'] + location,
            },
        ),
{
    reveal_strlit("?#");
    reveal_strlit("/");
    let set = "?#"@;
    let slash = "/"@;
    assert(set[0] == '?' && set[1] == '#');
    assert(slash =~= seq!['/']);
    let target = base.path_and_query;
    let path = dir + seq!['/'] + file;
    let n = path.len() as int;
    assert forall|k: int| 0 <= k < n implies !set.contains(#[trigger] target[k]) by {
        if k < dir.len() {
            assert(target[k] == dir[k]);
        } else if k > dir.len() {
            assert(target[k] == file[k - dir.len() - 1]);
        }
    }
    if query.len() == 0 {
        assert(target =~= path);
        text::lemma_find_set_none(target, set, 0);
    } else {
        assert(target[n] == query[0]);
        assert(set.contains(target[n]));
        url::lemma_find_set_first(target, set, 0, n);
        assert(target.take(n) =~= path);
    }
    let m = dir.len() as int;
    assert(path[m] == '/');
    assert(slash[0] == '/');
    assert(slash.contains(path[m]));
    assert forall|k: int| m < k < n implies !slash.contains(#[trigger] path[k]) by {
        assert(path[k] == file[k - m - 1]);
    }
    url::lemma_rfind_last(path, slash, n, m);
    assert(path.take(m + 1) =~= dir + seq!['/']);
    assert(url::directory(target) == dir + seq!['/']);
}

/// A redirect target with a scheme is a URL of its own; one that begins with a
/// slash is a target on the same host.
pub proof fn law_absolute_target(
    base: UrlView,
    scheme: Seq<char>,
    rest: Seq<char>,
    path: Seq<char>,
)
    requires
        scheme.len() > 0,
        forall|k: int|
            0 <= k < scheme.len() ==> ('a' <= #[trigger] scheme[k] <= 'z') || ('A' <= scheme[k]
                <= 'Z'),
    ensures
        url::resolved(base, scheme + seq![':', '/', '/'] + rest) == url::parsed(
            scheme + seq![':', '/', '/'] + rest,
        ),
        url::resolved(base, seq!['/'] + path) == Ok::<UrlView, Seq<char>>(
            UrlView {
                scheme: base.scheme,
                host: base.host,
                port: base.port,
                path_and_query: seq!['/'] + path,
            },
        ),
{
    let s = scheme + seq![':', '/', '/'] + rest;
    lemma_scheme(scheme, rest);
    reveal_strlit("/");
    assert("/"@ =~= seq!['/']);
    assert(!text::starts(s, "/"@)) by {
        assert(s[0] == scheme[0]);
        if text::starts(s, "/"@) {
            assert(s.take(1)[0] == '/');
        }
    }
    let e = Seq::<char>::empty();
    assert(!text::whitespace(scheme[0]) && !text::whitespace(scheme[scheme.len() - 1]));
    text_laws::law_trimmed(e, scheme, e);
    assert(e + scheme + e =~= scheme);
    assert((seq!['/'] + path).take(1) =~= "/"@);
}

} // verus!
