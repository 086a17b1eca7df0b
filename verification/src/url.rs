//! URL splitter for the subset a request needs:
//! `http://host[:port]/path?query`.

use crate::text;
use vstd::prelude::*;
use vstd::slice::slice_subrange;

verus! {

/// Components of a parsed request URL.
#[derive(Debug, PartialEq)]
pub struct Url {
    pub scheme: String,
    pub host: String,
    pub port: u16,
    /// Path + query exactly as it goes on the request line (always starts with `/`).
    pub path_and_query: String,
}

/// What a URL stands for.
#[verifier::ext_equal]
pub struct UrlView {
    pub scheme: Seq<char>,
    pub host: Seq<char>,
    pub port: u16,
    pub path_and_query: Seq<char>,
}

impl View for Url {
    type V = UrlView;

    open spec fn view(&self) -> UrlView {
        UrlView {
            scheme: self.scheme@,
            host: self.host@,
            port: self.port,
            path_and_query: self.path_and_query@,
        }
    }
}

impl Clone for Url {
    fn clone(&self) -> (r: Url)
        ensures
            r@ == self@,
    {
        Url {
            scheme: text::owned(self.scheme.as_str()),
            host: text::owned(self.host.as_str()),
            port: self.port,
            path_and_query: text::owned(self.path_and_query.as_str()),
        }
    }
}

impl UrlView {
    /// The address of a host: name and port.
    pub open spec fn address(self) -> Seq<char> {
        self.host + ":"@ + text::decimal(self.port as nat)
    }

    /// The value of the `Host` header.
    pub open spec fn host_value(self) -> Seq<char> {
        if self.port == 80 {
            self.host
        } else {
            self.address()
        }
    }

    /// The shape of every parsed URL.
    pub open spec fn well_formed(self) -> bool {
        &&& self.scheme == "http"@
        &&& self.host.len() > 0
        &&& self.path_and_query.len() > 0
        &&& self.path_and_query[0] == '/'
    }
}

impl Url {
    /// `Host` header value: omits the port when it is the scheme default.
    pub fn host_header(&self) -> (r: String)
        ensures
            r@ == self@.host_value(),
    {
        if self.port == 80 {
            text::owned(self.host.as_str())
        } else {
            self.authority()
        }
    }

    /// Address string for the socket connect.
    pub fn authority(&self) -> (r: String)
        ensures
            r@ == self@.address(),
    {
        let port: String = text::decimal_string(self.port as u64);
        text::concat3(self.host.as_str(), ":", port.as_str())
    }
}

// ------------------------------------------------------------ grammar ----

/// The message about a URL without a host.
pub open spec fn no_host(input: Seq<char>) -> Seq<char> {
    "URL '"@ + input + "' has no host"@
}

/// A port number in text.
pub open spec fn port_number(s: Seq<char>) -> Result<u16, Seq<char>> {
    match text::unsigned(s, 10, u16::MAX as nat) {
        Some(n) => Ok(n as u16),
        None => Err("invalid port '"@ + s + "'"@),
    }
}

/// Authority and request target of the part after the scheme.
pub open spec fn split_target(rest: Seq<char>) -> (Seq<char>, Seq<char>) {
    match text::find_set(rest, "/?"@, 0) {
        Some(i) => if rest[i] == '/' {
            (rest.take(i), rest.skip(i))
        } else {
            (rest.take(i), "/"@ + rest.skip(i))
        },
        None => (rest, "/"@),
    }
}

/// Host and port of an authority. An IPv6 literal comes in brackets.
pub open spec fn host_port(authority: Seq<char>) -> Result<(Seq<char>, u16), Seq<char>> {
    match text::after_prefix(authority, "["@) {
        Some(rest) => match text::split_once_at(rest, "]"@) {
            None => Err("unclosed IPv6 literal in '"@ + authority + "'"@),
            Some((host, after)) => match text::after_prefix(after, ":"@) {
                Some(p) => match port_number(p) {
                    Ok(port) => Ok((host, port)),
                    Err(e) => Err(e),
                },
                None => if after.len() == 0 {
                    Ok((host, 80))
                } else {
                    Err("invalid authority '"@ + authority + "'"@)
                },
            },
        },
        None => match text::rfind_set(authority, ":"@, authority.len() as int) {
            Some(i) => match port_number(authority.skip(i + 1)) {
                Ok(port) => Ok((authority.take(i), port)),
                Err(e) => Err(e),
            },
            None => Ok((authority, 80)),
        },
    }
}

/// The URL that a text stands for.
pub open spec fn parsed(text: Seq<char>) -> Result<UrlView, Seq<char>> {
    let input = text::trimmed(text);
    match text::split_once_at(input, "://"@) {
        None => Err("URL '"@ + input + "' has no scheme (expected http://...)"@),
        Some((raw, rest)) => {
            let scheme = text::ascii_lower(raw);
            let (authority, path_and_query) = split_target(rest);
            if scheme == "https"@ {
                Err(
                    "https:// is not supported in v0.1.0 (TLS needs a dependency; see the roadmap) — point reqrun at the plain-HTTP port"@,
                )
            } else if scheme != "http"@ {
                Err("unsupported URL scheme '"@ + scheme + "'"@)
            } else if authority.len() == 0 {
                Err(no_host(input))
            } else {
                match host_port(authority) {
                    Err(e) => Err(e),
                    Ok((host, port)) => if host.len() == 0 {
                        Err(no_host(input))
                    } else {
                        Ok(UrlView { scheme, host, port, path_and_query })
                    },
                }
            }
        },
    }
}

/// The directory of a request target: up to and with the last slash of its
/// path.
pub open spec fn directory(target: Seq<char>) -> Seq<char> {
    let path = match text::find_set(target, "?#"@, 0) {
        Some(i) => target.take(i),
        None => target,
    };
    match text::rfind_set(path, "/"@, path.len() as int) {
        Some(i) => path.take(i + 1),
        None => "/"@,
    }
}

/// A character of a scheme.
pub open spec fn scheme_char(c: char) -> bool {
    text::ascii_letter(c) || text::ascii_digit(c) || c == '+' || c == '-' || c == '.'
}

/// A text that only holds characters of a scheme.
pub open spec fn scheme_chars(s: Seq<char>) -> bool {
    forall|k: int| 0 <= k < s.len() ==> scheme_char(#[trigger] s[k])
}

/// The redirect target begins with a scheme.
pub open spec fn is_absolute(location: Seq<char>) -> bool {
    match text::split_once_at(location, "://"@) {
        None => false,
        Some((before, _)) => scheme_chars(text::trimmed(before)),
    }
}

/// The URL that a redirect leads to.
pub open spec fn resolved(base: UrlView, location: Seq<char>) -> Result<UrlView, Seq<char>> {
    if text::starts(location, "/"@) {
        Ok(UrlView { path_and_query: location, ..base })
    } else if is_absolute(location) {
        parsed(location)
    } else {
        Ok(UrlView { path_and_query: directory(base.path_and_query) + location, ..base })
    }
}

/// Every parsed URL is an `http` URL with a host, and its request target
/// starts with a slash.
pub proof fn law_parsed_url_is_well_formed(text: Seq<char>)
    ensures
        parsed(text) matches Ok(u) ==> u.well_formed(),
{
    let input = text::trimmed(text);
    reveal_strlit("/");
    if let Some((_, rest)) = text::split_once_at(input, "://"@) {
        text::lemma_find_set_bounds(rest, "/?"@, 0);
    }
}

/// A redirect to an absolute path, or to a target without a scheme, stays on
/// the same host and port, whatever its query holds; an absolute path becomes
/// the request target as it stands, and any other is taken from the directory
/// of the base.
pub proof fn law_relative_redirect_keeps_origin(base: UrlView, location: Seq<char>)
    requires
        text::starts(location, "/"@) || !is_absolute(location),
    ensures
        resolved(base, location) matches Ok(u) && u.scheme == base.scheme && u.host == base.host
            && u.port == base.port,
        resolved(base, location)->Ok_0.path_and_query == if text::starts(location, "/"@) {
            location
        } else {
            directory(base.path_and_query) + location
        },
{
}

/// Following a redirect from a well-formed URL gives a well-formed URL.
pub proof fn law_redirect_is_well_formed(base: UrlView, location: Seq<char>)
    requires
        base.well_formed(),
    ensures
        resolved(base, location) matches Ok(u) ==> u.well_formed(),
{
    law_parsed_url_is_well_formed(location);
    reveal_strlit("/");
    reveal_strlit("?#");
    if text::starts(location, "/"@) {
        assert(location.take(1)[0] == '/');
    } else if !is_absolute(location) {
        let target = base.path_and_query;
        text::lemma_find_set_bounds(target, "?#"@, 0);
        let path = match text::find_set(target, "?#"@, 0) {
            Some(i) => target.take(i),
            None => target,
        };
        assert(path[0] == '/');
        assert("/"@.contains(path[0])) by {
            assert("/"@[0] == '/');
        }
        text::lemma_rfind_set_bounds(path, "/"@, path.len() as int, 0);
    }
}

/// A URL written out with the host as the `Host` header has it.
pub open spec fn written(u: UrlView) -> Seq<char> {
    "http://"@ + u.host_value() + u.path_and_query
}

/// The host and the port of an authority that is written as the `Host` header
/// has it.
proof fn lemma_host_value(u: UrlView)
    requires
        u.host.len() > 0,
        !u.host.contains(':'),
        u.host[0] != '[',
    ensures
        host_port(u.host_value()) == Ok::<(Seq<char>, u16), Seq<char>>((u.host, u.port)),
{
    let a = u.host_value();
    let digits = text::decimal(u.port as nat);
    text::lemma_decimal(u.port as nat);
    reveal_strlit("[");
    reveal_strlit(":");
    let colon = ":"@;
    assert(colon =~= seq![':']);
    assert(!text::starts(a, "["@)) by {
        assert(a[0] == u.host[0]);
        if text::starts(a, "["@) {
            assert(a.take(1)[0] == '[');
        }
    }
    let n = u.host.len() as int;
    if u.port == 80 {
        assert forall|k: int| 0 <= k < a.len() implies !colon.contains(#[trigger] a[k]) by {
            assert(u.host[k] == a[k]);
        }
        lemma_rfind_none(a, colon, a.len() as int);
    } else {
        assert(a[n] == ':');
        assert(colon.contains(a[n])) by {
            assert(colon[0] == ':');
        }
        assert forall|k: int| n < k < a.len() implies !colon.contains(#[trigger] a[k]) by {
            assert(a[k] == digits[k - n - 1]);
            assert(text::ascii_digit(digits[k - n - 1]));
        }
        lemma_rfind_last(a, colon, a.len() as int, n);
        assert(a.skip(n + 1) =~= digits);
        assert(a.take(n) =~= u.host);
        assert(text::ascii_digit(digits[0]));
    }
}

pub(crate) proof fn lemma_rfind_none(s: Seq<char>, set: Seq<char>, j: int)
    requires
        0 <= j <= s.len(),
        forall|k: int| 0 <= k < j ==> !set.contains(#[trigger] s[k]),
    ensures
        text::rfind_set(s, set, j) is None,
    decreases j,
{
    if j > 0 {
        lemma_rfind_none(s, set, j - 1);
    }
}

proof fn lemma_rfind_within(s: Seq<char>, set: Seq<char>, j: int)
    requires
        0 <= j <= s.len(),
    ensures
        text::rfind_set(s, set, j) matches Some(n) ==> 0 <= n < j,
    decreases j,
{
    if j > 0 {
        lemma_rfind_within(s, set, j - 1);
    }
}

pub(crate) proof fn lemma_rfind_last(s: Seq<char>, set: Seq<char>, j: int, n: int)
    requires
        0 <= n < j <= s.len(),
        set.contains(s[n]),
        forall|k: int| n < k < j ==> !set.contains(#[trigger] s[k]),
    ensures
        text::rfind_set(s, set, j) == Some(n),
    decreases j,
{
    if j - 1 > n {
        lemma_rfind_last(s, set, j - 1, n);
    }
}

pub(crate) proof fn lemma_find_set_first(s: Seq<char>, set: Seq<char>, i: int, n: int)
    requires
        0 <= i <= n < s.len(),
        set.contains(s[n]),
        forall|k: int| i <= k < n ==> !set.contains(#[trigger] s[k]),
    ensures
        text::find_set(s, set, i) == Some(n),
    decreases n - i,
{
    if i < n {
        lemma_find_set_first(s, set, i + 1, n);
    }
}

proof fn lemma_find_set_before(s: Seq<char>, set: Seq<char>, i: int)
    requires
        0 <= i,
    ensures
        match text::find_set(s, set, i) {
            Some(n) => i <= n < s.len() && forall|k: int| i <= k < n ==> !set.contains(
                #[trigger] s[k],
            ),
            None => forall|k: int| i <= k < s.len() ==> !set.contains(#[trigger] s[k]),
        },
    decreases s.len() - i,
{
    if i < s.len() && !set.contains(s[i]) {
        lemma_find_set_before(s, set, i + 1);
    }
}

/// What the parts of a parsed URL look like.
proof fn lemma_parsed_parts(s: Seq<char>)
    ensures
        parsed(s) matches Ok(u) ==> u.well_formed() && (forall|k: int|
            0 <= k < u.host.len() ==> !"/?"@.contains(#[trigger] u.host[k]))
            && !text::whitespace(u.path_and_query.last()),
{
    law_parsed_url_is_well_formed(s);
    reveal_strlit("/");
    reveal_strlit("?");
    reveal_strlit("://");
    reveal_strlit("[");
    let input = text::trimmed(s);
    if let Some((raw, rest)) = text::split_once_at(input, "://"@) {
        text::lemma_find_bounds(input, "://"@, 0);
        lemma_find_set_before(rest, "/?"@, 0);
        let (authority, target) = split_target(rest);
        if let Ok((host, port)) = host_port(authority) {
            assert forall|k: int| 0 <= k < host.len() implies !"/?"@.contains(
                #[trigger] host[k],
            ) by {
                match text::after_prefix(authority, "["@) {
                    Some(inner) => {
                        text::lemma_find_bounds(inner, "]"@, 0);
                        assert(host[k] == inner[k]);
                        assert(inner[k] == authority[k + 1]);
                        assert(authority[k + 1] == rest[k + 1]);
                    },
                    None => {
                        lemma_rfind_within(authority, ":"@, authority.len() as int);
                        assert(host[k] == authority[k]);
                        assert(authority[k] == rest[k]);
                    },
                }
            }
        }
        assert(!text::whitespace(target.last())) by {
            text::lemma_trim_bounds(s);
            text::lemma_trim_bounds(text::ltrim(s));
            if let Some(i) = text::find_set(rest, "/?"@, 0) {
                assert(target.last() == rest.last());
                assert(rest.last() == input.last());
            }
        }
    }
}

/// A parsed URL, written out again, parses to itself, unless its host holds a
/// colon or begins with a bracket.
pub proof fn law_written_url_parses_back(s: Seq<char>)
    requires
        parsed(s) matches Ok(u) && !u.host.contains(':') && u.host[0] != '[',
    ensures
        parsed(written(parsed(s)->Ok_0)) == parsed(s),
{
    let u = parsed(s)->Ok_0;
    lemma_parsed_parts(s);
    lemma_host_value(u);
    reveal_strlit("http://");
    reveal_strlit("http");
    reveal_strlit("https");
    reveal_strlit("://");
    reveal_strlit("/?");
    reveal_strlit(":");
    let t = written(u);
    let a = u.host_value();
    let rest = a + u.path_and_query;
    text::lemma_trimmed_plain(t);
    assert(t[0] == 'h' && t[1] == 't' && t[2] == 't' && t[3] == 'p');
    assert(t.subrange(4, 7) =~= "://"@);
    assert(t.subrange(0, 3)[0] != ':');
    assert(t.subrange(1, 4)[0] != ':');
    assert(t.subrange(2, 5)[0] != ':');
    assert(t.subrange(3, 6)[0] != ':');
    assert("://"@[0] == ':');
    reveal_with_fuel(text::find, 6);
    assert(text::find(t, "://"@, 0) == Some(4int));
    assert(t.take(4) =~= "http"@);
    assert(t.skip(7) =~= rest);
    assert(text::ascii_lower("http"@) =~= "http"@);
    let digits = text::decimal(u.port as nat);
    text::lemma_decimal(u.port as nat);
    let n = a.len() as int;
    assert forall|k: int| 0 <= k < n implies !"/?"@.contains(#[trigger] rest[k]) by {
        if k < u.host.len() {
            assert(rest[k] == u.host[k]);
        } else if k > u.host.len() {
            assert(rest[k] == digits[k - u.host.len() - 1]);
            assert(text::ascii_digit(digits[k - u.host.len() - 1]));
        } else {
            assert(rest[k] == ':');
        }
    }
    assert(rest[n] == '/');
    assert("/?"@.contains(rest[n])) by {
        assert("/?"@[0] == '/');
    }
    lemma_find_set_first(rest, "/?"@, 0, n);
    assert(rest.take(n) =~= a);
    assert(rest.skip(n) =~= u.path_and_query);
}

// ------------------------------------------------------------- parser ----

/// What the result of parsing holds.
pub open spec fn url_result(r: Result<Url, String>) -> Result<UrlView, Seq<char>> {
    match r {
        Ok(u) => Ok(u@),
        Err(e) => Err(e@),
    }
}

/// What the result of reading a port holds.
spec fn port_result(r: Result<u16, String>) -> Result<u16, Seq<char>> {
    match r {
        Ok(p) => Ok(p),
        Err(e) => Err(e@),
    }
}

fn parse_port(s: &[char]) -> (r: Result<u16, String>)
    ensures
        port_result(r) == port_number(s@),
{
    match text::parse_unsigned(s, 10, u16::MAX as u64) {
        Some(n) => Ok(n as u16),
        None => {
            let s: String = text::string(s);
            Err(text::concat3("invalid port '", s.as_str(), "'"))
        },
    }
}

/// What the result of splitting an authority holds.
spec fn host_result(r: Result<(String, u16), String>) -> Result<(Seq<char>, u16), Seq<char>> {
    match r {
        Ok((h, p)) => Ok((h@, p)),
        Err(e) => Err(e@),
    }
}

fn split_authority(authority: &[char]) -> (r: Result<(String, u16), String>)
    ensures
        host_result(r) == host_port(authority@),
{
    if let Some(rest) = text::strip_prefix(authority, "[") {
        match text::split_once(rest, "]") {
            None => {
                let authority: String = text::string(authority);
                Err(text::concat3("unclosed IPv6 literal in '", authority.as_str(), "'"))
            },
            Some((host, after)) => match text::strip_prefix(after, ":") {
                Some(p) => match parse_port(p) {
                    Ok(port) => Ok((text::string(host), port)),
                    Err(e) => Err(e),
                },
                None => if after.len() == 0 {
                    Ok((text::string(host), 80))
                } else {
                    let authority: String = text::string(authority);
                    Err(text::concat3("invalid authority '", authority.as_str(), "'"))
                },
            },
        }
    } else {
        let end: usize = authority.len();
        match text::rfind_any(authority, ":") {
            Some(i) => match parse_port(slice_subrange(authority, i + 1, end)) {
                Ok(port) => Ok((text::string(slice_subrange(authority, 0, i)), port)),
                Err(e) => Err(e),
            },
            None => Ok((text::string(authority), 80)),
        }
    }
}

fn host_missing(input: &[char]) -> (r: String)
    ensures
        r@ == no_host(input@),
{
    let input: String = text::string(input);
    text::concat3("URL '", input.as_str(), "' has no host")
}

/// Parse an absolute URL. Only `http` is accepted in v0.1.0; `https` gets a
/// dedicated, honest error so users know it is a roadmap item rather than a bug.
pub fn parse(input: &str) -> (r: Result<Url, String>)
    ensures
        url_result(r) == parsed(input@),
        r matches Ok(u) ==> u@.well_formed(),
{
    let chars: Vec<char> = text::chars(input);
    let input: &[char] = text::trim(chars.as_slice());
    let (raw, rest): (&[char], &[char]) = match text::split_once(input, "://") {
        Some(p) => p,
        None => {
            let input: String = text::string(input);
            return Err(
                text::concat3(
                    "URL '",
                    input.as_str(),
                    "' has no scheme (expected http://...)",
                ),
            );
        },
    };
    let scheme: Vec<char> = text::to_ascii_lower(raw);
    if text::same(scheme.as_slice(), "https") {
        return Err(
            text::owned(
                "https:// is not supported in v0.1.0 (TLS needs a dependency; see the roadmap) — point reqrun at the plain-HTTP port",
            ),
        );
    }
    let scheme_text: String = text::string(scheme.as_slice());
    if !text::same(scheme.as_slice(), "http") {
        return Err(text::concat3("unsupported URL scheme '", scheme_text.as_str(), "'"));
    }
    proof {
        reveal_strlit("/");
    }
    let (authority, path_and_query): (&[char], String) = match text::find_any(rest, "/?", 0) {
        Some(i) => {
            let tail: String = text::string(slice_subrange(rest, i, rest.len()));
            if rest[i] == '/' {
                (slice_subrange(rest, 0, i), tail)
            } else {
                (slice_subrange(rest, 0, i), text::concat2("/", tail.as_str()))
            }
        },
        None => (rest, text::owned("/")),
    };
    if authority.len() == 0 {
        return Err(host_missing(input));
    }
    match split_authority(authority) {
        Err(e) => Err(e),
        Ok((host, port)) => {
            if text::chars(host.as_str()).len() == 0 {
                return Err(host_missing(input));
            }
            Ok(Url { scheme: scheme_text, host, port, path_and_query })
        },
    }
}

fn begins_with_scheme(location: &[char]) -> (r: bool)
    ensures
        r == is_absolute(location@),
{
    let scheme: &[char] = match text::split_once(location, "://") {
        None => {
            return false;
        },
        Some((before, _)) => text::trim(before),
    };
    let mut i: usize = 0;
    while i < scheme.len()
        invariant
            i <= scheme.len(),
            is_absolute(location@) == scheme_chars(scheme@),
            forall|k: int| 0 <= k < i ==> scheme_char(#[trigger] scheme@[k]),
        decreases scheme.len() - i,
    {
        let c: char = scheme[i];
        let part: bool = text::is_ascii_letter(c) || text::is_ascii_digit(c) || c == '+' || c == '-'
            || c == '.';
        if !part {
            assert(!scheme_char(scheme@[i as int]));
            return false;
        }
        i += 1;
    }
    true
}

/// Resolve a redirect `Location` against the URL that produced it.
/// Handles absolute URLs, absolute paths and (minimally) relative paths. Only
/// what begins with a scheme is an absolute URL; a path stays a path, whatever
/// its query holds.
pub fn resolve_location(base: &Url, location: &str) -> (r: Result<Url, String>)
    ensures
        url_result(r) == resolved(base@, location@),
{
    let chars: Vec<char> = text::chars(location);
    let rooted: bool = text::starts_with(chars.as_slice(), "/");
    if !rooted && begins_with_scheme(chars.as_slice()) {
        return parse(location);
    }
    let mut out: Url = base.clone();
    if rooted {
        out.path_and_query = text::owned(location);
    } else {
        let target: Vec<char> = text::chars(base.path_and_query.as_str());
        let all: &[char] = target.as_slice();
        let path: &[char] = match text::find_any(all, "?#", 0) {
            Some(i) => slice_subrange(all, 0, i),
            None => all,
        };
        assert(path@.len() == path.len());
        let dir: String = match text::rfind_any(path, "/") {
            Some(i) => text::string(slice_subrange(path, 0, i + 1)),
            None => text::owned("/"),
        };
        out.path_and_query = text::concat2(dir.as_str(), location);
    }
    Ok(out)
}

} // verus!
