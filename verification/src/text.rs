//! Operations on text as a sequence of characters: trimming, searching,
//! splitting, ASCII case folding and integer formatting. Every operation is
//! specified by a function on `Seq<char>`, and the executable side works on
//! borrowed character slices.

use vstd::prelude::*;
use vstd::slice::slice_subrange;
use vstd::utf8::*;

verus! {

/// `String::push` appends one character at the end.
pub assume_specification[ std::string::String::push ](s: &mut std::string::String, c: char)
    ensures
        final(s)@ == old(s)@.push(c),
;

/// `char::from_u32` accepts exactly the Unicode scalar values and keeps the
/// number.
pub assume_specification[ char::from_u32 ](code: u32) -> (r: Option<char>)
    ensures
        r is Some <==> is_scalar(code),
        r matches Some(c) ==> c as u32 == code,
;

/// `std::str::from_utf8`: text is produced exactly for valid UTF-8, and it
/// encodes back to the given bytes.
#[verifier::external_body]
fn borrow_utf8(bytes: &[u8]) -> (r: Option<&str>)
    ensures
        r is Some <==> valid_utf8(bytes@),
        r matches Some(s) ==> encode_utf8(s@) == bytes@,
{
    std::str::from_utf8(bytes).ok()
}

/// What `String::from_utf8_lossy` makes of a byte sequence.
pub uninterp spec fn utf8_lossy(bytes: Seq<u8>) -> Seq<char>;

/// `String::from_utf8_lossy`: a function of the bytes; valid UTF-8 is decoded
/// as it stands. How malformed input is replaced is left unsaid.
#[verifier::external_body]
pub(crate) fn decode_lossy(bytes: &[u8]) -> (r: String)
    ensures
        r@ == utf8_lossy(bytes@),
        valid_utf8(bytes@) ==> r@ == decode_utf8(bytes@),
{
    String::from_utf8_lossy(bytes).into_owned()
}

/// What `str::to_lowercase` makes of a text (Unicode case mapping).
pub uninterp spec fn unicode_lowercase(s: Seq<char>) -> Seq<char>;

/// `str::to_lowercase`: a function of the text. ASCII letters become small;
/// the case mapping of other characters is left unsaid.
#[verifier::external_body]
pub(crate) fn to_lowercase(s: &str) -> (r: String)
    ensures
        r@ == unicode_lowercase(s@),
        (forall|k: int| 0 <= k < s@.len() ==> (#[trigger] s@[k] as u32) < 128) ==> r@
            == ascii_lower(s@),
{
    s.to_lowercase()
}

// ------------------------------------------------------------ classes ----

/// The Unicode `White_Space` property.
pub open spec fn whitespace(c: char) -> bool {
    let u = c as u32;
    ||| 0x9 <= u <= 0xD
    ||| u == 0x20
    ||| u == 0x85
    ||| u == 0xA0
    ||| u == 0x1680
    ||| 0x2000 <= u <= 0x200A
    ||| u == 0x2028
    ||| u == 0x2029
    ||| u == 0x202F
    ||| u == 0x205F
    ||| u == 0x3000
}

pub fn is_whitespace(c: char) -> (r: bool)
    ensures
        r == whitespace(c),
{
    let u: u32 = c as u32;
    (0x9 <= u && u <= 0xD) || u == 0x20 || u == 0x85 || u == 0xA0 || u == 0x1680 || (0x2000 <= u
        && u <= 0x200A) || u == 0x2028 || u == 0x2029 || u == 0x202F || u == 0x205F || u == 0x3000
}

pub open spec fn ascii_digit(c: char) -> bool {
    '0' <= c <= '9'
}

pub fn is_ascii_digit(c: char) -> (r: bool)
    ensures
        r == ascii_digit(c),
{
    '0' <= c && c <= '9'
}

pub open spec fn ascii_letter(c: char) -> bool {
    ('a' <= c <= 'z') || ('A' <= c <= 'Z')
}

pub fn is_ascii_letter(c: char) -> (r: bool)
    ensures
        r == ascii_letter(c),
{
    ('a' <= c && c <= 'z') || ('A' <= c && c <= 'Z')
}

/// ASCII lower case of one character; other characters are unchanged.
pub open spec fn lower_char(c: char) -> char {
    if 'A' <= c <= 'Z' {
        (c as u32 + 32) as char
    } else {
        c
    }
}

/// ASCII upper case of one character; other characters are unchanged.
pub open spec fn upper_char(c: char) -> char {
    if 'a' <= c <= 'z' {
        (c as u32 - 32) as char
    } else {
        c
    }
}

pub open spec fn ascii_lower(s: Seq<char>) -> Seq<char> {
    Seq::new(s.len(), |i: int| lower_char(s[i]))
}

pub open spec fn ascii_upper(s: Seq<char>) -> Seq<char> {
    Seq::new(s.len(), |i: int| upper_char(s[i]))
}

/// Equality up to ASCII case.
pub open spec fn same_letters(a: Seq<char>, b: Seq<char>) -> bool {
    ascii_lower(a) == ascii_lower(b)
}

fn to_lower_char(c: char) -> (r: char)
    ensures
        r == lower_char(c),
{
    if 'A' <= c && c <= 'Z' {
        (c as u8 + 32) as char
    } else {
        c
    }
}

fn to_upper_char(c: char) -> (r: char)
    ensures
        r == upper_char(c),
{
    if 'a' <= c && c <= 'z' {
        (c as u8 - 32) as char
    } else {
        c
    }
}

// -------------------------------------------------------- conversions ----

/// The characters of a string.
#[verifier::loop_isolation(false)]
pub fn chars(s: &str) -> (r: Vec<char>)
    ensures
        r@ == s@,
{
    let mut out: Vec<char> = Vec::new();
    for c in it: s.chars()
        invariant
            it.seq() == s@,
            out@ == s@.take(it.index() as int),
    {
        out.push(c);
        assert(s@.take(it.index() + 1) == s@.take(it.index() as int).push(c));
    }
    assert(s@.take(s@.len() as int) == s@);
    out
}

/// The string made of the given characters.
#[verifier::loop_isolation(false)]
pub fn string(s: &[char]) -> (r: String)
    ensures
        r@ == s@,
{
    let mut out: String = String::new();
    let mut i: usize = 0;
    while i < s.len()
        invariant
            i <= s.len(),
            out@ == s@.take(i as int),
        decreases s.len() - i,
    {
        out.push(s[i]);
        assert(s@.take(i + 1) == s@.take(i as int).push(s@[i as int]));
        i += 1;
    }
    assert(s@.take(s@.len() as int) == s@);
    out
}

/// A copy of a string slice.
pub fn owned(s: &str) -> (r: String)
    ensures
        r@ == s@,
{
    s.to_owned()
}

/// The text that the bytes encode, if they are UTF-8.
pub fn from_utf8(bytes: &[u8]) -> (r: Option<String>)
    ensures
        r is Some <==> valid_utf8(bytes@),
        r matches Some(s) ==> s@ == decode_utf8(bytes@),
{
    match borrow_utf8(bytes) {
        Some(s) => {
            proof {
                encode_utf8_decode_utf8(s@);
            }
            Some(s.to_owned())
        },
        None => None,
    }
}

/// The UTF-8 bytes of a text.
pub fn utf8_bytes(s: &str) -> (r: Vec<u8>)
    ensures
        r@ == encode_utf8(s@),
{
    vstd::slice::slice_to_vec(s.as_bytes())
}

/// The number of bytes that the text takes in UTF-8.
pub fn utf8_len(s: &[char]) -> (r: usize)
    ensures
        r == encode_utf8(s@).len(),
{
    let t: String = string(s);
    t.as_str().as_bytes().len()
}

pub fn concat2(a: &str, b: &str) -> (r: String)
    ensures
        r@ == a@ + b@,
{
    let mut out: String = a.to_owned();
    out.append(b);
    out
}

pub fn concat3(a: &str, b: &str, c: &str) -> (r: String)
    ensures
        r@ == a@ + b@ + c@,
{
    let mut out: String = a.to_owned();
    out.append(b);
    out.append(c);
    out
}

pub fn concat4(a: &str, b: &str, c: &str, d: &str) -> (r: String)
    ensures
        r@ == a@ + b@ + c@ + d@,
{
    let mut out: String = a.to_owned();
    out.append(b);
    out.append(c);
    out.append(d);
    out
}

pub fn concat5(a: &str, b: &str, c: &str, d: &str, e: &str) -> (r: String)
    ensures
        r@ == a@ + b@ + c@ + d@ + e@,
{
    let mut out: String = a.to_owned();
    out.append(b);
    out.append(c);
    out.append(d);
    out.append(e);
    out
}

/// Text equality.
pub fn same(a: &[char], b: &str) -> (r: bool)
    ensures
        r == (a@ == b@),
{
    let b: Vec<char> = chars(b);
    same_chars(a, b.as_slice())
}

#[verifier::loop_isolation(false)]
pub fn same_chars(a: &[char], b: &[char]) -> (r: bool)
    ensures
        r == (a@ == b@),
{
    if a.len() != b.len() {
        return false;
    }
    let mut i: usize = 0;
    while i < a.len()
        invariant
            i <= a.len(),
            a.len() == b.len(),
            forall|k: int| 0 <= k < i ==> a@[k] == b@[k],
        decreases a.len() - i,
    {
        if a[i] != b[i] {
            return false;
        }
        i += 1;
    }
    assert(a@ =~= b@);
    true
}

pub fn same_str(a: &str, b: &str) -> (r: bool)
    ensures
        r == (a@ == b@),
{
    let a: Vec<char> = chars(a);
    same(a.as_slice(), b)
}

/// ASCII lower case.
pub fn to_ascii_lower(s: &[char]) -> (r: Vec<char>)
    ensures
        r@ == ascii_lower(s@),
{
    let mut out: Vec<char> = Vec::new();
    let mut i: usize = 0;
    while i < s.len()
        invariant
            i <= s.len(),
            out@.len() == i,
            forall|k: int| 0 <= k < i ==> out@[k] == lower_char(s@[k]),
        decreases s.len() - i,
    {
        out.push(to_lower_char(s[i]));
        i += 1;
    }
    assert(out@ =~= ascii_lower(s@));
    out
}

/// ASCII upper case.
pub fn to_ascii_upper(s: &[char]) -> (r: Vec<char>)
    ensures
        r@ == ascii_upper(s@),
{
    let mut out: Vec<char> = Vec::new();
    let mut i: usize = 0;
    while i < s.len()
        invariant
            i <= s.len(),
            out@.len() == i,
            forall|k: int| 0 <= k < i ==> out@[k] == upper_char(s@[k]),
        decreases s.len() - i,
    {
        out.push(to_upper_char(s[i]));
        i += 1;
    }
    assert(out@ =~= ascii_upper(s@));
    out
}

/// `a` comes before `b` in the order of code points, compared from `i` on.
pub open spec fn precedes(a: Seq<char>, b: Seq<char>, i: int) -> bool
    decreases a.len() - i,
{
    if i >= b.len() {
        false
    } else if i >= a.len() {
        true
    } else if a[i] != b[i] {
        a[i] < b[i]
    } else {
        precedes(a, b, i + 1)
    }
}

pub fn is_before(a: &[char], b: &[char]) -> (r: bool)
    ensures
        r == precedes(a@, b@, 0),
{
    let mut i: usize = 0;
    while i < a.len() && i < b.len()
        invariant
            i <= a.len(),
            i <= b.len(),
            precedes(a@, b@, 0) == precedes(a@, b@, i as int),
        decreases a.len() - i,
    {
        if a[i] != b[i] {
            return a[i] < b[i];
        }
        i += 1;
    }
    i < b.len()
}

/// Equality up to ASCII case.
pub fn eq_ignore_ascii_case(a: &str, b: &str) -> (r: bool)
    ensures
        r == same_letters(a@, b@),
{
    let a: Vec<char> = chars(a);
    let b: Vec<char> = chars(b);
    let a: Vec<char> = to_ascii_lower(a.as_slice());
    let b: Vec<char> = to_ascii_lower(b.as_slice());
    same_chars(a.as_slice(), b.as_slice())
}

// ----------------------------------------------------------- trimming ----

/// The first position from `i` on that holds no white space.
pub open spec fn skip_white(s: Seq<char>, i: int) -> int
    decreases s.len() - i,
{
    if 0 <= i < s.len() && whitespace(s[i]) {
        skip_white(s, i + 1)
    } else {
        i
    }
}

/// The position after the last non-white character before `j`.
pub open spec fn back_white(s: Seq<char>, j: int) -> int
    decreases j,
{
    if 0 < j <= s.len() && whitespace(s[j - 1]) {
        back_white(s, j - 1)
    } else {
        j
    }
}

/// Without leading white space.
pub open spec fn ltrim(s: Seq<char>) -> Seq<char> {
    s.skip(skip_white(s, 0))
}

/// Without trailing white space.
pub open spec fn rtrim(s: Seq<char>) -> Seq<char> {
    s.take(back_white(s, s.len() as int))
}

/// Without white space at either end.
pub open spec fn trimmed(s: Seq<char>) -> Seq<char> {
    rtrim(ltrim(s))
}

/// The first position from `i` on whose character is not in `set`.
pub open spec fn skip_set(s: Seq<char>, set: Seq<char>, i: int) -> int
    decreases s.len() - i,
{
    if 0 <= i < s.len() && set.contains(s[i]) {
        skip_set(s, set, i + 1)
    } else {
        i
    }
}

/// The position after the last character before `j` that is not in `set`.
pub open spec fn back_set(s: Seq<char>, set: Seq<char>, j: int) -> int
    decreases j,
{
    if 0 < j <= s.len() && set.contains(s[j - 1]) {
        back_set(s, set, j - 1)
    } else {
        j
    }
}

/// Without leading characters of `set`.
pub open spec fn lstrip(s: Seq<char>, set: Seq<char>) -> Seq<char> {
    s.skip(skip_set(s, set, 0))
}

/// Without trailing characters of `set`.
pub open spec fn rstrip(s: Seq<char>, set: Seq<char>) -> Seq<char> {
    s.take(back_set(s, set, s.len() as int))
}

pub fn trim_start<'a>(s: &'a [char]) -> (r: &'a [char])
    ensures
        r@ == ltrim(s@),
{
    let mut i: usize = 0;
    while i < s.len() && is_whitespace(s[i])
        invariant
            i <= s.len(),
            skip_white(s@, 0) == skip_white(s@, i as int),
        decreases s.len() - i,
    {
        i += 1;
    }
    slice_subrange(s, i, s.len())
}

pub fn trim_end<'a>(s: &'a [char]) -> (r: &'a [char])
    ensures
        r@ == rtrim(s@),
{
    let mut j: usize = s.len();
    while 0 < j && is_whitespace(s[j - 1])
        invariant
            j <= s.len(),
            back_white(s@, s@.len() as int) == back_white(s@, j as int),
        decreases j,
    {
        j -= 1;
    }
    slice_subrange(s, 0, j)
}

pub fn trim<'a>(s: &'a [char]) -> (r: &'a [char])
    ensures
        r@ == trimmed(s@),
{
    trim_end(trim_start(s))
}

fn in_set(c: char, set: &[char]) -> (r: bool)
    ensures
        r == set@.contains(c),
{
    let mut i: usize = 0;
    while i < set.len()
        invariant
            i <= set.len(),
            forall|k: int| 0 <= k < i ==> set@[k] != c,
        decreases set.len() - i,
    {
        if set[i] == c {
            assert(set@[i as int] == c);
            return true;
        }
        i += 1;
    }
    false
}

#[verifier::loop_isolation(false)]
pub fn strip_start<'a>(s: &'a [char], set: &str) -> (r: &'a [char])
    ensures
        r@ == lstrip(s@, set@),
{
    let set: Vec<char> = chars(set);
    let mut i: usize = 0;
    while i < s.len() && in_set(s[i], set.as_slice())
        invariant
            i <= s.len(),
            skip_set(s@, set@, 0) == skip_set(s@, set@, i as int),
        decreases s.len() - i,
    {
        i += 1;
    }
    slice_subrange(s, i, s.len())
}

#[verifier::loop_isolation(false)]
pub fn strip_end<'a>(s: &'a [char], set: &str) -> (r: &'a [char])
    ensures
        r@ == rstrip(s@, set@),
{
    let set: Vec<char> = chars(set);
    let mut j: usize = s.len();
    while 0 < j && in_set(s[j - 1], set.as_slice())
        invariant
            j <= s.len(),
            back_set(s@, set@, s@.len() as int) == back_set(s@, set@, j as int),
        decreases j,
    {
        j -= 1;
    }
    slice_subrange(s, 0, j)
}

// ---------------------------------------------------------- searching ----

/// `s` begins with `p`.
pub open spec fn starts(s: Seq<char>, p: Seq<char>) -> bool {
    p.len() <= s.len() && s.take(p.len() as int) == p
}

/// `s` ends with `p`.
pub open spec fn ends(s: Seq<char>, p: Seq<char>) -> bool {
    p.len() <= s.len() && s.skip(s.len() - p.len()) == p
}

/// The rest of `s` after the prefix `p`.
pub open spec fn after_prefix(s: Seq<char>, p: Seq<char>) -> Option<Seq<char>> {
    if starts(s, p) {
        Some(s.skip(p.len() as int))
    } else {
        None
    }
}

/// The part of `s` before the suffix `p`.
pub open spec fn before_suffix(s: Seq<char>, p: Seq<char>) -> Option<Seq<char>> {
    if ends(s, p) {
        Some(s.take(s.len() - p.len()))
    } else {
        None
    }
}

/// The first position from `i` on at which `p` occurs.
pub open spec fn find(s: Seq<char>, p: Seq<char>, i: int) -> Option<int>
    decreases s.len() - i + 1,
{
    if i < 0 || i + p.len() > s.len() {
        None
    } else if s.subrange(i, i + p.len()) == p {
        Some(i)
    } else {
        find(s, p, i + 1)
    }
}

/// `p` occurs in `s`.
pub open spec fn contains(s: Seq<char>, p: Seq<char>) -> bool {
    find(s, p, 0) is Some
}

/// The parts of `s` before and after the first occurrence of `p`.
pub open spec fn split_once_at(s: Seq<char>, p: Seq<char>) -> Option<(Seq<char>, Seq<char>)> {
    match find(s, p, 0) {
        Some(i) => Some((s.take(i), s.skip(i + p.len()))),
        None => None,
    }
}

/// The first position from `i` on whose character is in `set`.
pub open spec fn find_set(s: Seq<char>, set: Seq<char>, i: int) -> Option<int>
    decreases s.len() - i,
{
    if i < 0 || i >= s.len() {
        None
    } else if set.contains(s[i]) {
        Some(i)
    } else {
        find_set(s, set, i + 1)
    }
}

/// The last position before `j` whose character is in `set`.
pub open spec fn rfind_set(s: Seq<char>, set: Seq<char>, j: int) -> Option<int>
    decreases j,
{
    if j <= 0 || j > s.len() {
        None
    } else if set.contains(s[j - 1]) {
        Some(j - 1)
    } else {
        rfind_set(s, set, j - 1)
    }
}

/// The pieces of `s` from `i` on, cut at the characters of `set`.
pub open spec fn split_set(s: Seq<char>, set: Seq<char>, i: int) -> Seq<Seq<char>>
    decreases s.len() - i,
{
    match find_set(s, set, i) {
        Some(j) => if i <= j < s.len() {
            seq![s.subrange(i, j)] + split_set(s, set, j + 1)
        } else {
            seq![]
        },
        None => seq![s.skip(i)],
    }
}

pub fn starts_with(s: &[char], p: &str) -> (r: bool)
    ensures
        r == starts(s@, p@),
{
    let p: Vec<char> = chars(p);
    if p.len() > s.len() {
        return false;
    }
    same_chars(slice_subrange(s, 0, p.len()), p.as_slice())
}

pub fn ends_with(s: &[char], p: &str) -> (r: bool)
    ensures
        r == ends(s@, p@),
{
    let p: Vec<char> = chars(p);
    if p.len() > s.len() {
        return false;
    }
    same_chars(slice_subrange(s, s.len() - p.len(), s.len()), p.as_slice())
}

/// What the optional slice holds.
pub open spec fn slice_option(s: Option<&[char]>) -> Option<Seq<char>> {
    match s {
        Some(t) => Some(t@),
        None => None,
    }
}

pub fn strip_prefix<'a>(s: &'a [char], p: &str) -> (r: Option<&'a [char]>)
    ensures
        slice_option(r) == after_prefix(s@, p@),
{
    let p: Vec<char> = chars(p);
    if p.len() > s.len() {
        return None;
    }
    if same_chars(slice_subrange(s, 0, p.len()), p.as_slice()) {
        Some(slice_subrange(s, p.len(), s.len()))
    } else {
        None
    }
}

pub fn strip_suffix<'a>(s: &'a [char], p: &str) -> (r: Option<&'a [char]>)
    ensures
        slice_option(r) == before_suffix(s@, p@),
{
    let p: Vec<char> = chars(p);
    if p.len() > s.len() {
        return None;
    }
    let k: usize = s.len() - p.len();
    if same_chars(slice_subrange(s, k, s.len()), p.as_slice()) {
        Some(slice_subrange(s, 0, k))
    } else {
        None
    }
}

/// A position as the specification counts it.
pub open spec fn position(r: Option<usize>) -> Option<int> {
    match r {
        Some(i) => Some(i as int),
        None => None,
    }
}

pub proof fn lemma_find_bounds(s: Seq<char>, p: Seq<char>, i: int)
    ensures
        find(s, p, i) matches Some(j) ==> 0 <= i <= j && j + p.len() <= s.len() && s.subrange(
            j,
            j + p.len(),
        ) == p,
    decreases s.len() - i + 1,
{
    if i < 0 || i + p.len() > s.len() {
    } else if s.subrange(i, i + p.len()) == p {
    } else {
        lemma_find_bounds(s, p, i + 1);
    }
}

pub proof fn lemma_find_set_bounds(s: Seq<char>, set: Seq<char>, i: int)
    ensures
        find_set(s, set, i) matches Some(j) ==> 0 <= i <= j < s.len() && set.contains(s[j]),
    decreases s.len() - i,
{
    if i < 0 || i >= s.len() {
    } else if set.contains(s[i]) {
    } else {
        lemma_find_set_bounds(s, set, i + 1);
    }
}

/// A character of `set` at `k` is found at `k` or after it.
pub proof fn lemma_rfind_set_bounds(s: Seq<char>, set: Seq<char>, j: int, k: int)
    requires
        0 <= k < j <= s.len(),
        set.contains(s[k]),
    ensures
        rfind_set(s, set, j) matches Some(i) && k <= i < j,
    decreases j,
{
    if !set.contains(s[j - 1]) {
        lemma_rfind_set_bounds(s, set, j - 1, k);
    }
}

#[verifier::loop_isolation(false)]
pub fn find_at(s: &[char], p: &str, from: usize) -> (r: Option<usize>)
    requires
        from <= s@.len(),
    ensures
        position(r) == find(s@, p@, from as int),
        r matches Some(j) ==> from <= j && j + p@.len() <= s@.len(),
{
    let p: Vec<char> = chars(p);
    let mut i: usize = from;
    while p.len() <= s.len() - i
        invariant
            from <= i <= s.len(),
            find(s@, p@, from as int) == find(s@, p@, i as int),
        decreases s.len() - i,
    {
        if same_chars(slice_subrange(s, i, i + p.len()), p.as_slice()) {
            return Some(i);
        }
        if i == s.len() {
            assert(find(s@, p@, i + 1) is None);
            return None;
        }
        i += 1;
    }
    None
}

pub fn has(s: &[char], p: &str) -> (r: bool)
    ensures
        r == contains(s@, p@),
{
    find_at(s, p, 0).is_some()
}

/// What the optional pair of slices holds.
pub open spec fn slice_pair(s: Option<(&[char], &[char])>) -> Option<(Seq<char>, Seq<char>)> {
    match s {
        Some((a, b)) => Some((a@, b@)),
        None => None,
    }
}

pub fn split_once<'a>(s: &'a [char], p: &str) -> (r: Option<(&'a [char], &'a [char])>)
    ensures
        slice_pair(r) == split_once_at(s@, p@),
{
    let total: usize = s.len();
    match find_at(s, p, 0) {
        Some(i) => {
            let pattern: Vec<char> = chars(p);
            let n: usize = pattern.len();
            Some((slice_subrange(s, 0, i), slice_subrange(s, i + n, total)))
        },
        None => None,
    }
}

#[verifier::loop_isolation(false)]
pub fn find_any(s: &[char], set: &str, from: usize) -> (r: Option<usize>)
    requires
        from <= s@.len(),
    ensures
        position(r) == find_set(s@, set@, from as int),
        r matches Some(j) ==> from <= j < s@.len() && set@.contains(s@[j as int]),
{
    let set: Vec<char> = chars(set);
    let mut i: usize = from;
    while i < s.len()
        invariant
            from <= i <= s.len(),
            find_set(s@, set@, from as int) == find_set(s@, set@, i as int),
        decreases s.len() - i,
    {
        if in_set(s[i], set.as_slice()) {
            return Some(i);
        }
        i += 1;
    }
    None
}

#[verifier::loop_isolation(false)]
pub fn rfind_any(s: &[char], set: &str) -> (r: Option<usize>)
    ensures
        position(r) == rfind_set(s@, set@, s@.len() as int),
        r matches Some(j) ==> j < s@.len() && set@.contains(s@[j as int]),
{
    let set: Vec<char> = chars(set);
    let mut j: usize = s.len();
    while 0 < j
        invariant
            j <= s.len(),
            rfind_set(s@, set@, s@.len() as int) == rfind_set(s@, set@, j as int),
        decreases j,
    {
        if in_set(s[j - 1], set.as_slice()) {
            return Some(j - 1);
        }
        j -= 1;
    }
    None
}

/// The texts that a list of slices holds.
pub open spec fn slices(v: Seq<&[char]>) -> Seq<Seq<char>> {
    Seq::new(v.len(), |i: int| v[i]@)
}

#[verifier::loop_isolation(false)]
pub fn split_any<'a>(s: &'a [char], set: &str) -> (r: Vec<&'a [char]>)
    ensures
        slices(r@) == split_set(s@, set@, 0),
        r@.len() > 0,
{
    let mut out: Vec<&'a [char]> = Vec::new();
    let mut i: usize = 0;
    loop
        invariant
            i <= s.len(),
            slices(out@) + split_set(s@, set@, i as int) == split_set(s@, set@, 0),
        decreases s.len() - i,
    {
        let ghost before = slices(out@);
        match find_any(s, set, i) {
            Some(j) => {
                let piece: &'a [char] = slice_subrange(s, i, j);
                out.push(piece);
                assert(slices(out@) == before.push(piece@));
                assert(before + (seq![piece@] + split_set(s@, set@, j + 1)) == before.push(piece@)
                    + split_set(s@, set@, j + 1));
                i = j + 1;
            },
            None => {
                let piece: &'a [char] = slice_subrange(s, i, s.len());
                out.push(piece);
                assert(slices(out@) == before + seq![piece@]);
                return out;
            },
        }
    }
}

// ---------------------------------------------------- lines and joins ----

/// A line without the carriage return before its line feed.
pub open spec fn without_cr(s: Seq<char>) -> Seq<char> {
    if s.len() > 0 && s.last() == '\r' {
        s.drop_last()
    } else {
        s
    }
}

/// The first position from `i` on that holds a line feed.
pub open spec fn line_feed(s: Seq<char>, i: int) -> Option<int>
    decreases s.len() - i,
{
    if i < 0 || i >= s.len() {
        None
    } else if s[i] == '\n' {
        Some(i)
    } else {
        line_feed(s, i + 1)
    }
}

/// The lines of `s` from `i` on. A line ends at a line feed, and a carriage
/// return right before the line feed is no part of the line; the last line
/// needs no line feed.
pub open spec fn lines(s: Seq<char>, i: int) -> Seq<Seq<char>>
    decreases s.len() - i,
{
    if i < 0 || i >= s.len() {
        seq![]
    } else {
        match line_feed(s, i) {
            Some(j) => if i <= j < s.len() {
                seq![without_cr(s.subrange(i, j))] + lines(s, j + 1)
            } else {
                seq![]
            },
            None => seq![s.skip(i)],
        }
    }
}

pub fn find_line_feed(s: &[char], from: usize) -> (r: Option<usize>)
    requires
        from <= s@.len(),
    ensures
        position(r) == line_feed(s@, from as int),
        r matches Some(j) ==> from <= j < s@.len(),
{
    let mut i: usize = from;
    while i < s.len()
        invariant
            from <= i <= s.len(),
            line_feed(s@, from as int) == line_feed(s@, i as int),
        decreases s.len() - i,
    {
        if s[i] == '\n' {
            return Some(i);
        }
        i += 1;
    }
    None
}

pub fn split_lines<'a>(s: &'a [char]) -> (r: Vec<&'a [char]>)
    ensures
        slices(r@) == lines(s@, 0),
{
    let mut out: Vec<&'a [char]> = Vec::new();
    let mut i: usize = 0;
    while i < s.len()
        invariant
            i <= s.len(),
            slices(out@) + lines(s@, i as int) == lines(s@, 0),
        decreases s.len() - i,
    {
        let ghost before = slices(out@);
        match find_line_feed(s, i) {
            Some(j) => {
                let mut piece: &'a [char] = slice_subrange(s, i, j);
                if piece.len() > 0 && piece[piece.len() - 1] == '\r' {
                    piece = slice_subrange(piece, 0, piece.len() - 1);
                }
                assert(piece@ == without_cr(s@.subrange(i as int, j as int)));
                out.push(piece);
                assert(slices(out@) == before.push(piece@));
                assert(before + (seq![piece@] + lines(s@, j + 1)) == before.push(piece@) + lines(
                    s@,
                    j + 1,
                ));
                i = j + 1;
            },
            None => {
                let piece: &'a [char] = slice_subrange(s, i, s.len());
                out.push(piece);
                assert(slices(out@) == before + seq![piece@]);
                return out;
            },
        }
    }
    assert(slices(out@) + lines(s@, i as int) == slices(out@));
    out
}

/// The parts put together with `sep` between neighbours.
pub open spec fn joined(parts: Seq<Seq<char>>, sep: Seq<char>) -> Seq<char>
    decreases parts.len(),
{
    if parts.len() == 0 {
        seq![]
    } else if parts.len() == 1 {
        parts[0]
    } else {
        joined(parts.drop_last(), sep) + sep + parts.last()
    }
}

/// The texts that a list of strings holds.
pub open spec fn texts(v: Seq<String>) -> Seq<Seq<char>> {
    Seq::new(v.len(), |i: int| v[i]@)
}

pub fn join(parts: &Vec<String>, sep: &str) -> (r: String)
    ensures
        r@ == joined(texts(parts@), sep@),
{
    let mut out: String = String::new();
    let mut i: usize = 0;
    while i < parts.len()
        invariant
            i <= parts.len(),
            out@ == joined(texts(parts@).take(i as int), sep@),
        decreases parts.len() - i,
    {
        let ghost all = texts(parts@);
        if i > 0 {
            out.append(sep);
        }
        out.append(parts[i].as_str());
        assert(all.take(i + 1).drop_last() == all.take(i as int));
        assert(all.take(i + 1).last() == parts@[i as int]@);
        if i == 0 {
            assert(out@ == parts@[0]@);
        }
        i += 1;
    }
    assert(texts(parts@).take(parts@.len() as int) == texts(parts@));
    out
}

/// What an optional string slice holds.
pub open spec fn opt_str(v: Option<&str>) -> Option<Seq<char>> {
    match v {
        Some(w) => Some(w@),
        None => None,
    }
}

/// What an optional string holds.
pub open spec fn opt_text(s: Option<String>) -> Option<Seq<char>> {
    match s {
        Some(t) => Some(t@),
        None => None,
    }
}

/// What a result of text holds.
pub open spec fn text_result(r: Result<String, String>) -> Result<Seq<char>, Seq<char>> {
    match r {
        Ok(t) => Ok(t@),
        Err(e) => Err(e@),
    }
}

/// The texts that a list of string pairs holds.
pub open spec fn pairs(v: Seq<(String, String)>) -> Seq<(Seq<char>, Seq<char>)> {
    Seq::new(v.len(), |i: int| (v[i].0@, v[i].1@))
}

pub fn join_slices(parts: &Vec<&[char]>, sep: &str) -> (r: String)
    ensures
        r@ == joined(slices(parts@), sep@),
{
    let mut out: String = String::new();
    let mut i: usize = 0;
    while i < parts.len()
        invariant
            i <= parts.len(),
            out@ == joined(slices(parts@).take(i as int), sep@),
        decreases parts.len() - i,
    {
        let ghost all = slices(parts@);
        if i > 0 {
            out.append(sep);
        }
        let part: String = string(parts[i]);
        out.append(part.as_str());
        assert(all.take(i + 1).drop_last() == all.take(i as int));
        assert(all.take(i + 1).last() == parts@[i as int]@);
        if i == 0 {
            assert(out@ == parts@[0]@);
        }
        i += 1;
    }
    assert(slices(parts@).take(parts@.len() as int) == slices(parts@));
    out
}

// -------------------------------------------------------------- words ----

/// The first position from `i` on that holds white space.
pub open spec fn word_end(s: Seq<char>, i: int) -> int
    decreases s.len() - i,
{
    if 0 <= i < s.len() && !whitespace(s[i]) {
        word_end(s, i + 1)
    } else {
        i
    }
}

/// The first word from `i` on, and the position after it.
pub open spec fn word(s: Seq<char>, i: int) -> Option<(Seq<char>, int)> {
    let a = skip_white(s, i);
    if 0 <= a < s.len() {
        Some((s.subrange(a, word_end(s, a)), word_end(s, a)))
    } else {
        None
    }
}

pub open spec fn has_white(s: Seq<char>) -> bool {
    exists|k: int| 0 <= k < s.len() && whitespace(#[trigger] s[k])
}

pub fn has_whitespace(s: &[char]) -> (r: bool)
    ensures
        r == has_white(s@),
{
    let mut i: usize = 0;
    while i < s.len()
        invariant
            i <= s.len(),
            forall|k: int| 0 <= k < i ==> !whitespace(#[trigger] s@[k]),
        decreases s.len() - i,
    {
        if is_whitespace(s[i]) {
            return true;
        }
        i += 1;
    }
    false
}

pub fn next_word<'a>(s: &'a [char], from: usize) -> (r: Option<(&'a [char], usize)>)
    requires
        from <= s@.len(),
    ensures
        r is Some <==> word(s@, from as int) is Some,
        r matches Some((w, p)) ==> p <= s@.len() && word(s@, from as int) == Some((w@, p as int)),
{
    let mut a: usize = from;
    while a < s.len() && is_whitespace(s[a])
        invariant
            from <= a <= s.len(),
            skip_white(s@, from as int) == skip_white(s@, a as int),
        decreases s.len() - a,
    {
        a += 1;
    }
    if a == s.len() {
        return None;
    }
    let mut b: usize = a;
    while b < s.len() && !is_whitespace(s[b])
        invariant
            a <= b <= s.len(),
            word_end(s@, a as int) == word_end(s@, b as int),
        decreases s.len() - b,
    {
        b += 1;
    }
    Some((slice_subrange(s, a, b), b))
}

pub proof fn lemma_trim_bounds(s: Seq<char>)
    ensures
        0 <= skip_white(s, 0) <= s.len(),
        0 <= back_white(s, s.len() as int) <= s.len(),
        skip_white(s, 0) < s.len() ==> !whitespace(s[skip_white(s, 0)]),
        back_white(s, s.len() as int) > 0 ==> !whitespace(s[back_white(s, s.len() as int) - 1]),
{
    lemma_skip_white(s, 0);
    lemma_back_white(s, s.len() as int);
}

pub proof fn lemma_skip_white(s: Seq<char>, i: int)
    requires
        0 <= i <= s.len(),
    ensures
        i <= skip_white(s, i) <= s.len(),
        skip_white(s, i) < s.len() ==> !whitespace(s[skip_white(s, i)]),
    decreases s.len() - i,
{
    if i < s.len() && whitespace(s[i]) {
        lemma_skip_white(s, i + 1);
    }
}

pub proof fn lemma_back_white(s: Seq<char>, j: int)
    requires
        0 <= j <= s.len(),
    ensures
        0 <= back_white(s, j) <= j,
        back_white(s, j) > 0 ==> !whitespace(s[back_white(s, j) - 1]),
    decreases j,
{
    if 0 < j && whitespace(s[j - 1]) {
        lemma_back_white(s, j - 1);
    }
}

/// A trimmed text that is not empty begins with a word.
pub proof fn lemma_trimmed_word(s: Seq<char>)
    requires
        trimmed(s).len() > 0,
    ensures
        word(trimmed(s), 0) is Some,
        !whitespace(trimmed(s)[0]),
{
    lemma_trim_bounds(s);
    lemma_trim_bounds(ltrim(s));
}

// ------------------------------------------------------------ numbers ----

/// The character of a decimal or hexadecimal digit.
pub open spec fn digit_char(d: nat) -> char {
    if d < 10 {
        (48 + d) as char
    } else {
        (87 + d) as char
    }
}

pub fn to_digit_char(d: u64) -> (r: char)
    requires
        d < 16,
    ensures
        r == digit_char(d as nat),
{
    if d < 10 {
        (48 + d as u8) as char
    } else {
        (87 + d as u8) as char
    }
}

/// Decimal notation without leading zeros.
pub open spec fn decimal(n: nat) -> Seq<char>
    decreases n,
{
    if n < 10 {
        seq![digit_char(n)]
    } else {
        decimal(n / 10).push(digit_char(n % 10))
    }
}

/// Decimal notation of an integer.
pub fn decimal_string(n: u64) -> (r: String)
    ensures
        r@ == decimal(n as nat),
    decreases n,
{
    let mut out: String = if n < 10 {
        String::new()
    } else {
        decimal_string(n / 10)
    };
    out.push(to_digit_char(n % 10));
    assert(n < 10 ==> out@ == seq![digit_char(n as nat)]);
    out
}

/// `s` brought to at least `width` characters by zeros in front.
pub open spec fn zero_padded(s: Seq<char>, width: nat) -> Seq<char> {
    if s.len() >= width {
        s
    } else {
        Seq::new((width - s.len()) as nat, |i: int| '0') + s
    }
}

/// Decimal notation of at least `width` digits.
pub fn padded_string(n: u64, width: usize) -> (r: String)
    ensures
        r@ == zero_padded(decimal(n as nat), width as nat),
{
    let digits: Vec<char> = chars(decimal_string(n).as_str());
    let mut out: String = String::new();
    let mut k: usize = digits.len();
    while k < width
        invariant
            digits@ == decimal(n as nat),
            digits.len() <= width ==> digits.len() <= k <= width,
            digits.len() > width ==> k == digits.len(),
            out@ == Seq::new((k - digits.len()) as nat, |i: int| '0'),
        decreases width - k,
    {
        out.push('0');
        k += 1;
        assert(out@ =~= Seq::new((k - digits.len()) as nat, |i: int| '0'));
    }
    let tail: String = string(digits.as_slice());
    out.append(tail.as_str());
    assert(out@ =~= zero_padded(decimal(n as nat), width as nat));
    out
}

/// The value of a digit in the given radix (10 or 16).
pub open spec fn digit_value(c: char, radix: nat) -> Option<nat> {
    if '0' <= c <= '9' {
        Some((c as u32 - 48) as nat)
    } else if radix == 16 && 'a' <= c <= 'f' {
        Some((c as u32 - 87) as nat)
    } else if radix == 16 && 'A' <= c <= 'F' {
        Some((c as u32 - 55) as nat)
    } else {
        None
    }
}

/// The value of a run of digits, most significant first.
pub open spec fn digits_value(s: Seq<char>, radix: nat) -> Option<nat>
    decreases s.len(),
{
    if s.len() == 0 {
        Some(0)
    } else {
        match (digits_value(s.drop_last(), radix), digit_value(s.last(), radix)) {
            (Some(a), Some(d)) => Some(a * radix + d),
            _ => None,
        }
    }
}

/// An unsigned integer in text: an optional plus sign, then at least one
/// digit, with a value of at most `max`.
pub open spec fn unsigned(s: Seq<char>, radix: nat, max: nat) -> Option<nat> {
    let t = if s.len() > 0 && s[0] == '+' {
        s.drop_first()
    } else {
        s
    };
    if t.len() == 0 {
        None
    } else {
        match digits_value(t, radix) {
            Some(v) => if v <= max {
                Some(v)
            } else {
                None
            },
            None => None,
        }
    }
}

proof fn lemma_digits_prefix(s: Seq<char>, radix: nat, i: int)
    requires
        radix >= 1,
        0 <= i <= s.len(),
    ensures
        digits_value(s.take(i), radix) is None ==> digits_value(s, radix) is None,
        (digits_value(s.take(i), radix) matches Some(a) ==> (digits_value(s, radix) matches Some(v)
            ==> v >= a)),
    decreases s.len(),
{
    if i == s.len() {
        assert(s.take(i) == s);
    } else {
        lemma_digits_prefix(s.drop_last(), radix, i);
        assert(s.drop_last().take(i) == s.take(i));
        if digits_value(s, radix) is Some {
            let a = digits_value(s.drop_last(), radix)->0;
            assert(a * radix >= a) by (nonlinear_arith)
                requires
                    radix >= 1,
                    a >= 0,
            ;
        }
    }
}

fn char_digit(c: char, radix: u64) -> (r: Option<u64>)
    ensures
        r is Some <==> digit_value(c, radix as nat) is Some,
        r matches Some(d) ==> d < 16 && digit_value(c, radix as nat) == Some(d as nat),
{
    if '0' <= c && c <= '9' {
        Some((c as u32 - 48) as u64)
    } else if radix == 16 && 'a' <= c && c <= 'f' {
        Some((c as u32 - 87) as u64)
    } else if radix == 16 && 'A' <= c && c <= 'F' {
        Some((c as u32 - 55) as u64)
    } else {
        None
    }
}

/// Read an unsigned integer of at most `max`.
#[verifier::loop_isolation(false)]
pub fn parse_unsigned(s: &[char], radix: u64, max: u64) -> (r: Option<u64>)
    requires
        radix == 10 || radix == 16,
    ensures
        r is Some <==> unsigned(s@, radix as nat, max as nat) is Some,
        r matches Some(v) ==> v <= max && unsigned(s@, radix as nat, max as nat) == Some(v as nat),
{
    let t: &[char] = if s.len() > 0 && s[0] == '+' {
        slice_subrange(s, 1, s.len())
    } else {
        s
    };
    if s.len() > 0 && s[0] == '+' {
        assert(t@ == s@.drop_first());
    }
    if t.len() == 0 {
        return None;
    }
    let mut acc: u64 = 0;
    let mut i: usize = 0;
    while i < t.len()
        invariant
            i <= t.len(),
            acc <= max,
            radix == 10 || radix == 16,
            digits_value(t@.take(i as int), radix as nat) == Some(acc as nat),
        decreases t.len() - i,
    {
        assert(t@.take(i + 1).drop_last() == t@.take(i as int));
        assert(t@.take(i + 1).last() == t@[i as int]);
        match char_digit(t[i], radix) {
            Some(d) => {
                let next: u128 = acc as u128 * radix as u128 + d as u128;
                assert(digits_value(t@.take(i + 1), radix as nat) == Some(next as nat));
                if next > max as u128 {
                    proof {
                        lemma_digits_prefix(t@, radix as nat, i + 1);
                    }
                    return None;
                }
                acc = next as u64;
            },
            None => {
                proof {
                    lemma_digits_prefix(t@, radix as nat, i + 1);
                }
                return None;
            },
        }
        i += 1;
    }
    assert(t@.take(t@.len() as int) == t@);
    Some(acc)
}

// ------------------------------------------------------------- lemmas ----

/// Text whose ends hold no white space is trimmed already.
pub proof fn lemma_trimmed_plain(s: Seq<char>)
    requires
        s.len() > 0 ==> !whitespace(s[0]) && !whitespace(s.last()),
    ensures
        trimmed(s) == s,
{
    assert(s.skip(0) =~= s);
    assert(s.take(s.len() as int) =~= s);
}

/// Nothing of `set` occurs from `i` on.
pub proof fn lemma_find_set_none(s: Seq<char>, set: Seq<char>, i: int)
    requires
        forall|k: int| i <= k < s.len() ==> !set.contains(#[trigger] s[k]),
    ensures
        find_set(s, set, i) is None,
    decreases s.len() - i,
{
    if 0 <= i < s.len() {
        lemma_find_set_none(s, set, i + 1);
    }
}

/// The bytes of ASCII text.
pub open spec fn ascii_bytes(s: Seq<char>) -> Seq<u8> {
    Seq::new(s.len(), |i: int| (s[i] as u32) as u8)
}

/// ASCII text takes one byte per character.
pub proof fn lemma_ascii_bytes(s: Seq<char>)
    requires
        forall|k: int| 0 <= k < s.len() ==> (#[trigger] s[k] as u32) < 128,
    ensures
        encode_utf8(s) == ascii_bytes(s),
    decreases s.len(),
{
    if s.len() > 0 {
        let rest = s.drop_first();
        assert forall|k: int| 0 <= k < rest.len() implies (#[trigger] rest[k] as u32) < 128 by {
            assert(rest[k] == s[k + 1]);
        }
        lemma_ascii_bytes(rest);
        let c = s[0] as u32;
        assert(c < 128);
        assert((c & 0x7F) as u8 == c as u8) by (bit_vector)
            requires
                c < 128,
        ;
        assert(encode_scalar(c) =~= seq![c as u8]);
        assert(encode_utf8(s) =~= seq![c as u8] + ascii_bytes(rest));
        assert(encode_utf8(s) =~= ascii_bytes(s));
    } else {
        assert(encode_utf8(s) =~= ascii_bytes(s));
    }
}

/// Hexadecimal notation without leading zeros.
pub open spec fn hexadecimal(n: nat) -> Seq<char>
    decreases n,
{
    if n < 16 {
        seq![digit_char(n)]
    } else {
        hexadecimal(n / 16).push(digit_char(n % 16))
    }
}

/// Hexadecimal notation holds hexadecimal digits and reads back as its value.
pub proof fn lemma_hexadecimal(n: nat)
    ensures
        hexadecimal(n).len() > 0,
        forall|k: int|
            0 <= k < hexadecimal(n).len() ==> digit_value(#[trigger] hexadecimal(n)[k], 16) is Some,
        digits_value(hexadecimal(n), 16) == Some(n),
    decreases n,
{
    let h = hexadecimal(n);
    if n < 16 {
        assert(digit_value(digit_char(n), 16) == Some(n));
        assert(h.drop_last() =~= Seq::<char>::empty());
        assert(digits_value(h.drop_last(), 16) == Some(0nat));
    } else {
        lemma_hexadecimal(n / 16);
        assert(digit_value(digit_char(n % 16), 16) == Some(n % 16));
        assert(h.drop_last() =~= hexadecimal(n / 16));
    }
}

/// Decimal notation holds decimal digits and reads back as its value.
pub proof fn lemma_decimal(n: nat)
    ensures
        decimal(n).len() > 0,
        forall|k: int| 0 <= k < decimal(n).len() ==> ascii_digit(#[trigger] decimal(n)[k]),
        digits_value(decimal(n), 10) == Some(n),
    decreases n,
{
    let h = decimal(n);
    if n < 10 {
        assert(digit_value(digit_char(n), 10) == Some(n));
        assert(h.drop_last() =~= Seq::<char>::empty());
        assert(digits_value(h.drop_last(), 10) == Some(0nat));
    } else {
        lemma_decimal(n / 10);
        assert(digit_value(digit_char(n % 10), 10) == Some(n % 10));
        assert(h.drop_last() =~= decimal(n / 10));
    }
}

/// Two different texts come in one order or the other.
pub proof fn lemma_precedes_total(a: Seq<char>, b: Seq<char>, i: int)
    requires
        0 <= i <= a.len(),
        i <= b.len(),
        a != b,
        forall|k: int| 0 <= k < i ==> a[k] == b[k],
    ensures
        precedes(a, b, i) || precedes(b, a, i),
    decreases a.len() - i,
{
    if i >= a.len() && i >= b.len() {
        assert(a =~= b);
    } else if i < a.len() && i < b.len() && a[i] == b[i] {
        lemma_precedes_total(a, b, i + 1);
    }
}

pub proof fn lemma_precedes_transitive(a: Seq<char>, b: Seq<char>, c: Seq<char>, i: int)
    requires
        precedes(a, b, i),
        precedes(b, c, i),
    ensures
        precedes(a, c, i),
    decreases a.len() - i,
{
    if i < a.len() && i < b.len() && i < c.len() && a[i] == b[i] && b[i] == c[i] {
        lemma_precedes_transitive(a, b, c, i + 1);
    }
}

/// Text splits at the first occurrence of a character.
pub proof fn lemma_split_once(a: Seq<char>, c: char, b: Seq<char>)
    requires
        !a.contains(c),
    ensures
        split_once_at(a + seq![c] + b, seq![c]) == Some((a, b)),
{
    let s = a + seq![c] + b;
    assert(s.take(a.len() as int) =~= a);
    lemma_find_char(s, c, 0, a.len() as int);
    assert(s.skip(a.len() as int + 1) =~= b);
}

proof fn lemma_find_char(s: Seq<char>, c: char, i: int, j: int)
    requires
        0 <= i <= j < s.len(),
        s[j] == c,
        !s.take(j).contains(c),
    ensures
        find(s, seq![c], i) == Some(j),
    decreases j - i,
{
    if i == j {
        assert(s.subrange(i, i + 1) =~= seq![c]);
    } else {
        assert(s.take(j)[i] == s[i]);
        assert(s.subrange(i, i + 1)[0] == s[i]);
        lemma_find_char(s, c, i + 1, j);
    }
}

/// A leading space is trimmed.
pub proof fn lemma_trimmed_after_space(s: Seq<char>)
    requires
        s.len() > 0 ==> !whitespace(s[0]) && !whitespace(s.last()),
    ensures
        trimmed(seq![' '] + s) == s,
{
    let t = seq![' '] + s;
    assert(skip_white(t, 1) == 1) by {
        if s.len() > 0 {
            assert(t[1] == s[0]);
        }
    }
    assert(ltrim(t) =~= s);
    assert(s.take(s.len() as int) =~= s);
}

} // verus!
