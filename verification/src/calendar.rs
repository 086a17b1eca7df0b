//! The civil calendar: days since the Unix epoch and ISO 8601 timestamps.

use crate::text;
use vstd::prelude::*;

verus! {

pub open spec fn leap(year: int) -> bool {
    (year % 4 == 0 && year % 100 != 0) || year % 400 == 0
}

/// Days of a year.
pub open spec fn year_days(year: int) -> int {
    if leap(year) {
        366
    } else {
        365
    }
}

/// Days of a month.
pub open spec fn month_days(year: int, month: int) -> int {
    if month == 2 {
        if leap(year) {
            29
        } else {
            28
        }
    } else if month == 4 || month == 6 || month == 9 || month == 11 {
        30
    } else {
        31
    }
}

/// Days from the start of 1970 to the start of the year.
pub open spec fn days_to_year(year: int) -> int
    decreases year,
{
    if year <= 1970 {
        0
    } else {
        days_to_year(year - 1) + year_days(year - 1)
    }
}

/// Days from the start of the year to the start of the month.
pub open spec fn days_to_month(year: int, month: int) -> int
    decreases month,
{
    if month <= 1 {
        0
    } else {
        days_to_month(year, month - 1) + month_days(year, month - 1)
    }
}

/// A day of the calendar from 1970 on.
pub open spec fn is_date(year: int, month: int, day: int) -> bool {
    1970 <= year && 1 <= month <= 12 && 1 <= day <= month_days(year, month)
}

/// Days from 1970-01-01 to the date.
pub open spec fn day_number(year: int, month: int, day: int) -> int {
    days_to_year(year) + days_to_month(year, month) + day - 1
}

/// Two digits.
pub open spec fn two(n: nat) -> Seq<char> {
    text::zero_padded(text::decimal(n), 2)
}

/// `YYYY-MM-DDThh:mm:ssZ`, with the time of day given in seconds.
pub open spec fn timestamp(year: int, month: int, day: int, seconds: nat) -> Seq<char> {
    text::zero_padded(text::decimal(year as nat), 4) + "-"@ + two(month as nat) + "-"@ + two(
        day as nat,
    ) + "T"@ + two(seconds / 3600) + ":"@ + two((seconds % 3600) / 60) + ":"@ + two(seconds % 60)
        + "Z"@
}

/// The date that lies the given number of days after 1970-01-01.
pub open spec fn date_of(days: int) -> (int, int, int) {
    choose|year: int, month: int, day: int|
        #![trigger is_date(year, month, day)]
        is_date(year, month, day) && day_number(year, month, day) == days
}

/// The timestamp of a moment, given in seconds since the Unix epoch.
pub open spec fn iso_text(secs: u64) -> Seq<char> {
    let (year, month, day) = date_of(secs as int / 86400);
    timestamp(year, month, day, (secs % 86400) as nat)
}

/// Leap years from year 1 up to and with `year`.
spec fn leaps(year: int) -> int {
    year / 4 - year / 100 + year / 400
}

proof fn lemma_leaps(year: int)
    requires
        year >= 1,
    ensures
        leaps(year) - leaps(year - 1) == (if leap(year) {
            1int
        } else {
            0
        }),
{
}

proof fn lemma_days_to_year(year: int)
    requires
        year >= 1970,
    ensures
        days_to_year(year) == 365 * (year - 1970) + leaps(year - 1) - leaps(1969),
    decreases year,
{
    if year > 1970 {
        lemma_days_to_year(year - 1);
        lemma_leaps(year - 1);
    }
}

proof fn lemma_cycle(c: int)
    requires
        c >= 0,
    ensures
        days_to_year(1970 + 400 * c) == 146097 * c,
{
    lemma_days_to_year(1970 + 400 * c);
}

proof fn lemma_days_to_month(year: int, a: int, b: int)
    requires
        1 <= a <= b <= 13,
    ensures
        a < b ==> days_to_month(year, a) + month_days(year, a) <= days_to_month(year, b),
        days_to_month(year, a) <= days_to_month(year, b),
        days_to_month(year, 13) == year_days(year),
    decreases b,
{
    reveal_with_fuel(days_to_month, 13);
    if a < b {
        lemma_days_to_month(year, a, b - 1);
    }
}

proof fn lemma_years_ordered(a: int, b: int)
    requires
        1970 <= a < b,
    ensures
        days_to_year(a) + year_days(a) <= days_to_year(b),
    decreases b,
{
    if a < b - 1 {
        lemma_years_ordered(a, b - 1);
    }
}

/// No two dates fall on the same day.
pub proof fn law_day_number_is_unique(y1: int, m1: int, d1: int, y2: int, m2: int, d2: int)
    requires
        is_date(y1, m1, d1),
        is_date(y2, m2, d2),
        day_number(y1, m1, d1) == day_number(y2, m2, d2),
    ensures
        y1 == y2 && m1 == m2 && d1 == d2,
{
    lemma_days_to_month(y1, m1, 13);
    lemma_days_to_month(y2, m2, 13);
    lemma_days_to_month(y1, 1, m1);
    lemma_days_to_month(y2, 1, m2);
    if y1 < y2 {
        lemma_years_ordered(y1, y2);
    } else if y2 < y1 {
        lemma_years_ordered(y2, y1);
    } else if m1 < m2 {
        lemma_days_to_month(y1, m1, m2);
    } else if m2 < m1 {
        lemma_days_to_month(y1, m2, m1);
    }
}

fn is_leap(year: u64) -> (r: bool)
    ensures
        r == leap(year as int),
{
    (year % 4 == 0 && year % 100 != 0) || year % 400 == 0
}

fn days_of_year(year: u64) -> (r: u64)
    ensures
        r == year_days(year as int),
{
    if is_leap(year) {
        366
    } else {
        365
    }
}

fn days_of_month(year: u64, month: u64) -> (r: u64)
    ensures
        r == month_days(year as int, month as int),
{
    if month == 2 {
        if is_leap(year) {
            29
        } else {
            28
        }
    } else if month == 4 || month == 6 || month == 9 || month == 11 {
        30
    } else {
        31
    }
}

/// The date that lies `days` days after 1970-01-01.
pub fn civil_date(days: u64) -> (r: (u64, u64, u64))
    requires
        days <= u64::MAX / 86400,
    ensures
        is_date(r.0 as int, r.1 as int, r.2 as int),
        day_number(r.0 as int, r.1 as int, r.2 as int) == days,
        (r.0 as int, r.1 as int, r.2 as int) == date_of(days as int),
{
    let cycle: u64 = days / 146097;
    let mut rest: u64 = days % 146097;
    let mut year: u64 = 1970 + 400 * cycle;
    let ghost first = year as int;
    proof {
        lemma_cycle(cycle as int);
        lemma_cycle(cycle + 1);
    }
    while rest >= days_of_year(year)
        invariant
            days <= u64::MAX / 86400,
            cycle == days / 146097,
            first == 1970 + 400 * cycle,
            first <= year <= first + 400,
            days_to_year(year as int) + rest == days,
            days_to_year(first + 400) == 146097 * (cycle + 1),
        decreases rest,
    {
        proof {
            if year == first + 400 {
                assert(false);
            }
        }
        rest -= days_of_year(year);
        year += 1;
    }
    let mut month: u64 = 1;
    while rest >= days_of_month(year, month)
        invariant
            1970 <= year,
            1 <= month <= 12,
            rest + days_to_month(year as int, month as int) < year_days(year as int),
            days_to_year(year as int) + days_to_month(year as int, month as int) + rest == days,
        decreases rest,
    {
        proof {
            if month == 12 {
                lemma_days_to_month(year as int, 12, 13);
                assert(false);
            }
        }
        rest -= days_of_month(year, month);
        month += 1;
    }
    proof {
        assert(is_date(year as int, month as int, rest + 1));
        let (y, m, d) = date_of(days as int);
        law_day_number_is_unique(year as int, month as int, rest + 1, y, m, d);
    }
    (year, month, rest + 1)
}

/// Format a Unix timestamp as `YYYY-MM-DDThh:mm:ssZ`.
pub fn iso_utc(secs: u64) -> (r: String)
    ensures
        r@ == iso_text(secs),
{
    let (year, month, day): (u64, u64, u64) = civil_date(secs / 86400);
    let rem: u64 = secs % 86400;
    let mut out: String = text::padded_string(year, 4);
    out.append("-");
    out.append(text::padded_string(month, 2).as_str());
    out.append("-");
    out.append(text::padded_string(day, 2).as_str());
    out.append("T");
    out.append(text::padded_string(rem / 3600, 2).as_str());
    out.append(":");
    out.append(text::padded_string((rem % 3600) / 60, 2).as_str());
    out.append(":");
    out.append(text::padded_string(rem % 60, 2).as_str());
    out.append("Z");
    assert(out@ =~= timestamp(year as int, month as int, day as int, rem as nat));
    out
}

// --------------------------------------------------------------- laws ----

/// Every day from 1970 on has a date.
proof fn lemma_date_exists(days: int) -> (r: (int, int, int))
    requires
        days >= 0,
    ensures
        is_date(r.0, r.1, r.2),
        day_number(r.0, r.1, r.2) == days,
    decreases days,
{
    if days == 0 {
        assert(day_number(1970, 1, 1) == 0);
        (1970, 1, 1)
    } else {
        let (y, m, d) = lemma_date_exists(days - 1);
        lemma_days_to_month(y, m, 13);
        if d < month_days(y, m) {
            (y, m, d + 1)
        } else if m < 12 {
            (y, m + 1, 1)
        } else {
            (y + 1, 1, 1)
        }
    }
}

/// The date of a day is a date, and the one that falls on the day.
pub proof fn law_every_day_has_a_date(days: int)
    requires
        days >= 0,
    ensures
        ({
            let (year, month, day) = date_of(days);
            is_date(year, month, day) && day_number(year, month, day) == days
        }),
{
    let (y, m, d) = lemma_date_exists(days);
    assert(is_date(y, m, d) && day_number(y, m, d) == days);
}

pub(crate) proof fn lemma_two(n: nat)
    requires
        n < 100,
    ensures
        two(n) == seq![text::digit_char(n / 10), text::digit_char(n % 10)],
{
    if n < 10 {
        assert(two(n) =~= seq![text::digit_char(n / 10), text::digit_char(n % 10)]);
    } else {
        assert(text::decimal(n / 10) =~= seq![text::digit_char(n / 10)]);
        assert(two(n) =~= seq![text::digit_char(n / 10), text::digit_char(n % 10)]);
    }
}

pub(crate) proof fn lemma_four(n: nat)
    requires
        1000 <= n < 10000,
    ensures
        text::zero_padded(text::decimal(n), 4) == two(n / 100) + two(n % 100),
{
    lemma_two(n / 100);
    lemma_two(n % 100);
    let (a, b) = (n / 10, n / 100);
    assert(a / 10 == b && b / 10 == n / 1000 && n / 1000 < 10);
    assert(text::decimal(b / 10) =~= seq![text::digit_char(b / 10)]);
    assert(text::decimal(b) =~= seq![text::digit_char(b / 10), text::digit_char(b % 10)]);
    assert(text::decimal(a) =~= text::decimal(b).push(text::digit_char(a % 10)));
    assert(text::decimal(n) =~= text::decimal(a).push(text::digit_char(n % 10)));
    assert(a % 10 == (n % 100) / 10 && n % 10 == (n % 100) % 10);
    assert(text::decimal(n) =~= two(n / 100) + two(n % 100));
}

proof fn lemma_two_grows(m: nat, n: nat)
    requires
        m < n < 100,
    ensures
        text::precedes(two(m), two(n), 0),
{
    lemma_two(m);
    lemma_two(n);
    reveal_with_fuel(text::precedes, 3);
    let (a, b) = (m / 10, n / 10);
    if a == b {
        assert(m % 10 < n % 10);
    }
}

proof fn lemma_precedes_from(p: Seq<char>, a: Seq<char>, b: Seq<char>, i: int)
    requires
        0 <= i,
    ensures
        text::precedes(p + a, p + b, p.len() + i) == text::precedes(a, b, i),
    decreases a.len() - i,
{
    let x = p + a;
    let y = p + b;
    let k = p.len() + i;
    if i < a.len() && i < b.len() {
        assert(x[k] == a[i] && y[k] == b[i]);
        if a[i] == b[i] {
            lemma_precedes_from(p, a, b, i + 1);
        }
    }
}

proof fn lemma_precedes_over(p: Seq<char>, a: Seq<char>, b: Seq<char>, i: int)
    requires
        0 <= i <= p.len(),
    ensures
        text::precedes(p + a, p + b, i) == text::precedes(a, b, 0),
    decreases p.len() - i,
{
    if i < p.len() {
        lemma_precedes_over(p, a, b, i + 1);
        assert((p + a)[i] == p[i] && (p + b)[i] == p[i]);
    } else {
        lemma_precedes_from(p, a, b, 0);
    }
}

/// What follows two texts of one length does not change their order.
proof fn lemma_precedes_before(a: Seq<char>, b: Seq<char>, x: Seq<char>, y: Seq<char>, i: int)
    requires
        a.len() == b.len(),
        0 <= i,
        text::precedes(a, b, i),
    ensures
        text::precedes(a + x, b + y, i),
    decreases a.len() - i,
{
    assert((a + x)[i] == a[i] && (b + y)[i] == b[i]);
    if a[i] == b[i] {
        lemma_precedes_before(a, b, x, y, i + 1);
    }
}

/// Texts are ordered by their first field, and by the rest where it is the
/// same.
proof fn lemma_field(sep: Seq<char>, m: nat, n: nat, x: Seq<char>, y: Seq<char>)
    requires
        m < n < 100 || m == n && text::precedes(x, y, 0),
    ensures
        text::precedes(sep + (two(m) + x), sep + (two(n) + y), 0),
{
    if m < n {
        lemma_two_grows(m, n);
        lemma_two(m);
        lemma_two(n);
        lemma_precedes_before(two(m), two(n), x, y, 0);
    } else {
        lemma_precedes_over(two(m), x, y, 0);
    }
    lemma_precedes_over(sep, two(m) + x, two(n) + y, 0);
}

/// The fields of a timestamp, each of two digits.
#[verifier::opaque]
spec fn fields(cc: nat, yy: nat, month: nat, day: nat, h: nat, m: nat, s: nat) -> Seq<char> {
    ""@ + (two(cc) + (""@ + (two(yy) + ("-"@ + (two(month) + ("-"@ + (two(day) + ("T"@ + (two(h) + (
    ":"@ + (two(m) + (":"@ + (two(s) + "Z"@)))))))))))))
}

proof fn lemma_shift(p: Seq<char>, sep: Seq<char>, field: Seq<char>, rest: Seq<char>)
    ensures
        p + sep + field + rest == p + (sep + (field + rest)),
{
    assert(p + sep + field + rest =~= p + (sep + (field + rest)));
}

/// The moment lies before the end of the year 9999.
pub open spec fn within_9999(secs: u64) -> bool {
    secs <= 253_402_300_799
}

proof fn lemma_fields(secs: u64)
    requires
        within_9999(secs),
    ensures
        ({
            let (year, month, day) = date_of(secs as int / 86400);
            let t = (secs % 86400) as nat;
            &&& is_date(year, month, day)
            &&& year <= 9999
            &&& day <= 31
            &&& iso_text(secs) == fields(
                year as nat / 100,
                year as nat % 100,
                month as nat,
                day as nat,
                t / 3600,
                (t % 3600) / 60,
                t % 60,
            )
        }),
{
    reveal(fields);
    let days = secs as int / 86400;
    law_every_day_has_a_date(days);
    let (year, month, day) = date_of(days);
    lemma_days_to_month(year, 1, month);
    lemma_days_to_year(10000);
    if year > 10000 {
        lemma_years_ordered(10000, year);
    }
    lemma_four(year as nat);
    let t = (secs % 86400) as nat;
    reveal_strlit("");
    let (cc, yy) = (two(year as nat / 100), two(year as nat % 100));
    let (mo, dd) = (two(month as nat), two(day as nat));
    let (h, m, s) = (two(t / 3600), two((t % 3600) / 60), two(t % 60));
    let p0 = cc + yy;
    let p1 = p0 + "-"@ + mo;
    let p2 = p1 + "-"@ + dd;
    let p3 = p2 + "T"@ + h;
    let p4 = p3 + ":"@ + m;
    let r4 = ":"@ + (s + "Z"@);
    let r3 = ":"@ + (m + r4);
    let r2 = "T"@ + (h + r3);
    let r1 = "-"@ + (dd + r2);
    let r0 = "-"@ + (mo + r1);
    assert(iso_text(secs) == p4 + ":"@ + s + "Z"@);
    lemma_shift(p4, ":"@, s, "Z"@);
    lemma_shift(p3, ":"@, m, r4);
    lemma_shift(p2, "T"@, h, r3);
    lemma_shift(p1, "-"@, dd, r2);
    lemma_shift(p0, "-"@, mo, r1);
    assert(p0 + r0 =~= ""@ + (cc + (""@ + (yy + r0))));
}

proof fn lemma_fields_shape(cc: nat, yy: nat, month: nat, day: nat, h: nat, m: nat, s: nat)
    requires
        cc < 100,
        yy < 100,
        month < 100,
        day < 100,
        h < 100,
        m < 100,
        s < 100,
    ensures
        iso_shape(fields(cc, yy, month, day, h, m, s)),
{
    reveal(fields);
    lemma_two(cc);
    lemma_two(yy);
    lemma_two(month);
    lemma_two(day);
    lemma_two(h);
    lemma_two(m);
    lemma_two(s);
    reveal_strlit("-");
    reveal_strlit("T");
    reveal_strlit(":");
    reveal_strlit("Z");
    reveal_strlit("");
    let t = fields(cc, yy, month, day, h, m, s);
    assert(forall|n: nat| n < 10 ==> text::ascii_digit(#[trigger] text::digit_char(n)));
    assert(t[0] == text::digit_char(cc / 10) && t[1] == text::digit_char(cc % 10));
    assert(t[2] == text::digit_char(yy / 10) && t[3] == text::digit_char(yy % 10));
    assert(t[5] == text::digit_char(month / 10) && t[6] == text::digit_char(month % 10));
    assert(t[8] == text::digit_char(day / 10) && t[9] == text::digit_char(day % 10));
    assert(t[11] == text::digit_char(h / 10) && t[12] == text::digit_char(h % 10));
    assert(t[14] == text::digit_char(m / 10) && t[15] == text::digit_char(m % 10));
    assert(t[17] == text::digit_char(s / 10) && t[18] == text::digit_char(s % 10));
}

/// `YYYY-MM-DDThh:mm:ssZ`: twenty characters, digits but for the separators.
pub open spec fn iso_shape(t: Seq<char>) -> bool {
    &&& t.len() == 20
    &&& t[4] == '-' && t[7] == '-' && t[10] == 'T' && t[13] == ':' && t[16] == ':' && t[19] == 'Z'
    &&& forall|k: int|
        0 <= k < 19 && k != 4 && k != 7 && k != 10 && k != 13 && k != 16 ==> text::ascii_digit(
            #[trigger] t[k],
        )
}

/// Up to the end of the year 9999 a timestamp has twenty characters, and what
/// it shows is a date of the calendar and a time of day.
pub proof fn law_iso_text_shape(secs: u64)
    requires
        within_9999(secs),
    ensures
        iso_shape(iso_text(secs)),
        ({
            let (year, month, day) = date_of(secs as int / 86400);
            let t = (secs % 86400) as nat;
            &&& is_date(year, month, day)
            &&& year <= 9999
            &&& t / 3600 < 24
            &&& (t % 3600) / 60 < 60
            &&& t % 60 < 60
            &&& iso_text(secs) == timestamp(year, month, day, t)
        }),
{
    lemma_fields(secs);
    let (year, month, day) = date_of(secs as int / 86400);
    let t = (secs % 86400) as nat;
    lemma_fields_shape(
        year as nat / 100,
        year as nat % 100,
        month as nat,
        day as nat,
        t / 3600,
        (t % 3600) / 60,
        t % 60,
    );
}

proof fn lemma_day_order(y1: int, m1: int, d1: int, y2: int, m2: int, d2: int)
    requires
        is_date(y1, m1, d1),
        is_date(y2, m2, d2),
        day_number(y1, m1, d1) < day_number(y2, m2, d2),
    ensures
        y1 < y2 || (y1 == y2 && (m1 < m2 || (m1 == m2 && d1 < d2))),
{
    lemma_days_to_month(y1, m1, 13);
    lemma_days_to_month(y2, m2, 13);
    lemma_days_to_month(y1, 1, m1);
    lemma_days_to_month(y2, 1, m2);
    if y2 < y1 {
        lemma_years_ordered(y2, y1);
    } else if y1 == y2 && m2 < m1 {
        lemma_days_to_month(y1, m2, m1);
    }
}

proof fn lemma_fields_grow(
    a: (nat, nat, nat, nat, nat, nat, nat),
    b: (nat, nat, nat, nat, nat, nat, nat),
)
    requires
        b.0 < 100,
        b.1 < 100,
        b.2 < 100,
        b.3 < 100,
        b.4 < 100,
        b.5 < 100,
        b.6 < 100,
        a.0 < b.0 || a.0 == b.0 && (a.1 < b.1 || a.1 == b.1 && (a.2 < b.2 || a.2 == b.2 && (a.3
            < b.3 || a.3 == b.3 && (a.4 < b.4 || a.4 == b.4 && (a.5 < b.5 || a.5 == b.5 && a.6
            < b.6))))),
    ensures
        text::precedes(
            fields(a.0, a.1, a.2, a.3, a.4, a.5, a.6),
            fields(b.0, b.1, b.2, b.3, b.4, b.5, b.6),
            0,
        ),
{
    reveal(fields);
    let (xs, ys) = (":"@ + (two(a.6) + "Z"@), ":"@ + (two(b.6) + "Z"@));
    let (xm, ym) = (":"@ + (two(a.5) + xs), ":"@ + (two(b.5) + ys));
    let (xh, yh) = ("T"@ + (two(a.4) + xm), "T"@ + (two(b.4) + ym));
    let (xd, yd) = ("-"@ + (two(a.3) + xh), "-"@ + (two(b.3) + yh));
    let (xo, yo) = ("-"@ + (two(a.2) + xd), "-"@ + (two(b.2) + yd));
    let (xy, yy) = (""@ + (two(a.1) + xo), ""@ + (two(b.1) + yo));
    let last = a.6 < b.6;
    let minute = a.5 < b.5 || a.5 == b.5 && last;
    let hour = a.4 < b.4 || a.4 == b.4 && minute;
    let day = a.3 < b.3 || a.3 == b.3 && hour;
    let month = a.2 < b.2 || a.2 == b.2 && day;
    let year = a.1 < b.1 || a.1 == b.1 && month;
    if last {
        lemma_field(":"@, a.6, b.6, "Z"@, "Z"@);
    }
    if minute {
        lemma_field(":"@, a.5, b.5, xs, ys);
    }
    if hour {
        lemma_field("T"@, a.4, b.4, xm, ym);
    }
    if day {
        lemma_field("-"@, a.3, b.3, xh, yh);
    }
    if month {
        lemma_field("-"@, a.2, b.2, xd, yd);
    }
    if year {
        lemma_field(""@, a.1, b.1, xo, yo);
    }
    lemma_field(""@, a.0, b.0, xy, yy);
}

/// The order of two times of day is that of their fields.
proof fn lemma_time_order(a: nat, b: nat)
    requires
        a < b,
    ensures
        a / 3600 < b / 3600 || a / 3600 == b / 3600 && ((a % 3600) / 60 < (b % 3600) / 60 || (a
            % 3600) / 60 == (b % 3600) / 60 && a % 60 < b % 60),
{
    assert(a % 3600 % 60 == a % 60 && b % 3600 % 60 == b % 60);
}

/// Up to the end of the year 9999 later moments have later timestamps, in the
/// order of texts.
pub proof fn law_iso_text_grows(a: u64, b: u64)
    requires
        a < b,
        within_9999(b),
    ensures
        text::precedes(iso_text(a), iso_text(b), 0),
{
    let (i, j) = (a as int / 86400, b as int / 86400);
    let (y1, m1, d1) = date_of(i);
    let (y2, m2, d2) = date_of(j);
    law_every_day_has_a_date(i);
    law_every_day_has_a_date(j);
    let t1 = (a % 86400) as nat;
    let t2 = (b % 86400) as nat;
    if i < j {
        lemma_day_order(y1, m1, d1, y2, m2, d2);
        assert(y1 < y2 ==> y1 / 100 < y2 / 100 || y1 / 100 == y2 / 100 && y1 % 100 < y2 % 100);
    } else {
        assert(i == j && t1 < t2);
        lemma_time_order(t1, t2);
    }
    lemma_fields(a);
    lemma_fields(b);
    lemma_fields_grow(
        (
            y1 as nat / 100,
            y1 as nat % 100,
            m1 as nat,
            d1 as nat,
            t1 / 3600,
            (t1 % 3600) / 60,
            t1 % 60,
        ),
        (
            y2 as nat / 100,
            y2 as nat % 100,
            m2 as nat,
            d2 as nat,
            t2 / 3600,
            (t2 % 3600) / 60,
            t2 % 60,
        ),
    );
}

} // verus!
