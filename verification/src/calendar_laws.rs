//! The calendar day by day, and the moments that timestamps show.

use crate::calendar;
use vstd::prelude::*;

verus! {

/// The last day of a month: thirty days have April, June, September and
/// November, all others thirty-one, but February twenty-eight, and twenty-nine
/// in the years that four divides, except those that a hundred divides and
/// four hundred does not.
pub open spec fn last_day(year: int, month: int) -> int {
    if month == 2 {
        if year % 400 == 0 || (year % 4 == 0 && year % 100 > 0) {
            29
        } else {
            28
        }
    } else if month == 4 || month == 6 || month == 9 || month == 11 {
        30
    } else {
        31
    }
}

/// Days are counted one by one from the first of January 1970, through all
/// days of all months of all years.
pub proof fn law_days_are_counted(year: int, month: int, day: int)
    requires
        1970 <= year,
        1 <= month <= 12,
        1 <= day <= last_day(year, month),
    ensures
        calendar::is_date(year, month, day),
        calendar::day_number(1970, 1, 1) == 0,
        day < last_day(year, month) ==> calendar::day_number(year, month, day + 1)
            == calendar::day_number(year, month, day) + 1,
        day == last_day(year, month) && month < 12 ==> calendar::day_number(year, month + 1, 1)
            == calendar::day_number(year, month, day) + 1,
        day == last_day(year, month) && month == 12 ==> calendar::day_number(year + 1, 1, 1)
            == calendar::day_number(year, month, day) + 1,
{
    if month == 12 {
        reveal_with_fuel(calendar::days_to_month, 13);
    }
}

/// The character of a decimal digit.
pub open spec fn digit(n: int) -> char {
    (n + '0' as int) as char
}

/// The timestamp of a moment shows the date and the time of day, each field
/// with all its digits.
pub proof fn law_moment(
    year: int,
    month: int,
    day: int,
    hour: int,
    minute: int,
    second: int,
    secs: u64,
)
    requires
        1970 <= year <= 9999,
        1 <= month <= 12,
        1 <= day <= last_day(year, month),
        0 <= hour < 24,
        0 <= minute < 60,
        0 <= second < 60,
        secs == calendar::day_number(year, month, day) * 86400 + hour * 3600 + minute * 60 + second,
    ensures
        calendar::iso_text(secs) == seq![
            digit(year / 1000),
            digit(year / 100 % 10),
            digit(year / 10 % 10),
            digit(year % 10),
            '-',
            digit(month / 10),
            digit(month % 10),
            '-',
            digit(day / 10),
            digit(day % 10),
            'T',
            digit(hour / 10),
            digit(hour % 10),
            ':',
            digit(minute / 10),
            digit(minute % 10),
            ':',
            digit(second / 10),
            digit(second % 10),
            'Z',
        ],
{
    law_days_are_counted(year, month, day);
    let days = calendar::day_number(year, month, day);
    let t = (hour * 3600 + minute * 60 + second) as nat;
    assert(secs as int / 86400 == days && secs % 86400 == t);
    calendar::law_every_day_has_a_date(days);
    let (y, m, d) = calendar::date_of(days);
    calendar::law_day_number_is_unique(y, m, d, year, month, day);
    assert(t / 3600 == hour && (t % 3600) / 60 == minute && t % 60 == second);
    reveal_strlit("-");
    reveal_strlit("T");
    reveal_strlit(":");
    reveal_strlit("Z");
    calendar::lemma_four(year as nat);
    calendar::lemma_two((year / 100) as nat);
    calendar::lemma_two((year % 100) as nat);
    calendar::lemma_two(month as nat);
    calendar::lemma_two(day as nat);
    calendar::lemma_two(hour as nat);
    calendar::lemma_two(minute as nat);
    calendar::lemma_two(second as nat);
    assert(year / 100 / 10 == year / 1000 && (year / 100) % 10 == year / 100 % 10);
    assert((year % 100) / 10 == year / 10 % 10 && (year % 100) % 10 == year % 10);
    assert(calendar::iso_text(secs) =~= seq![
        digit(year / 1000),
        digit(year / 100 % 10),
        digit(year / 10 % 10),
        digit(year % 10),
        '-',
        digit(month / 10),
        digit(month % 10),
        '-',
        digit(day / 10),
        digit(day % 10),
        'T',
        digit(hour / 10),
        digit(hour % 10),
        ':',
        digit(minute / 10),
        digit(minute % 10),
        ':',
        digit(second / 10),
        digit(second % 10),
        'Z',
    ]);
}

} // verus!
