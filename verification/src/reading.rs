//! How stored timestamps are read: the second that a text stands for, as SQLite's
//! `unixepoch` reads it.
use vstd::prelude::*;

use crate::julian;
use crate::text;
use crate::timestamp;
use crate::timestamp::Moment;

verus! {

/// The number that the two digits at a position spell, if two digits stand there.
pub open spec fn number_at(s: Seq<char>, i: int) -> Option<int> {
    if 0 <= i && i + 1 < s.len() && timestamp::is_digit(s[i]) && timestamp::is_digit(s[i + 1]) {
        Some(10 * timestamp::digit_value(s[i]) + timestamp::digit_value(s[i + 1]))
    } else {
        None
    }
}

/// `s` without what may stand between a date and a time: leading blanks and `T`s.
pub open spec fn without_separators(s: Seq<char>) -> Seq<char>
    decreases s.len(),
{
    if s.len() > 0 && (text::is_blank(s[0]) || s[0] == 'T') {
        without_separators(s.drop_first())
    } else {
        s
    }
}

/// `s` without its leading digits.
pub open spec fn without_digits(s: Seq<char>) -> Seq<char>
    decreases s.len(),
{
    if s.len() > 0 && timestamp::is_digit(s[0]) {
        without_digits(s.drop_first())
    } else {
        s
    }
}

/// Whether a text starts with a fraction: a point and at least one digit.
pub open spec fn has_fraction(s: Seq<char>) -> bool {
    s.len() >= 2 && s[0] == '.' && timestamp::is_digit(s[1])
}

/// `s` without the fraction that it starts with, if any.
pub open spec fn without_fraction(s: Seq<char>) -> Seq<char> {
    if has_fraction(s) {
        without_digits(s.drop_first())
    } else {
        s
    }
}

/// Whether the fraction that a text starts with makes a whole second when it is
/// rounded to milliseconds.
pub open spec fn rounds_up(s: Seq<char>) -> bool {
    &&& s.len() >= 5
    &&& s[0] == '.' && s[1] == '9' && s[2] == '9' && s[3] == '9'
    &&& timestamp::is_digit(s[4]) && s[4] >= '5'
}

/// The seconds behind hours and minutes, `:SS` with or without a fraction, and
/// what follows them; no seconds where nothing of the kind stands.
pub open spec fn seconds_of(s: Seq<char>) -> Option<(int, Seq<char>)> {
    if s.len() > 0 && s[0] == ':' {
        match number_at(s, 1) {
            Some(second) if second <= 59 => Some(
                (
                    second + (if rounds_up(s.skip(3)) {
                        1int
                    } else {
                        0
                    }),
                    without_fraction(s.skip(3)),
                ),
            ),
            _ => None,
        }
    } else {
        Some((0, s))
    }
}

/// The seconds by which an offset is ahead of UTC: `Z`, `+HH:MM`, `-HH:MM`, or
/// nothing for UTC, with blanks around it or none.
pub open spec fn offset_of(s: Seq<char>) -> Option<int> {
    let u = text::without_blanks(s);
    if u.len() == 0 {
        Some(0)
    } else if u[0] == 'Z' || u[0] == 'z' {
        if text::without_blanks(u.skip(1)).len() == 0 {
            Some(0)
        } else {
            None
        }
    } else if u.len() >= 6 && (u[0] == '+' || u[0] == '-') && u[3] == ':' {
        match (number_at(u, 1), number_at(u, 4)) {
            (Some(hours), Some(minutes)) if hours <= 14 && minutes <= 59 && text::without_blanks(
                u.skip(6),
            ).len() == 0 => Some(
                if u[0] == '+' {
                    3600 * hours + 60 * minutes
                } else {
                    -(3600 * hours + 60 * minutes)
                },
            ),
            _ => None,
        }
    } else {
        None
    }
}

/// The seconds from midnight UTC that a time of day stands for: `HH:MM` or
/// `HH:MM:SS`, with or without a fraction and an offset. An hour of 24 is the
/// first of the next day.
pub open spec fn time_of(s: Seq<char>) -> Option<int> {
    match (number_at(s, 0), number_at(s, 3)) {
        (Some(hour), Some(minute)) if s[2] == ':' && hour <= 24 && minute <= 59 => match seconds_of(
            s.skip(5),
        ) {
            Some((seconds, rest)) => match offset_of(rest) {
                Some(offset) => Some(3600 * hour + 60 * minute + seconds - offset),
                None => None,
            },
            None => None,
        },
        _ => None,
    }
}

/// The midnight of a date before year 0. Leap days are counted by quarters of a
/// century, centuries being cut towards zero.
pub open spec fn midnight_before_year_zero(year: int, month: int, day: int) -> int {
    let y = if month <= 2 {
        year - 1
    } else {
        year
    };
    let m = if month <= 2 {
        month + 12
    } else {
        month
    };
    let century = -y / 100;
    86400 * (36525 * (y + 4716) / 100 + 306001 * (m + 1) / 10000 + day + 2 + century - century / 4
        - 1524 - 2440588)
}

/// The midnight of a date. Any month has days up to 31: those beyond its last are
/// days of the next month.
pub open spec fn midnight_at(year: int, month: int, day: int) -> int {
    if year < 0 {
        midnight_before_year_zero(year, month, day)
    } else {
        timestamp::Civil { year, month, day, hour: 0, minute: 0, second: 0 }.unix_seconds()
    }
}

/// The midnight of the date that a text starts with, `YYYY-MM-DD`, of a year
/// before year 0 if `negative`.
pub open spec fn midnight_of(s: Seq<char>, negative: bool) -> Option<int> {
    match (number_at(s, 0), number_at(s, 2), number_at(s, 5), number_at(s, 8)) {
        (Some(century), Some(of_century), Some(month), Some(day)) if s[4] == '-' && s[7] == '-' && 1
            <= month <= 12 && 1 <= day <= 31 => {
            let year = 100 * century + of_century;
            if !negative {
                Some(midnight_at(year, month, day))
            } else if year <= 4713 {
                Some(midnight_at(-year, month, day))
            } else {
                None
            }
        },
        _ => None,
    }
}

/// The second of a date that a text starts with, alone or with a time of day
/// behind it.
pub open spec fn date_time_of(s: Seq<char>) -> Option<int> {
    let negative = s.len() > 0 && s[0] == '-';
    let u = if negative {
        s.skip(1)
    } else {
        s
    };
    match midnight_of(u, negative) {
        Some(midnight) => {
            let t = without_separators(u.skip(10));
            if t.len() == 0 {
                Some(midnight)
            } else {
                match time_of(t) {
                    Some(seconds) => Some(midnight + seconds),
                    None => None,
                }
            }
        },
        None => None,
    }
}

/// The midnight of a time of day without a date: 1 January 2000.
pub const DAY_OF_BARE_TIMES: i64 = 946_684_800;

/// Where the first NUL character of a text stands, or its end.
pub open spec fn nul_position(s: Seq<char>) -> int
    decreases s.len(),
{
    if s.len() == 0 || s[0] == '\0' {
        0
    } else {
        1 + nul_position(s.drop_first())
    }
}

/// Whether a text stands for the current time.
pub open spec fn names_now(s: Seq<char>) -> bool {
    text::same_ignoring_case(s, "now"@) || text::same_ignoring_case(s, "subsec"@)
        || text::same_ignoring_case(s, "subsecond"@)
}

/// The second that a text stands for, whatever its year: a date with or without a
/// time of day, a time of day, the current time, or a Julian day number.
pub open spec fn second_of(s: Seq<char>, now: int) -> Option<int> {
    match (date_time_of(s), time_of(s), julian::decimal_of(s)) {
        (Some(t), _, _) => Some(t),
        (None, Some(seconds), _) => Some(DAY_OF_BARE_TIMES + seconds),
        (None, None, Some(number)) => number.julian_second(),
        (None, None, None) => if names_now(s) {
            Some(now)
        } else {
            None
        },
    }
}

/// The Unix second of a stored timestamp at a moment: from the start of Julian
/// days to the end of year 9999. A text ends at its first NUL character.
pub open spec fn unix_of_text(raw: Seq<char>, now: int) -> Option<int> {
    match second_of(raw.take(nul_position(raw)), now) {
        Some(t) if julian::JULIAN_START <= t <= timestamp::LAST_SECOND => Some(t),
        _ => None,
    }
}

/// The number that the two digits at `i` spell.
fn read_number(xs: &Vec<char>, i: usize) -> (r: Option<i64>)
    ensures
        match r {
            Some(n) => number_at(xs@, i as int) == Some(n as int) && 0 <= n <= 99,
            None => number_at(xs@, i as int) is None,
        },
{
    if i < xs.len() && i + 1 < xs.len() && timestamp::char_is_digit(xs[i]) && timestamp::char_is_digit(xs[i + 1]) {
        Some((10 * timestamp::digit_number(xs[i]) + timestamp::digit_number(xs[i + 1])) as i64)
    } else {
        None
    }
}

/// Skips leading blanks and `T`s.
fn skip_separators(xs: &Vec<char>) -> (r: Vec<char>)
    ensures
        r@ == without_separators(xs@),
{
    let mut i: usize = 0;
    assert(xs@.skip(0) =~= xs@);
    while i < xs.len() && (text::char_is_blank(xs[i]) || xs[i] == 'T')
        invariant
            i <= xs.len(),
            without_separators(xs@.skip(i as int)) == without_separators(xs@),
        decreases xs.len() - i,
    {
        assert(xs@.skip(i as int).drop_first() =~= xs@.skip(i + 1));
        i += 1;
    }
    text::tail(xs, i)
}

/// Skips leading digits.
fn skip_digits(xs: &Vec<char>) -> (r: Vec<char>)
    ensures
        r@ == without_digits(xs@),
{
    let mut i: usize = 0;
    assert(xs@.skip(0) =~= xs@);
    while i < xs.len() && timestamp::char_is_digit(xs[i])
        invariant
            i <= xs.len(),
            without_digits(xs@.skip(i as int)) == without_digits(xs@),
        decreases xs.len() - i,
    {
        assert(xs@.skip(i as int).drop_first() =~= xs@.skip(i + 1));
        i += 1;
    }
    text::tail(xs, i)
}

/// Skips a leading fraction.
fn skip_fraction(xs: &Vec<char>) -> (r: Vec<char>)
    ensures
        r@ == without_fraction(xs@),
{
    if xs.len() >= 2 && xs[0] == '.' && timestamp::char_is_digit(xs[1]) {
        assert(xs@.skip(1) =~= xs@.drop_first());
        skip_digits(&text::tail(xs, 1))
    } else {
        text::tail(xs, 0)
    }
}

/// The seconds behind hours and minutes, and what follows them.
fn read_seconds(xs: &Vec<char>) -> (r: Option<(i64, Vec<char>)>)
    ensures
        match r {
            Some((n, rest)) => seconds_of(xs@) == Some((n as int, rest@)) && 0 <= n <= 60,
            None => seconds_of(xs@) is None,
        },
{
    if xs.len() == 0 || xs[0] != ':' {
        return Some((0, text::tail(xs, 0)));
    }
    match read_number(xs, 1) {
        Some(second) => {
            if second > 59 {
                return None;
            }
            let f = text::tail(xs, 3);
            let up = f.len() >= 5 && f[0] == '.' && f[1] == '9' && f[2] == '9' && f[3] == '9'
                && timestamp::char_is_digit(f[4]) && f[4] >= '5';
            let rest = skip_fraction(&f);
            if up {
                Some((second + 1, rest))
            } else {
                Some((second, rest))
            }
        },
        None => None,
    }
}

/// The seconds by which an offset is ahead of UTC.
fn read_offset(xs: &Vec<char>) -> (r: Option<i64>)
    ensures
        match r {
            Some(n) => offset_of(xs@) == Some(n as int) && -53940 <= n <= 53940,
            None => offset_of(xs@) is None,
        },
{
    let u = text::skip_blanks(xs);
    if u.len() == 0 {
        return Some(0);
    }
    if u[0] == 'Z' || u[0] == 'z' {
        return if text::skip_blanks(&text::tail(&u, 1)).len() == 0 {
            Some(0)
        } else {
            None
        };
    }
    if u.len() < 6 || (u[0] != '+' && u[0] != '-') || u[3] != ':' {
        return None;
    }
    match (read_number(&u, 1), read_number(&u, 4)) {
        (Some(hours), Some(minutes)) => {
            if hours > 14 || minutes > 59 || text::skip_blanks(&text::tail(&u, 6)).len() > 0 {
                None
            } else if u[0] == '+' {
                Some(3600 * hours + 60 * minutes)
            } else {
                Some(-(3600 * hours + 60 * minutes))
            }
        },
        _ => None,
    }
}

/// The seconds from midnight UTC that a time of day stands for.
fn read_time(xs: &Vec<char>) -> (r: Option<i64>)
    ensures
        match r {
            Some(n) => time_of(xs@) == Some(n as int) && -53940 <= n <= 143940,
            None => time_of(xs@) is None,
        },
{
    match (read_number(xs, 0), read_number(xs, 3)) {
        (Some(hour), Some(minute)) => {
            if xs[2] != ':' || hour > 24 || minute > 59 {
                return None;
            }
            match read_seconds(&text::tail(xs, 5)) {
                Some((seconds, rest)) => match read_offset(&rest) {
                    Some(offset) => Some(3600 * hour + 60 * minute + seconds - offset),
                    None => None,
                },
                None => None,
            }
        },
        _ => None,
    }
}

/// The midnight of a date in a year of four digits.
fn midnight_since_year_zero(year: u64, month: u64, day: u64) -> (r: i64)
    requires
        year <= 9999,
        1 <= month <= 12,
        1 <= day <= 31,
    ensures
        r == midnight_at(year as int, month as int, day as int),
        timestamp::FIRST_SECOND <= r <= timestamp::LAST_SECOND + 31 * 86400,
{
    let mut m: u64 = 1;
    let mut before: u64 = 0;
    while m < month
        invariant
            1 <= m <= month <= 12,
            year <= 9999,
            before == timestamp::days_before_month(year as int, m as int),
            before <= 31 * (m - 1),
        decreases month - m,
    {
        before = before + timestamp::count_days_in_month(year, m);
        m += 1;
    }
    let days: u64 = timestamp::count_days_before_year(year) + before + day - 1;
    proof {
        assert(timestamp::days_before_year(1970) == 719528);
        assert(timestamp::days_before_year(0) == 0);
        assert(timestamp::days_before_year(10_000) == 3652425);
        timestamp::lemma_year_step(year as int);
        timestamp::lemma_month_order(year as int, 1, 13);
        if month < 12 {
            timestamp::lemma_month_order(year as int, month as int, 13);
        }
        if year < 9999 {
            timestamp::lemma_year_order(year as int, 10_000);
        }
    }
    86400 * (days as i64 - 719528)
}

/// The midnight of a date before year 0, of which `year` is the number of years.
fn midnight_of_early_year(year: i64, month: i64, day: i64) -> (r: i64)
    requires
        1 <= year <= 4713,
        1 <= month <= 12,
        1 <= day <= 31,
    ensures
        r == midnight_at(-year, month as int, day as int),
        -300_000_000_000 <= r <= 0,
{
    let y: i64 = if month <= 2 {
        -year - 1
    } else {
        -year
    };
    let m: i64 = if month <= 2 {
        month + 12
    } else {
        month
    };
    let century: i64 = -y / 100;
    86400 * (36525 * (y + 4716) / 100 + 306001 * (m + 1) / 10000 + day + 2 + century - century / 4
        - 1524 - 2440588)
}

/// The midnight of the date that the characters start with.
fn read_midnight(xs: &Vec<char>, negative: bool) -> (r: Option<i64>)
    ensures
        match r {
            Some(n) => {
                &&& midnight_of(xs@, negative) == Some(n as int)
                &&& xs.len() >= 10
                &&& -300_000_000_000 <= n <= timestamp::LAST_SECOND + 31 * 86400
            },
            None => midnight_of(xs@, negative) is None,
        },
{
    match (read_number(xs, 0), read_number(xs, 2), read_number(xs, 5), read_number(xs, 8)) {
        (Some(century), Some(of_century), Some(month), Some(day)) => {
            if xs[4] != '-' || xs[7] != '-' || month < 1 || month > 12 || day < 1 || day > 31 {
                return None;
            }
            let year: i64 = 100 * century + of_century;
            if !negative || year == 0 {
                Some(midnight_since_year_zero(year as u64, month as u64, day as u64))
            } else if year <= 4713 {
                Some(midnight_of_early_year(year, month, day))
            } else {
                None
            }
        },
        _ => None,
    }
}

/// The second of a date that the characters start with.
fn read_date_time(xs: &Vec<char>) -> (r: Option<i64>)
    ensures
        match r {
            Some(n) => {
                &&& date_time_of(xs@) == Some(n as int)
                &&& -400_000_000_000 <= n <= 400_000_000_000
            },
            None => date_time_of(xs@) is None,
        },
{
    let negative = xs.len() > 0 && xs[0] == '-';
    let start: usize = if negative {
        1
    } else {
        0
    };
    assert(xs@.skip(0) =~= xs@);
    let u = text::tail(xs, start);
    match read_midnight(&u, negative) {
        Some(midnight) => {
            let t = skip_separators(&text::tail(&u, 10));
            if t.len() == 0 {
                Some(midnight)
            } else {
                match read_time(&t) {
                    Some(seconds) => Some(midnight + seconds),
                    None => None,
                }
            }
        },
        None => None,
    }
}

/// The characters before the first NUL.
fn up_to_nul(xs: &Vec<char>) -> (r: Vec<char>)
    ensures
        r@ == xs@.take(nul_position(xs@)),
{
    let mut out: Vec<char> = Vec::new();
    let mut i: usize = 0;
    assert(xs@.skip(0) =~= xs@);
    while i < xs.len() && xs[i] != '\0'
        invariant
            i <= xs.len(),
            out@ == xs@.take(i as int),
            i + nul_position(xs@.skip(i as int)) == nul_position(xs@),
        decreases xs.len() - i,
    {
        assert(xs@.skip(i as int).drop_first() =~= xs@.skip(i + 1));
        assert(xs@.take(i + 1) =~= xs@.take(i as int).push(xs@[i as int]));
        out.push(xs[i]);
        i += 1;
    }
    out
}

/// The second that the characters stand for, whatever its year.
fn read_second(xs: &Vec<char>, whole: &str, now: &Moment) -> (r: Option<i64>)
    requires
        whole@ == xs@,
    ensures
        match r {
            Some(n) => second_of(xs@, now@) == Some(n as int),
            None => second_of(xs@, now@) is None,
        },
{
    match read_date_time(xs) {
        Some(t) => {
            return Some(t);
        },
        None => {},
    }
    match read_time(xs) {
        Some(t) => {
            return Some(DAY_OF_BARE_TIMES + t);
        },
        None => {},
    }
    if text::str_same_ignoring_case(whole, "now") || text::str_same_ignoring_case(whole, "subsec")
        || text::str_same_ignoring_case(whole, "subsecond") {
        proof {
            lemma_now_is_no_number(xs@);
        }
        return Some(now.unix());
    }
    julian::read_julian(xs)
}

/// A name of the current time is no number.
pub proof fn lemma_now_is_no_number(s: Seq<char>)
    requires
        names_now(s),
    ensures
        julian::decimal_of(s) is None,
{
    reveal_strlit("now");
    reveal_strlit("subsec");
    reveal_strlit("subsecond");
    assert(text::ascii_upper(s[0]) == 'N' || text::ascii_upper(s[0]) == 'S') by {
        assert(text::ascii_upper("now"@[0]) == 'N');
        assert(text::ascii_upper("subsec"@[0]) == 'S');
        assert(text::ascii_upper("subsecond"@[0]) == 'S');
    }
    assert(!text::is_blank(s[0]) && !timestamp::is_digit(s[0]));
    assert(s[0] != '-' && s[0] != '+' && s[0] != '.');
}

/// The Unix second of a stored timestamp at a moment.
pub fn parse_ts(raw: &str, now: &Moment) -> (r: Option<i64>)
    ensures
        match r {
            Some(t) => unix_of_text(raw@, now@) == Some(t as int),
            None => unix_of_text(raw@, now@) is None,
        },
{
    let xs = up_to_nul(&text::chars_of(raw));
    proof {
        lemma_nul_position(raw@);
        assert(raw@.subrange(0, xs.len() as int) =~= xs@);
    }
    let s = raw.substring_char(0, xs.len());
    match read_second(&xs, s, now) {
        Some(t) => {
            if julian::JULIAN_START <= t && t <= timestamp::LAST_SECOND {
                Some(t)
            } else {
                None
            }
        },
        None => None,
    }
}

/// The first NUL of a text stands in it or at its end.
pub proof fn lemma_nul_position(s: Seq<char>)
    ensures
        0 <= nul_position(s) <= s.len(),
        (forall|i: int| 0 <= i < s.len() ==> s[i] != '\0') ==> nul_position(s) == s.len(),
    decreases s.len(),
{
    if s.len() > 0 && s[0] != '\0' {
        let r = s.drop_first();
        lemma_nul_position(r);
        if forall|i: int| 0 <= i < s.len() ==> s[i] != '\0' {
            assert forall|i: int| 0 <= i < r.len() implies r[i] != '\0' by {
                assert(r[i] == s[i + 1]);
            }
        }
    }
}

/// Whether a stored timestamp lies more than `days` days before a moment. One
/// that names no second does not.
pub open spec fn older_than(ts: Seq<char>, days: int, now: int) -> bool {
    unix_of_text(ts, now) matches Some(t) && now - t > days * 86400
}

/// Whether a stored timestamp lies more than `days` days before a moment.
pub fn is_older_than(ts: &str, days: i64, now: &Moment) -> (r: bool)
    ensures
        r == older_than(ts@, days as int, now@),
{
    match parse_ts(ts, now) {
        Some(t) => now.unix() as i128 - t as i128 > days as i128 * 86400,
        None => false,
    }
}

/// What a text of the shape `YYYY-MM-DD HH:MM:SS` reads as, alone or with a `Z`
/// behind it.
pub proof fn lemma_datetime_reads(s: Seq<char>, now: int)
    requires
        s.len() == 19 || (s.len() == 20 && s[19] == 'Z'),
        timestamp::looks_like_datetime(s.take(19)),
    ensures
        ({
            let c = timestamp::civil_of_text(s);
            let t = midnight_at(c.year, c.month, c.day) + c.second_of_day();
            unix_of_text(s, now) == (if 1 <= c.month <= 12 && 1 <= c.day <= 31 && c.hour <= 24
                && c.minute <= 59 && c.second <= 59 && julian::JULIAN_START <= t
                <= timestamp::LAST_SECOND {
                Some(t)
            } else {
                None
            })
        }),
{
    let d = s.take(19);
    assert forall|i: int|
        0 <= i < 19 && !timestamp::is_separator_position(i) implies timestamp::is_digit(
        #[trigger] s[i],
    ) by {
        assert(d[i] == s[i]);
    }
    assert(d[4] == s[4] && d[7] == s[7] && d[10] == s[10] && d[13] == s[13] && d[16] == s[16]);
    lemma_nul_position(s);
    assert(s.take(s.len() as int) =~= s);
    let t = s.skip(11);
    assert(s.skip(10).drop_first() =~= t);
    assert(t[0] == s[11] && timestamp::is_digit(s[11]));
    assert(t[1] == s[12] && t[2] == s[13] && t[3] == s[14] && t[4] == s[15]);
    reveal_with_fuel(without_separators, 2);
    let u = t.skip(5);
    assert(u =~= s.skip(16));
    assert(u[0] == s[16] && u[1] == s[17] && u[2] == s[18]);
    let f = u.skip(3);
    assert(f =~= s.skip(19));
    if s.len() == 20 {
        assert(f[0] == 'Z');
        assert(f.skip(1).len() == 0);
    }
    assert(without_fraction(f) == f);
    assert(text::without_blanks(f) == f);
    assert(offset_of(f) == Some(0int));
    lemma_datetime_is_only_that(s);
}

/// A text that starts like a date is no time of day, no name of the current time
/// and no number.
pub proof fn lemma_datetime_is_only_that(s: Seq<char>)
    requires
        s.len() >= 10,
        timestamp::is_digit(s[0]) && timestamp::is_digit(s[1]) && timestamp::is_digit(s[2])
            && timestamp::is_digit(s[3]),
        s[4] == '-',
    ensures
        time_of(s) is None,
        !names_now(s),
        julian::decimal_of(s) is None,
{
    reveal_strlit("now");
    reveal_strlit("subsec");
    reveal_strlit("subsecond");
    assert("now"@.len() == 3 && "subsec"@.len() == 6 && "subsecond"@.len() == 9);
    reveal_with_fuel(julian::with_digits, 5);
    let rest = s.skip(4);
    assert(s.drop_first().drop_first().drop_first().drop_first() =~= rest);
    assert(s.drop_first()[0] == s[1]);
    assert(s.drop_first().drop_first()[0] == s[2]);
    assert(s.drop_first().drop_first().drop_first()[0] == s[3]);
    assert(rest[0] == '-');
    assert(text::without_blanks(rest) == rest);
}

/// Reading a timestamp gives back the second that it was written for.
pub proof fn lemma_text_reads_back(unix: int, now: int)
    requires
        timestamp::in_range(unix),
    ensures
        unix_of_text(timestamp::timestamp_text(unix), now) == Some(unix),
{
    timestamp::lemma_civil_at_valid(unix);
    timestamp::lemma_text_positions(timestamp::civil_at(unix));
    timestamp::lemma_text_spells(timestamp::civil_at(unix));
    lemma_datetime_reads(timestamp::timestamp_text(unix), now);
}

/// A timestamp that no whitespace surrounds is handed out with the second that it
/// was stored with: normalizing it does not change what it reads as.
pub proof fn lemma_normal_form_reads_alike(raw: Seq<char>, now: int)
    requires
        text::trimmed(raw) == raw,
    ensures
        unix_of_text(timestamp::normalized(raw), now) == unix_of_text(raw, now),
{
    if timestamp::looks_like_datetime(raw) {
        let t = raw.take(10) + seq!['T'] + raw.skip(11) + seq!['Z'];
        assert(t.len() == 20);
        assert forall|i: int| 0 <= i < 19 && i != 10 implies #[trigger] t[i] == raw[i] by {
            if i > 10 {
                assert(t[i] == raw.skip(11)[i - 11]);
            }
        }
        assert forall|i: int|
            0 <= i < 19 && !timestamp::is_separator_position(i) implies timestamp::is_digit(
            #[trigger] t.take(19)[i],
        ) by {
            assert(t.take(19)[i] == t[i]);
        }
        assert(raw.take(19) =~= raw);
        lemma_datetime_reads(raw, now);
        lemma_datetime_reads(t, now);
        assert(timestamp::civil_of_text(t) == timestamp::civil_of_text(raw));
    }
}

/// What a date and time reads as with more behind its seconds.
pub proof fn lemma_zoned_text_reads(unix: int, zone: Seq<char>, now: int)
    requires
        timestamp::in_range(unix),
        offset_of(without_fraction(zone)) matches Some(z) ==> -53940 <= z <= 53940,
        forall|i: int| 0 <= i < zone.len() ==> zone[i] != '\0',
    ensures
        unix_of_text(timestamp::timestamp_text(unix).take(19) + zone, now) == (match offset_of(
            without_fraction(zone),
        ) {
            Some(z) => {
                let t = unix - z + (if rounds_up(zone) {
                    1int
                } else {
                    0
                });
                if t <= timestamp::LAST_SECOND {
                    Some(t)
                } else {
                    None
                }
            },
            None => None,
        }),
{
    let c = timestamp::civil_at(unix);
    timestamp::lemma_civil_at_valid(unix);
    timestamp::lemma_text_positions(c);
    timestamp::lemma_text_spells(c);
    let full = timestamp::timestamp_text(unix);
    let s = full.take(19) + zone;
    let d = s.take(19);
    assert(d =~= full.take(19));
    assert forall|i: int| 0 <= i < 19 implies s[i] == full[i] by {}
    assert forall|i: int|
        0 <= i < 19 && !timestamp::is_separator_position(i) implies timestamp::is_digit(
        #[trigger] s[i],
    ) by {
        assert(timestamp::is_digit(d[i]));
    }
    assert(d[4] == s[4] && d[7] == s[7] && d[10] == s[10] && d[13] == s[13] && d[16] == s[16]);
    assert forall|i: int| 0 <= i < s.len() implies s[i] != '\0' by {
        if i >= 19 {
            assert(s[i] == zone[i - 19]);
        }
    }
    lemma_nul_position(s);
    assert(s.take(s.len() as int) =~= s);
    let t = s.skip(11);
    assert(s.skip(10).drop_first() =~= t);
    assert(t[0] == s[11] && t[1] == s[12] && t[2] == s[13] && t[3] == s[14] && t[4] == s[15]);
    reveal_with_fuel(without_separators, 2);
    let u = t.skip(5);
    assert(u =~= s.skip(16));
    assert(u[0] == s[16] && u[1] == s[17] && u[2] == s[18]);
    assert(u.skip(3) =~= zone);
    assert(timestamp::civil_of_text(s) == timestamp::civil_of_text(full));
    assert(midnight_of(s, false) == Some(midnight_at(c.year, c.month, c.day)));
    assert(time_of(t) == (match offset_of(without_fraction(zone)) {
        Some(z) => Some(
            c.second_of_day() - z + (if rounds_up(zone) {
                1int
            } else {
                0
            }),
        ),
        None => None,
    }));
    assert(midnight_at(c.year, c.month, c.day) + c.second_of_day() == unix);
    lemma_datetime_is_only_that(s);
}

/// A blank before a timestamp leaves it unread.
pub proof fn law_leading_blank_is_not_read(unix: int, now: int)
    requires
        timestamp::in_range(unix),
    ensures
        unix_of_text(seq![' '] + timestamp::timestamp_text(unix), now) is None,
{
    let c = timestamp::civil_at(unix);
    timestamp::lemma_civil_at_valid(unix);
    timestamp::lemma_text_positions(c);
    let full = timestamp::timestamp_text(unix);
    let s = seq![' '] + full;
    assert(s[0] == ' ');
    assert forall|i: int| 0 <= i < s.len() implies s[i] != '\0' by {
        if i > 0 {
            assert(s[i] == full[i - 1]);
            if i <= 19 && !timestamp::is_separator_position(i - 1) {
                assert(timestamp::is_digit(full[i - 1]));
            }
        }
    }
    lemma_nul_position(s);
    assert(s.take(s.len() as int) =~= s);
    assert(s.drop_first() =~= full);
    assert(timestamp::is_digit(full[0]));
    reveal_with_fuel(text::without_blanks, 2);
    assert(text::without_blanks(s) == full);
    assert(text::without_blanks(full) == full);
    assert forall|i: int|
        0 <= i < 19 && !timestamp::is_separator_position(i) implies timestamp::is_digit(
        #[trigger] full[i],
    ) by {}
    lemma_datetime_is_only_that(full);
    reveal_strlit("now");
    reveal_strlit("subsec");
    reveal_strlit("subsecond");
    assert("now"@.len() == 3 && "subsec"@.len() == 6 && "subsecond"@.len() == 9);
}

/// The age of a stored timestamp is counted in seconds: it is older than a number of
/// days exactly when more than that many times 86400 have passed since its second.
pub proof fn law_age_in_days(created: int, days: int, now: int)
    requires
        timestamp::in_range(created),
    ensures
        older_than(timestamp::timestamp_text(created), days, now) <==> now - created > days
            * 86400,
{
    lemma_text_reads_back(created, now);
}

} // verus!
