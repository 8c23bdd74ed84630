//! Timestamps: RFC 3339 UTC text with whole seconds and a `Z` suffix, such as
//! `2026-04-29T15:00:00Z`, and the Unix seconds that it stands for.
use vstd::prelude::*;

use crate::text;

verus! {

/// A calendar date and time of day, UTC.
pub struct Civil {
    pub year: int,
    pub month: int,
    pub day: int,
    pub hour: int,
    pub minute: int,
    pub second: int,
}

/// Gregorian leap years.
pub open spec fn is_leap(year: int) -> bool {
    year % 4 == 0 && (year % 100 != 0 || year % 400 == 0)
}

/// Days from 1 January of year 0 to 1 January of `year`: 365 for each year
/// between, and one more for each leap year among them.
pub open spec fn days_before_year(year: int) -> int {
    365 * year + (year + 3) / 4 - (year + 99) / 100 + (year + 399) / 400
}

/// Days in a month.
pub open spec fn days_in_month(year: int, month: int) -> int {
    if month == 2 {
        if is_leap(year) {
            29
        } else {
            28
        }
    } else if month == 4 || month == 6 || month == 9 || month == 11 {
        30
    } else {
        31
    }
}

/// Days of a year that come before a month of it.
pub open spec fn days_before_month(year: int, month: int) -> int
    decreases month,
{
    if month <= 1 {
        0
    } else {
        days_before_month(year, month - 1) + days_in_month(year, month - 1)
    }
}

impl Civil {
    /// A date that exists, in a year of four digits, and a time of day.
    pub open spec fn valid(self) -> bool {
        &&& 0 <= self.year <= 9999
        &&& 1 <= self.month <= 12
        &&& 1 <= self.day <= days_in_month(self.year, self.month)
        &&& 0 <= self.hour <= 23
        &&& 0 <= self.minute <= 59
        &&& 0 <= self.second <= 59
    }

    /// A year of four digits, and two digits for each of the rest.
    pub open spec fn spellable(self) -> bool {
        &&& 0 <= self.year <= 9999
        &&& 0 <= self.month <= 99
        &&& 0 <= self.day <= 99
        &&& 0 <= self.hour <= 99
        &&& 0 <= self.minute <= 99
        &&& 0 <= self.second <= 99
    }

    /// Days from 1 January of year 0.
    pub open spec fn day_number(self) -> int {
        days_before_year(self.year) + days_before_month(self.year, self.month) + self.day - 1
    }

    /// Seconds from midnight.
    pub open spec fn second_of_day(self) -> int {
        3600 * self.hour + 60 * self.minute + self.second
    }

    /// Seconds since 1 January 1970, 00:00:00 UTC.
    pub open spec fn unix_seconds(self) -> int {
        86400 * (self.day_number() - days_before_year(1970)) + self.second_of_day()
    }

    /// The text `YYYY-MM-DD`.
    pub open spec fn date_text(self) -> Seq<char> {
        seq![
            digit(self.year / 1000),
            digit(self.year / 100 % 10),
            digit(self.year / 10 % 10),
            digit(self.year % 10),
            '-',
            digit(self.month / 10),
            digit(self.month % 10),
            '-',
            digit(self.day / 10),
            digit(self.day % 10),
        ]
    }

    /// The text `HH:MM:SS`.
    pub open spec fn time_text(self) -> Seq<char> {
        seq![
            digit(self.hour / 10),
            digit(self.hour % 10),
            ':',
            digit(self.minute / 10),
            digit(self.minute % 10),
            ':',
            digit(self.second / 10),
            digit(self.second % 10),
        ]
    }

    /// The text `YYYY-MM-DDTHH:MM:SSZ`.
    pub open spec fn text(self) -> Seq<char> {
        self.date_text() + seq!['T'] + self.time_text() + seq!['Z']
    }
}

/// The decimal digit of a number below ten.
pub open spec fn digit(n: int) -> char {
    (48 + n) as char
}

/// Whether a character is a decimal digit.
pub open spec fn is_digit(c: char) -> bool {
    '0' <= c && c <= '9'
}

/// The number that a decimal digit stands for.
pub open spec fn digit_value(c: char) -> int {
    c as int - 48
}

/// The earliest second of year 0.
pub const FIRST_SECOND: i64 = -62_167_219_200;

/// The last second of year 9999.
pub const LAST_SECOND: i64 = 253_402_300_799;

/// The seconds whose year has four digits.
pub open spec fn in_range(unix: int) -> bool {
    FIRST_SECOND <= unix <= LAST_SECOND
}

/// The date and time at a second.
pub open spec fn civil_at(unix: int) -> Civil {
    choose|c: Civil| c.valid() && #[trigger] c.unix_seconds() == unix
}

/// The text of a second.
pub open spec fn timestamp_text(unix: int) -> Seq<char> {
    civil_at(unix).text()
}

/// Whether a text has the shape of a date and time of nineteen characters, with
/// a space or a `T` between the two.
pub open spec fn looks_like_datetime(s: Seq<char>) -> bool {
    &&& s.len() == 19
    &&& forall|i: int|
        0 <= i < 19 && !is_separator_position(i) ==> is_digit(#[trigger] s[i])
    &&& s[4] == '-' && s[7] == '-' && s[13] == ':' && s[16] == ':'
    &&& s[10] == ' ' || s[10] == 'T'
}

/// The positions of `YYYY-MM-DDTHH:MM:SS` that hold no digit.
pub open spec fn is_separator_position(i: int) -> bool {
    i == 4 || i == 7 || i == 10 || i == 13 || i == 16
}

/// Whether a text names its offset from UTC: a final `Z`, or a `+`.
pub open spec fn names_offset(s: Seq<char>) -> bool {
    (s.len() > 0 && s.last() == 'Z') || s.contains('+')
}

/// The normal form of a stored timestamp.
///
/// A date and time without offset gets a `T` and a `Z`; one that names its
/// offset loses surrounding whitespace; anything else stays as it is.
pub open spec fn normalized(raw: Seq<char>) -> Seq<char> {
    let s = text::trimmed(raw);
    if looks_like_datetime(s) {
        s.take(10) + seq!['T'] + s.skip(11) + seq!['Z']
    } else if s.len() > 19 && looks_like_datetime(s.take(19)) && names_offset(s) {
        s
    } else {
        raw
    }
}

/// Whether a character is a decimal digit.
pub fn char_is_digit(c: char) -> (r: bool)
    ensures
        r == is_digit(c),
{
    '0' <= c && c <= '9'
}

/// Whether the characters `xs` start with a date and time of nineteen characters.
fn starts_with_datetime(xs: &Vec<char>) -> (r: bool)
    ensures
        r == (xs@.len() >= 19 && looks_like_datetime(xs@.take(19))),
{
    if xs.len() < 19 {
        return false;
    }
    let mut i: usize = 0;
    while i < 19
        invariant
            i <= 19,
            xs.len() >= 19,
            forall|j: int|
                0 <= j < i && !is_separator_position(j) ==> is_digit(#[trigger] xs@.take(19)[j]),
        decreases 19 - i,
    {
        let separator = i == 4 || i == 7 || i == 10 || i == 13 || i == 16;
        if !separator && !char_is_digit(xs[i]) {
            assert(!is_digit(xs@.take(19)[i as int]));
            return false;
        }
        i += 1;
    }
    xs[4] == '-' && xs[7] == '-' && xs[13] == ':' && xs[16] == ':' && (xs[10] == ' ' || xs[10]
        == 'T')
}

/// Whether the characters `xs` name an offset from UTC.
fn chars_name_offset(xs: &Vec<char>) -> (r: bool)
    ensures
        r == names_offset(xs@),
{
    let n: usize = xs.len();
    if n > 0 && xs[n - 1] == 'Z' {
        return true;
    }
    let mut i: usize = 0;
    while i < n
        invariant
            n == xs.len(),
            i <= n,
            forall|j: int| 0 <= j < i ==> xs@[j] != '+',
        decreases n - i,
    {
        if xs[i] == '+' {
            return true;
        }
        i += 1;
    }
    false
}

/// Normalizes a stored timestamp to strict RFC 3339 UTC with a `Z` suffix.
///
/// Handles both legacy rows (`2026-04-29 15:00:00`, `2026-04-29T15:00:00`) and
/// rows that name their offset (`2026-04-29T15:00:00Z`). A value that does not
/// look like a date and time is returned unchanged, so unexpected data is never
/// silently corrupted.
pub fn normalize_ts(raw: &str) -> (r: String)
    ensures
        r@ == normalized(raw@),
{
    let s = text::trim(raw);
    let xs = text::chars_of(s);
    if starts_with_datetime(&xs) {
        if xs.len() == 19 {
            proof {
                assert(s@.take(19) =~= s@);
                reveal_strlit("T");
                reveal_strlit("Z");
                assert("T"@ =~= seq!['T']);
                assert("Z"@ =~= seq!['Z']);
                assert(s@.subrange(0, 10) =~= s@.take(10));
                assert(s@.subrange(11, 19) =~= s@.skip(11));
            }
            let mut out = s.substring_char(0, 10).to_owned();
            out.append("T");
            out.append(s.substring_char(11, 19));
            out.append("Z");
            return out;
        }
        if chars_name_offset(&xs) {
            return s.to_owned();
        }
    }
    proof {
        if xs@.len() == 19 {
            assert(s@.take(19) =~= s@);
        }
    }
    raw.to_owned()
}

/// The next year starts 365 days later, or 366 after a leap year.
pub proof fn lemma_year_step(year: int)
    requires
        year >= 0,
    ensures
        days_before_year(year + 1) == days_before_year(year) + (if is_leap(year) {
            366int
        } else {
            365int
        }),
{
    lemma_multiples(year, 4);
    lemma_multiples(year, 100);
    lemma_multiples(year, 400);
}

/// One more number counts as a multiple if it is one.
proof fn lemma_multiples(n: int, k: int)
    requires
        n >= 0,
        k == 4 || k == 100 || k == 400,
    ensures
        (n + 1 + k - 1) / k == (n + k - 1) / k + (if n % k == 0 {
            1int
        } else {
            0int
        }),
{
}

/// Later years start later.
pub proof fn lemma_year_order(a: int, b: int)
    requires
        0 <= a < b,
    ensures
        days_before_year(a + 1) <= days_before_year(b),
    decreases b - a,
{
    if a + 1 < b {
        lemma_year_order(a, b - 1);
        lemma_year_step(b - 1);
    }
}

/// Later months start later, and the months of a year fill it.
pub proof fn lemma_month_order(year: int, a: int, b: int)
    requires
        1 <= a < b <= 13,
    ensures
        days_before_month(year, a + 1) <= days_before_month(year, b),
        days_before_month(year, 13) == (if is_leap(year) {
            366int
        } else {
            365int
        }),
    decreases b - a,
{
    reveal_with_fuel(days_before_month, 13);
    if a + 1 < b {
        lemma_month_order(year, a, b - 1);
    }
}

impl Civil {
    /// Whether a date and time is earlier than another, field by field.
    pub open spec fn earlier(self, other: Civil) -> bool {
        ||| self.year < other.year
        ||| self.year == other.year && self.month < other.month
        ||| self.year == other.year && self.month == other.month && self.day < other.day
        ||| self.same_day(other) && self.hour < other.hour
        ||| self.same_day(other) && self.hour == other.hour && self.minute < other.minute
        ||| self.same_day(other) && self.hour == other.hour && self.minute == other.minute
            && self.second < other.second
    }

    pub open spec fn same_day(self, other: Civil) -> bool {
        self.year == other.year && self.month == other.month && self.day == other.day
    }
}

/// A day lies within its year.
proof fn lemma_day_in_year(c: Civil)
    requires
        c.valid(),
    ensures
        days_before_year(c.year) <= c.day_number() < days_before_year(c.year + 1),
{
    lemma_year_step(c.year);
    lemma_month_order(c.year, c.month, 13);
    if c.month > 1 {
        lemma_month_order(c.year, 1, c.month);
    }
    reveal_with_fuel(days_before_month, 2);
}

/// An earlier date and time stands for an earlier second.
pub proof fn lemma_earlier_is_less(a: Civil, b: Civil)
    requires
        a.valid(),
        b.valid(),
        a.earlier(b),
    ensures
        a.unix_seconds() < b.unix_seconds(),
{
    lemma_day_in_year(a);
    lemma_day_in_year(b);
    if a.year < b.year {
        lemma_year_order(a.year, b.year);
    } else if a.month < b.month {
        lemma_month_order(a.year, a.month, b.month);
        reveal_with_fuel(days_before_month, 2);
    }
}

/// A second has one date and time.
pub proof fn lemma_civil_unique(a: Civil, b: Civil)
    requires
        a.valid(),
        b.valid(),
        a.unix_seconds() == b.unix_seconds(),
    ensures
        a == b,
{
    if a.earlier(b) {
        lemma_earlier_is_less(a, b);
    }
    if b.earlier(a) {
        lemma_earlier_is_less(b, a);
    }
}

/// The days of a year before a year of at most four digits.
pub fn count_days_before_year(year: u64) -> (r: u64)
    requires
        year <= 10_000,
    ensures
        r == days_before_year(year as int),
{
    365 * year + (year + 3) / 4 - (year + 99) / 100 + (year + 399) / 400
}

/// The days of a month.
pub fn count_days_in_month(year: u64, month: u64) -> (r: u64)
    ensures
        r == days_in_month(year as int, month as int),
{
    if month == 2 {
        if year % 4 == 0 && (year % 100 != 0 || year % 400 == 0) {
            29
        } else {
            28
        }
    } else if month == 4 || month == 6 || month == 9 || month == 11 {
        30
    } else {
        31
    }
}

/// Year, month, day, hour, minute and second.
pub struct Fields {
    pub year: u64,
    pub month: u64,
    pub day: u64,
    pub hour: u64,
    pub minute: u64,
    pub second: u64,
}

impl View for Fields {
    type V = Civil;

    open spec fn view(&self) -> Civil {
        Civil {
            year: self.year as int,
            month: self.month as int,
            day: self.day as int,
            hour: self.hour as int,
            minute: self.minute as int,
            second: self.second as int,
        }
    }
}

/// A second of the day is its hours, minutes and seconds.
proof fn lemma_time_of_day(rest: int)
    requires
        0 <= rest < 86400,
    ensures
        0 <= rest / 3600 <= 23,
        0 <= rest / 60 % 60 <= 59,
        0 <= rest % 60 <= 59,
        3600 * (rest / 3600) + 60 * (rest / 60 % 60) + rest % 60 == rest,
{
    let minutes = rest / 60;
    assert(rest / 3600 == minutes / 60);
}

/// The year of a day, and the days of that year before it.
fn year_of_day(days: u64) -> (r: (u64, u64))
    requires
        days < 3652425,
    ensures
        r.0 <= 9999,
        days == days_before_year(r.0 as int) + r.1,
        r.1 < days_before_month(r.0 as int, 13) <= 366,
{
    let mut year: u64 = days / 366;
    assert(days_before_year(10_000) == 3652425);
    while count_days_before_year(year + 1) <= days
        invariant
            days < 3652425,
            year <= 9999,
            days_before_year(year as int) <= days,
            days_before_year(10_000) == 3652425,
        decreases 10_000 - year,
    {
        year += 1;
    }
    proof {
        lemma_year_step(year as int);
        lemma_month_order(year as int, 1, 13);
    }
    (year, days - count_days_before_year(year))
}

/// The month of a day of the year, and the days of that month before it.
fn month_of_day(year: u64, in_year: u64) -> (r: (u64, u64))
    requires
        in_year < days_before_month(year as int, 13) <= 366,
    ensures
        1 <= r.0 <= 12,
        in_year == days_before_month(year as int, r.0 as int) + r.1,
        r.1 < days_in_month(year as int, r.0 as int),
{
    let mut month: u64 = 1;
    let mut before: u64 = 0;
    while before + count_days_in_month(year, month) <= in_year
        invariant
            1 <= month <= 12,
            before == days_before_month(year as int, month as int),
            before <= in_year,
            in_year < days_before_month(year as int, 13) <= 366,
        decreases 12 - month,
    {
        before = before + count_days_in_month(year, month);
        month += 1;
        assert(before == days_before_month(year as int, month as int));
    }
    (month, in_year - before)
}

/// The date and time at a second.
fn fields_at(unix: i64) -> (r: Fields)
    requires
        in_range(unix as int),
    ensures
        r@.valid(),
        r@.unix_seconds() == unix,
{
    let since: u64 = (unix - FIRST_SECOND) as u64;
    let days: u64 = since / 86400;
    let rest: u64 = since % 86400;
    let (year, in_year) = year_of_day(days);
    let (month, in_month) = month_of_day(year, in_year);
    proof {
        lemma_time_of_day(rest as int);
        assert(days_before_year(1970) == 719528);
    }
    Fields {
        year,
        month,
        day: in_month + 1,
        hour: rest / 3600,
        minute: rest / 60 % 60,
        second: rest % 60,
    }
}

/// The text of one decimal digit.
pub fn digit_str(n: u64) -> (r: &'static str)
    requires
        n <= 9,
    ensures
        r@ == seq![digit(n as int)],
{
    if n == 0 {
        proof {
            reveal_strlit("0");
            assert("0"@ =~= seq![digit(0)]);
        }
        return "0";
    }
    if n == 1 {
        proof {
            reveal_strlit("1");
            assert("1"@ =~= seq![digit(1)]);
        }
        return "1";
    }
    if n == 2 {
        proof {
            reveal_strlit("2");
            assert("2"@ =~= seq![digit(2)]);
        }
        return "2";
    }
    if n == 3 {
        proof {
            reveal_strlit("3");
            assert("3"@ =~= seq![digit(3)]);
        }
        return "3";
    }
    if n == 4 {
        proof {
            reveal_strlit("4");
            assert("4"@ =~= seq![digit(4)]);
        }
        return "4";
    }
    if n == 5 {
        proof {
            reveal_strlit("5");
            assert("5"@ =~= seq![digit(5)]);
        }
        return "5";
    }
    if n == 6 {
        proof {
            reveal_strlit("6");
            assert("6"@ =~= seq![digit(6)]);
        }
        return "6";
    }
    if n == 7 {
        proof {
            reveal_strlit("7");
            assert("7"@ =~= seq![digit(7)]);
        }
        return "7";
    }
    if n == 8 {
        proof {
            reveal_strlit("8");
            assert("8"@ =~= seq![digit(8)]);
        }
        return "8";
    }
    proof {
        reveal_strlit("9");
        assert("9"@ =~= seq![digit(9)]);
    }
    "9"
}

/// Appends a number below a hundred as two digits.
fn append_two(out: &mut String, n: u64)
    requires
        n <= 99,
    ensures
        final(out)@ == old(out)@ + seq![digit(n as int / 10), digit(n as int % 10)],
{
    out.append(digit_str(n / 10));
    out.append(digit_str(n % 10));
    assert(out@ =~= old(out)@ + seq![digit(n as int / 10), digit(n as int % 10)]);
}

/// The text of a date.
#[verifier::spinoff_prover]
#[verifier::rlimit(50)]
fn fields_date_text(f: &Fields) -> (r: String)
    requires
        f@.valid(),
    ensures
        r@ == f@.date_text(),
{
    proof {
        reveal_strlit("-");
    }
    let mut out = String::new();
    append_two(&mut out, f.year / 100);
    append_two(&mut out, f.year % 100);
    out.append("-");
    append_two(&mut out, f.month);
    out.append("-");
    append_two(&mut out, f.day);
    assert(out@ =~= f@.date_text());
    out
}

/// The text of a time of day.
#[verifier::spinoff_prover]
#[verifier::rlimit(50)]
fn fields_time_text(f: &Fields) -> (r: String)
    requires
        f@.valid(),
    ensures
        r@ == f@.time_text(),
{
    proof {
        reveal_strlit(":");
    }
    let mut out = String::new();
    append_two(&mut out, f.hour);
    out.append(":");
    append_two(&mut out, f.minute);
    out.append(":");
    append_two(&mut out, f.second);
    assert(out@ =~= f@.time_text());
    out
}

/// The text of a date and time.
fn fields_text(f: &Fields) -> (r: String)
    requires
        f@.valid(),
    ensures
        r@ == f@.text(),
{
    proof {
        reveal_strlit("T");
        reveal_strlit("Z");
        assert("T"@ =~= seq!['T']);
        assert("Z"@ =~= seq!['Z']);
    }
    let mut out = fields_date_text(f);
    out.append("T");
    out.append(fields_time_text(f).as_str());
    out.append("Z");
    out
}

/// A second whose timestamp has a year of four digits.
pub struct Moment {
    unix: i64,
}

impl View for Moment {
    type V = int;

    closed spec fn view(&self) -> int {
        self.unix as int
    }
}

impl Moment {
    #[verifier::type_invariant]
    spec fn type_inv(self) -> bool {
        in_range(self.unix as int)
    }

    /// The moment at a Unix second, if its year has four digits.
    pub fn at(unix: i64) -> (r: Option<Moment>)
        ensures
            r is Some <==> in_range(unix as int),
            r matches Some(m) ==> m@ == unix,
    {
        if FIRST_SECOND <= unix && unix <= LAST_SECOND {
            Some(Moment { unix })
        } else {
            None
        }
    }

    /// The Unix second.
    pub fn unix(&self) -> (r: i64)
        ensures
            r == self@,
            in_range(self@),
    {
        proof {
            use_type_invariant(self);
        }
        self.unix
    }

    /// The moment `secs` seconds later, if its year has four digits.
    pub fn plus(&self, secs: i64) -> (r: Option<Moment>)
        ensures
            in_range(self@),
            r is Some <==> in_range(self@ + secs),
            r matches Some(m) ==> m@ == self@ + secs,
    {
        proof {
            use_type_invariant(self);
        }
        match self.unix.checked_add(secs) {
            Some(t) => Moment::at(t),
            None => None,
        }
    }

    /// The timestamp, `YYYY-MM-DDTHH:MM:SSZ`.
    pub fn text(&self) -> (r: String)
        ensures
            in_range(self@),
            r@ == timestamp_text(self@),
    {
        proof {
            use_type_invariant(self);
        }
        let f = fields_at(self.unix);
        proof {
            lemma_civil_at(f@);
        }
        fields_text(&f)
    }
}

/// A date and time is the one at its second.
pub proof fn lemma_civil_at(c: Civil)
    requires
        c.valid(),
    ensures
        civil_at(c.unix_seconds()) == c,
{
    lemma_civil_unique(civil_at(c.unix_seconds()), c);
}

/// The date and time that a text of the shape `YYYY-MM-DDTHH:MM:SS` spells.
pub open spec fn civil_of_text(s: Seq<char>) -> Civil {
    Civil {
        year: 1000 * digit_value(s[0]) + 100 * digit_value(s[1]) + 10 * digit_value(s[2])
            + digit_value(s[3]),
        month: 10 * digit_value(s[5]) + digit_value(s[6]),
        day: 10 * digit_value(s[8]) + digit_value(s[9]),
        hour: 10 * digit_value(s[11]) + digit_value(s[12]),
        minute: 10 * digit_value(s[14]) + digit_value(s[15]),
        second: 10 * digit_value(s[17]) + digit_value(s[18]),
    }
}

/// Whether a text has the shape `YYYY-MM-DDTHH:MM:SSZ`.
pub open spec fn has_timestamp_shape(s: Seq<char>) -> bool {
    s.len() == 20 && looks_like_datetime(s.take(19)) && s[10] == 'T' && s[19] == 'Z'
}

/// The number of one decimal digit.
pub fn digit_number(c: char) -> (r: u64)
    requires
        is_digit(c),
    ensures
        r == digit_value(c),
        r <= 9,
{
    (c as u32 - 48) as u64
}

/// `LIKE` pattern that every stored timestamp must match: `_` stands for any
/// one character, so the pattern pins the length and every separator.
pub const TS_PATTERN: &'static str = "____-__-__T__:__:__Z";

/// Whether a text matches a `LIKE` pattern without `%`: `_` matches any
/// character, any other character matches itself up to ASCII case.
pub open spec fn matches_like(pattern: Seq<char>, s: Seq<char>) -> bool {
    s.len() == pattern.len() && forall|i: int|
        0 <= i < s.len() ==> (#[trigger] pattern[i] == '_' || text::ascii_upper(s[i])
            == text::ascii_upper(pattern[i]))
}

/// Whether a timestamp matches [`TS_PATTERN`].
pub fn matches_ts_pattern(ts: &str) -> (r: bool)
    ensures
        r == matches_like(TS_PATTERN@, ts@),
{
    let pattern = text::chars_of(TS_PATTERN);
    let xs = text::chars_of(ts);
    if xs.len() != pattern.len() {
        return false;
    }
    let mut i: usize = 0;
    while i < xs.len()
        invariant
            pattern@ == TS_PATTERN@,
            xs@ == ts@,
            xs.len() == pattern.len(),
            i <= xs.len(),
            forall|j: int|
                0 <= j < i ==> (#[trigger] pattern@[j] == '_' || text::ascii_upper(xs@[j])
                    == text::ascii_upper(pattern@[j])),
        decreases xs.len() - i,
    {
        if pattern[i] != '_' && text::char_ascii_upper(xs[i]) != text::char_ascii_upper(pattern[i]) {
            assert(pattern@[i as int] != '_');
            return false;
        }
        i += 1;
    }
    true
}

/// Finds the year of a day.
proof fn lemma_year_exists(days: int, from: int) -> (year: int)
    requires
        0 <= from <= 9999,
        days_before_year(from) <= days < days_before_year(10_000),
    ensures
        from <= year <= 9999,
        days_before_year(year) <= days < days_before_year(year + 1),
    decreases 9999 - from,
{
    if days < days_before_year(from + 1) {
        from
    } else {
        lemma_year_exists(days, from + 1)
    }
}

/// Finds the month of a day of a year.
proof fn lemma_month_exists(year: int, in_year: int, from: int) -> (month: int)
    requires
        1 <= from <= 12,
        days_before_month(year, from) <= in_year < days_before_month(year, 13),
    ensures
        from <= month <= 12,
        days_before_month(year, month) <= in_year < days_before_month(year, month + 1),
    decreases 12 - from,
{
    if in_year < days_before_month(year, from + 1) {
        from
    } else {
        lemma_month_exists(year, in_year, from + 1)
    }
}

/// Every second whose year has four digits has a date and time, and every date
/// and time is such a second.
pub proof fn lemma_civil_at_valid(unix: int)
    requires
        in_range(unix),
    ensures
        civil_at(unix).valid(),
        civil_at(unix).unix_seconds() == unix,
{
    assert(days_before_year(0) == 0);
    assert(days_before_year(1970) == 719528);
    assert(days_before_year(10_000) == 3652425);
    let since = unix - FIRST_SECOND;
    let days = since / 86400;
    let rest = since % 86400;
    let year = lemma_year_exists(days, 0);
    let in_year = days - days_before_year(year);
    lemma_year_step(year);
    lemma_month_order(year, 1, 13);
    let month = lemma_month_exists(year, in_year, 1);
    lemma_time_of_day(rest);
    let c = Civil {
        year,
        month,
        day: in_year - days_before_month(year, month) + 1,
        hour: rest / 3600,
        minute: rest / 60 % 60,
        second: rest % 60,
    };
    assert(c.valid());
    assert(c.unix_seconds() == unix);
}

/// The characters of a timestamp, position by position.
pub proof fn lemma_text_positions(c: Civil)
    requires
        c.spellable(),
    ensures
        c.text().len() == 20,
        c.text().take(10) == c.date_text(),
        c.text().subrange(11, 19) == c.time_text(),
        forall|i: int| 0 <= i < 10 ==> #[trigger] c.text()[i] == c.date_text()[i],
        forall|i: int| 11 <= i < 19 ==> #[trigger] c.text()[i] == c.time_text()[i - 11],
        c.text()[10] == 'T',
        c.text()[19] == 'Z',
        forall|i: int| 0 <= i < 19 && !is_separator_position(i) ==> is_digit(#[trigger] c.text()[i]),
        looks_like_datetime(c.text().take(19)),
        has_timestamp_shape(c.text()),
{
    let t = c.text();
    let d = c.date_text();
    let h = c.time_text();
    assert(t.take(10) =~= d);
    assert(t.subrange(11, 19) =~= h);
    assert forall|i: int| 0 <= i < 19 && !is_separator_position(i) implies is_digit(
        #[trigger] t[i],
    ) by {
        if i < 10 {
            assert(t[i] == d[i]);
        } else {
            assert(t[i] == h[i - 11]);
        }
    }
    assert forall|i: int| 0 <= i < 19 && !is_separator_position(i) implies is_digit(
        #[trigger] t.take(19)[i],
    ) by {
        assert(t.take(19)[i] == t[i]);
    }
    assert(t[4] == d[4] && t[7] == d[7] && t[13] == h[2] && t[16] == h[5]);
}

/// The normal form of a timestamp is the timestamp.
pub proof fn lemma_text_is_normal(unix: int)
    requires
        in_range(unix),
    ensures
        normalized(timestamp_text(unix)) == timestamp_text(unix),
        has_timestamp_shape(timestamp_text(unix)),
{
    lemma_civil_at_valid(unix);
    let t = timestamp_text(unix);
    lemma_text_positions(civil_at(unix));
    assert(is_digit(t[0]));
    text::lemma_trim_bare(t);
}

/// A digit stands for its number.
proof fn lemma_digit(n: int)
    requires
        0 <= n <= 9,
    ensures
        digit_value(digit(n)) == n,
{
}

/// A number of two digits is spelled by them.
proof fn lemma_two_digits(n: int)
    requires
        0 <= n <= 99,
    ensures
        10 * digit_value(digit(n / 10)) + digit_value(digit(n % 10)) == n,
{
}

/// A number of four digits is spelled by them.
proof fn lemma_four_digits(n: int)
    requires
        0 <= n <= 9999,
    ensures
        1000 * digit_value(digit(n / 1000)) + 100 * digit_value(digit(n / 100 % 10)) + 10
            * digit_value(digit(n / 10 % 10)) + digit_value(digit(n % 10)) == n,
{
    let tens = n / 10;
    let hundreds = tens / 10;
    assert(n / 100 == hundreds);
    assert(n / 1000 == hundreds / 10);
    lemma_digit(n / 1000);
    lemma_digit(n / 100 % 10);
    lemma_digit(n / 10 % 10);
    lemma_digit(n % 10);
}

/// A timestamp spells its date and time.
pub proof fn lemma_text_spells(c: Civil)
    requires
        c.spellable(),
    ensures
        civil_of_text(c.text()) == c,
{
    let t = c.text();
    lemma_text_positions(c);
    let r = civil_of_text(t);
    assert(r.year == c.year) by {
        lemma_four_digits(c.year);
        let d = c.date_text();
        assert(t[0] == d[0] && t[1] == d[1] && t[2] == d[2] && t[3] == d[3]);
    }
    assert(r.month == c.month) by {
        lemma_two_digits(c.month);
        assert(t[5] == c.date_text()[5] && t[6] == c.date_text()[6]);
    }
    assert(r.day == c.day) by {
        lemma_two_digits(c.day);
        assert(t[8] == c.date_text()[8] && t[9] == c.date_text()[9]);
    }
    assert(r.hour == c.hour) by {
        lemma_two_digits(c.hour);
        assert(t[11] == c.time_text()[0] && t[12] == c.time_text()[1]);
    }
    assert(r.minute == c.minute) by {
        lemma_two_digits(c.minute);
        assert(t[14] == c.time_text()[3] && t[15] == c.time_text()[4]);
    }
    assert(r.second == c.second) by {
        lemma_two_digits(c.second);
        assert(t[17] == c.time_text()[6] && t[18] == c.time_text()[7]);
    }
}

/// Every timestamp that is written matches the pattern of stored timestamps.
pub proof fn lemma_text_matches_pattern(unix: int)
    requires
        in_range(unix),
    ensures
        matches_like(TS_PATTERN@, timestamp_text(unix)),
{
    reveal_strlit("____-__-__T__:__:__Z");
    lemma_civil_at_valid(unix);
    let c = civil_at(unix);
    lemma_text_positions(c);
    let t = c.text();
    let d = c.date_text();
    let h = c.time_text();
    assert(t[4] == d[4] && t[7] == d[7] && t[13] == h[2] && t[16] == h[5]);
}

/// Of two timestamps the one with the smaller character at the first difference
/// spells the earlier date and time.
proof fn lemma_smaller_spells_earlier(t: Seq<char>, u: Seq<char>, k: int)
    requires
        has_timestamp_shape(t),
        has_timestamp_shape(u),
        0 <= k < 20,
        forall|i: int| 0 <= i < k ==> t[i] == u[i],
        t[k] < u[k],
    ensures
        civil_of_text(t).earlier(civil_of_text(u)),
{
    assert forall|i: int| 0 <= i < 19 && !is_separator_position(i) implies is_digit(
        #[trigger] t[i],
    ) && is_digit(u[i]) by {
        assert(t[i] == t.take(19)[i]);
        assert(u[i] == u.take(19)[i]);
    }
    assert(t[4] == t.take(19)[4] && t[7] == t.take(19)[7] && t[13] == t.take(19)[13] && t[16]
        == t.take(19)[16]);
    assert(u[4] == u.take(19)[4] && u[7] == u.take(19)[7] && u[13] == u.take(19)[13] && u[16]
        == u.take(19)[16]);
    let a = civil_of_text(t);
    let b = civil_of_text(u);
    if k < 4 {
        assert(is_digit(t[0]) && is_digit(t[1]) && is_digit(t[2]) && is_digit(t[3]));
        assert(a.year < b.year);
    } else {
        assert(a.year == b.year);
        if k < 7 {
            assert(is_digit(t[5]) && is_digit(t[6]));
            assert(a.month < b.month);
        } else {
            assert(a.month == b.month);
            if k < 10 {
                assert(is_digit(t[8]) && is_digit(t[9]));
                assert(a.day < b.day);
            } else {
                assert(a.day == b.day);
                if k < 13 {
                    assert(is_digit(t[11]) && is_digit(t[12]));
                    assert(a.hour < b.hour);
                } else {
                    assert(a.hour == b.hour);
                    if k < 16 {
                        assert(is_digit(t[14]) && is_digit(t[15]));
                        assert(a.minute < b.minute);
                    } else {
                        assert(a.minute == b.minute);
                        assert(is_digit(t[17]) && is_digit(t[18]));
                        assert(a.second < b.second);
                    }
                }
            }
        }
    }
}

/// Comparing timestamps as text compares the seconds that they stand for.
pub proof fn lemma_text_order_is_time_order(a: int, b: int)
    requires
        in_range(a),
        in_range(b),
    ensures
        text::lex_lt(timestamp_text(a), timestamp_text(b)) <==> a < b,
        timestamp_text(a) == timestamp_text(b) <==> a == b,
{
    lemma_civil_at_valid(a);
    lemma_civil_at_valid(b);
    lemma_text_spells(civil_at(a));
    lemma_text_spells(civil_at(b));
    let t = timestamp_text(a);
    let u = timestamp_text(b);
    text::lemma_lex_total(t, u);
    text::lemma_lex_irreflexive(t);
    if text::lex_lt(t, u) {
        lemma_text_lt_is_time_lt(a, b);
    }
    if text::lex_lt(u, t) {
        lemma_text_lt_is_time_lt(b, a);
    }
}

proof fn lemma_text_lt_is_time_lt(a: int, b: int)
    requires
        in_range(a),
        in_range(b),
        text::lex_lt(timestamp_text(a), timestamp_text(b)),
    ensures
        a < b,
{
    lemma_text_is_normal(a);
    lemma_text_is_normal(b);
    lemma_civil_at_valid(a);
    lemma_civil_at_valid(b);
    lemma_civil_at_valid(a);
    lemma_civil_at_valid(b);
    lemma_text_spells(civil_at(a));
    lemma_text_spells(civil_at(b));
    let k = text::lemma_lex_has_first_difference(timestamp_text(a), timestamp_text(b));
    lemma_smaller_spells_earlier(timestamp_text(a), timestamp_text(b), k);
    lemma_earlier_is_less(civil_at(a), civil_at(b));
}

/// Normalizing a normalized timestamp changes nothing.
pub proof fn lemma_normalize_idempotent(raw: Seq<char>)
    ensures
        normalized(normalized(raw)) == normalized(raw),
{
    let s = text::trimmed(raw);
    text::lemma_trim_idempotent(raw);
    if looks_like_datetime(s) {
        let t = s.take(10) + seq!['T'] + s.skip(11) + seq!['Z'];
        assert(t.len() == 20);
        assert forall|i: int| 0 <= i < 19 && i != 10 implies #[trigger] t.take(19)[i] == s[i] by {
            if i > 10 {
                assert(t[i] == s.skip(11)[i - 11]);
            }
        }
        assert(is_digit(t.take(19)[0]));
        assert(t[0] == t.take(19)[0]);
        assert(t.last() == 'Z');
        text::lemma_trim_bare(t);
        assert(looks_like_datetime(t.take(19)));
    }
}

/// A legacy row's date and time becomes the timestamp of the same second,
/// whether a space or a `T` stands between them.
pub proof fn lemma_legacy_is_repaired(unix: int, separator: char)
    requires
        in_range(unix),
        separator == ' ' || separator == 'T',
    ensures
        normalized(civil_at(unix).date_text() + seq![separator] + civil_at(unix).time_text())
            == timestamp_text(unix),
{
    lemma_civil_at_valid(unix);
    let c = civil_at(unix);
    lemma_text_positions(c);
    let s = c.date_text() + seq![separator] + c.time_text();
    let t = c.text();
    assert(s.len() == 19);
    assert forall|i: int| 0 <= i < 19 && i != 10 implies #[trigger] s[i] == t[i] by {
        if i > 10 {
            assert(s[i] == c.time_text()[i - 11]);
        }
    }
    assert(t.take(19)[4] == t[4] && t.take(19)[7] == t[7] && t.take(19)[13] == t[13] && t.take(19)[16]
        == t[16]);
    assert(is_digit(t[0]) && is_digit(t[18]));
    assert(s[0] == t[0] && s.last() == t[18]);
    text::lemma_trim_bare(s);
    assert(looks_like_datetime(s));
    assert(s.take(10) + seq!['T'] + s.skip(11) + seq!['Z'] =~= t);
}

/// What normalizing leaves alone: a text that is rewritten starts, behind whitespace at
/// most, with a date and time of nineteen characters, and either ends there or names
/// its offset.
pub proof fn law_only_dates_are_rewritten(raw: Seq<char>)
    ensures
        ({
            let s = text::trimmed(raw);
            &&& normalized(raw) != raw ==> {
                &&& s.len() >= 19
                &&& s[4] == '-' && s[7] == '-' && s[13] == ':' && s[16] == ':'
                &&& s[10] == ' ' || s[10] == 'T'
                &&& forall|i: int|
                    0 <= i < 19 && i != 4 && i != 7 && i != 10 && i != 13 && i != 16 ==> '0' <= (
                    #[trigger] s[i]) <= '9'
                &&& s.len() == 19 || s.last() == 'Z' || s.contains('+')
            }
            &&& normalized(raw) != raw && s.len() > 19 ==> normalized(raw) == s
        }),
{
    let s = text::trimmed(raw);
    if normalized(raw) != raw {
        let d = s.take(19);
        if s.len() == 19 {
            assert(d =~= s);
        }
        assert(d[4] == s[4] && d[7] == s[7] && d[10] == s[10] && d[13] == s[13] && d[16] == s[16]);
        assert forall|i: int|
            0 <= i < 19 && i != 4 && i != 7 && i != 10 && i != 13 && i != 16 implies '0' <= (
        #[trigger] s[i]) <= '9' by {
            assert(is_digit(d[i]));
        }
    }
}

} // verus!
