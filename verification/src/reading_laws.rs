//! What holds of how stored timestamps are read.
use vstd::prelude::*;

use crate::julian;
use crate::julian::Decimal;
use crate::money;
use crate::reading;
use crate::text;
use crate::timestamp;
use crate::timestamp::Civil;

verus! {

/// The midnight that starts a day of a month, counted from the first of the month: the
/// day may lie behind the month's end.
proof fn lemma_day_of_month(c: Civil)
    requires
        c.spellable(),
        1 <= c.month <= 12,
        1 <= c.day <= 31,
    ensures
        ({
            let first = Civil { day: 1, hour: 0, minute: 0, second: 0, ..c };
            reading::midnight_at(c.year, c.month, c.day) == first.unix_seconds() + 86400 * (c.day
                - 1)
        }),
        reading::midnight_at(c.year, c.month, c.day) >= timestamp::FIRST_SECOND,
{
    let first = Civil { day: 1, hour: 0, minute: 0, second: 0, ..c };
    let start = Civil { year: 0, month: 1, day: 1, hour: 0, minute: 0, second: 0 };
    assert(first.valid());
    assert(start.valid());
    if first != start {
        timestamp::lemma_earlier_is_less(start, first);
    }
    assert(start.unix_seconds() == timestamp::FIRST_SECOND);
}

/// A date and time is read where its month, day, hour, minute and second are in bounds,
/// whatever the length of the month: a day behind the month's end counts on into the next
/// month, and hour 24 into the next day. Nothing is read behind the year 9999.
pub proof fn law_date_and_time(c: Civil, now: int)
    requires
        c.spellable(),
    ensures
        ({
            let first = Civil { day: 1, hour: 0, minute: 0, second: 0, ..c };
            let t = first.unix_seconds() + 86400 * (c.day - 1) + 3600 * c.hour + 60 * c.minute
                + c.second;
            reading::unix_of_text(c.text(), now) == (if 1 <= c.month <= 12 && 1 <= c.day <= 31
                && c.hour <= 24 && c.minute <= 59 && c.second <= 59 && t
                <= timestamp::LAST_SECOND {
                Some(t)
            } else {
                None
            })
        }),
{
    timestamp::lemma_text_positions(c);
    timestamp::lemma_text_spells(c);
    reading::lemma_datetime_reads(c.text(), now);
    if 1 <= c.month <= 12 && 1 <= c.day <= 31 {
        lemma_day_of_month(c);
    }
}

/// A date without a time of day is its midnight.
pub proof fn law_date_alone(c: Civil, now: int)
    requires
        c.spellable(),
    ensures
        ({
            let first = Civil { day: 1, hour: 0, minute: 0, second: 0, ..c };
            let t = first.unix_seconds() + 86400 * (c.day - 1);
            reading::unix_of_text(c.date_text(), now) == (if 1 <= c.month <= 12 && 1 <= c.day <= 31
                && t <= timestamp::LAST_SECOND {
                Some(t)
            } else {
                None
            })
        }),
{
    timestamp::lemma_text_positions(c);
    timestamp::lemma_text_spells(c);
    if 1 <= c.month <= 12 && 1 <= c.day <= 31 {
        lemma_day_of_month(c);
    }
    let s = c.date_text();
    let t = c.text();
    assert forall|i: int| 0 <= i < 10 implies s[i] == t[i] by {}
    assert(timestamp::is_digit(t[0]) && timestamp::is_digit(t[1]) && timestamp::is_digit(t[2])
        && timestamp::is_digit(t[3]) && timestamp::is_digit(t[5]) && timestamp::is_digit(t[6])
        && timestamp::is_digit(t[8]) && timestamp::is_digit(t[9]));
    reading::lemma_nul_position(s);
    assert(s.take(10) =~= s);
    assert(s.skip(10).len() == 0);
    assert(timestamp::civil_of_text(t) == c);
    reading::lemma_datetime_is_only_that(s);
}

/// A time of day without a date is one of 1 January 2000.
pub proof fn law_time_alone(c: Civil, now: int)
    requires
        c.spellable(),
        c.hour <= 24,
        c.minute <= 59,
        c.second <= 59,
    ensures
        ({
            let day = Civil { year: 2000, month: 1, day: 1, hour: 0, minute: 0, second: 0 };
            let t = day.unix_seconds() + 3600 * c.hour + 60 * c.minute;
            &&& reading::unix_of_text(c.time_text(), now) == Some(t + c.second)
            &&& reading::unix_of_text(c.time_text().take(5), now) == Some(t)
        }),
{
    timestamp::lemma_text_positions(c);
    timestamp::lemma_text_spells(c);
    let s = c.time_text();
    let t = c.text();
    assert forall|i: int| 0 <= i < 8 implies s[i] == t[i + 11] by {}
    assert(timestamp::is_digit(t[11]) && timestamp::is_digit(t[12]) && timestamp::is_digit(t[14])
        && timestamp::is_digit(t[15]) && timestamp::is_digit(t[17]) && timestamp::is_digit(t[18]));
    assert(s[2] == ':' && s[5] == ':');
    reading::lemma_nul_position(s);
    assert(s.take(8) =~= s);
    let u = s.skip(5);
    assert(u[0] == s[5] && u[1] == s[6] && u[2] == s[7]);
    assert(u.skip(3).len() == 0);
    assert(reading::date_time_of(s) is None);
    assert(reading::time_of(s) == Some(c.second_of_day()));
    let m = s.take(5);
    reading::lemma_nul_position(m);
    assert(m.take(5) =~= m);
    assert(m.skip(5).len() == 0);
    assert(reading::date_time_of(m) is None);
    assert(reading::time_of(m) == Some(3600 * c.hour + 60 * c.minute));
    reveal_with_fuel(timestamp::days_before_month, 2);
}

/// A timestamp may carry a numeric offset of at most fourteen hours and fifty-nine
/// minutes: it then names the second that much earlier, or later for a negative one. With
/// any other it is not read.
pub proof fn law_numeric_offset(unix: int, ahead: bool, hours: int, minutes: int, now: int)
    requires
        timestamp::in_range(unix),
        0 <= hours <= 99,
        0 <= minutes <= 99,
    ensures
        ({
            let t = if ahead {
                unix - (3600 * hours + 60 * minutes)
            } else {
                unix + (3600 * hours + 60 * minutes)
            };
            reading::unix_of_text(
                timestamp::timestamp_text(unix).take(19) + seq![
                    if ahead {
                        '+'
                    } else {
                        '-'
                    },
                    timestamp::digit(hours / 10),
                    timestamp::digit(hours % 10),
                    ':',
                    timestamp::digit(minutes / 10),
                    timestamp::digit(minutes % 10),
                ],
                now,
            ) == (if hours <= 14 && minutes <= 59 && t <= timestamp::LAST_SECOND {
                Some(t)
            } else {
                None
            })
        }),
{
    let sign = if ahead {
        '+'
    } else {
        '-'
    };
    let zone = seq![
        sign,
        timestamp::digit(hours / 10),
        timestamp::digit(hours % 10),
        ':',
        timestamp::digit(minutes / 10),
        timestamp::digit(minutes % 10),
    ];
    assert(text::without_blanks(zone) == zone);
    assert(zone.skip(6).len() == 0);
    assert(reading::number_at(zone, 1) == Some(hours));
    assert(reading::number_at(zone, 4) == Some(minutes));
    reading::lemma_zoned_text_reads(unix, zone, now);
}

/// A date and time with nothing behind its seconds is one in UTC.
pub proof fn law_without_offset(unix: int, now: int)
    requires
        timestamp::in_range(unix),
    ensures
        reading::unix_of_text(timestamp::timestamp_text(unix).take(19), now) == Some(unix),
{
    let s = timestamp::timestamp_text(unix).take(19);
    assert(s + Seq::<char>::empty() =~= s);
    reading::lemma_zoned_text_reads(unix, Seq::empty(), now);
}

/// A `Z` of either case behind a timestamp means UTC, with blanks before and behind it or
/// none.
pub proof fn law_utc(unix: int, before: Seq<char>, z: char, behind: Seq<char>, now: int)
    requires
        timestamp::in_range(unix),
        z == 'Z' || z == 'z',
        forall|i: int| 0 <= i < before.len() ==> is_space(#[trigger] before[i]),
        forall|i: int| 0 <= i < behind.len() ==> is_space(#[trigger] behind[i]),
    ensures
        reading::unix_of_text(
            timestamp::timestamp_text(unix).take(19) + (before + seq![z] + behind),
            now,
        ) == Some(unix),
{
    let zone = before + seq![z] + behind;
    let u = seq![z] + behind;
    lemma_blanks(before, u);
    lemma_blanks(behind, Seq::empty());
    assert(behind + Seq::<char>::empty() =~= behind);
    assert(zone =~= before + u);
    assert(text::without_blanks(u) == u);
    assert(u.skip(1) =~= behind);
    assert(reading::offset_of(zone) == Some(0int));
    reading::lemma_zoned_text_reads(unix, zone, now);
}

/// Whether a character is a space, a tab, a line feed, a vertical tab, a form feed or a
/// carriage return.
pub open spec fn is_space(c: char) -> bool {
    c == ' ' || c as int == 9 || c as int == 10 || c as int == 11 || c as int == 12 || c as int
        == 13
}

/// Blanks before a text that starts with none are taken off.
proof fn lemma_blanks(blanks: Seq<char>, s: Seq<char>)
    requires
        forall|i: int| 0 <= i < blanks.len() ==> is_space(#[trigger] blanks[i]),
        s.len() > 0 ==> !text::is_blank(s[0]),
    ensures
        text::without_blanks(blanks + s) == s,
    decreases blanks.len(),
{
    if blanks.len() > 0 {
        let r = blanks.drop_first();
        assert(is_space(blanks[0]));
        assert forall|i: int| 0 <= i < r.len() implies is_space(#[trigger] r[i]) by {
            assert(r[i] == blanks[i + 1]);
        }
        assert((blanks + s).drop_first() =~= r + s);
        lemma_blanks(r, s);
    } else {
        assert(blanks + s =~= s);
    }
}

/// A fraction of a second is rounded to milliseconds and then cut: it adds a second
/// where its first four digits spell 9995 or more, and nothing otherwise.
pub proof fn law_fraction_rounds(unix: int, fraction: Seq<char>, now: int)
    requires
        timestamp::in_range(unix),
        unix < timestamp::LAST_SECOND,
        fraction.len() > 0,
        forall|i: int| 0 <= i < fraction.len() ==> '0' <= (#[trigger] fraction[i]) <= '9',
    ensures
        ({
            let d = |i: int| fraction[i] as int - '0' as int;
            let t = if fraction.len() >= 4 && 1000 * d(0) + 100 * d(1) + 10 * d(2) + d(3) >= 9995 {
                unix + 1
            } else {
                unix
            };
            reading::unix_of_text(
                timestamp::timestamp_text(unix).take(19) + (seq!['.'] + fraction),
                now,
            ) == Some(t)
        }),
{
    let zone = seq!['.'] + fraction;
    assert(zone.drop_first() =~= fraction);
    assert forall|i: int| 1 <= i < zone.len() implies zone[i] == fraction[i - 1] by {}
    lemma_digits_only(fraction);
    assert(reading::has_fraction(zone));
    assert(reading::without_fraction(zone).len() == 0);
    reading::lemma_zoned_text_reads(unix, zone, now);
}

/// Nothing is left of digits without their leading digits.
proof fn lemma_digits_only(s: Seq<char>)
    requires
        forall|i: int| 0 <= i < s.len() ==> '0' <= (#[trigger] s[i]) <= '9',
    ensures
        reading::without_digits(s).len() == 0,
    decreases s.len(),
{
    if s.len() > 0 {
        let r = s.drop_first();
        assert forall|i: int| 0 <= i < r.len() implies '0' <= (#[trigger] r[i]) <= '9' by {
            assert(r[i] == s[i + 1]);
        }
        lemma_digits_only(r);
    }
}

/// The names of the current time, in any case.
pub proof fn law_current_time(s: Seq<char>, now: int)
    requires
        text::same_ignoring_case(s, "now"@) || text::same_ignoring_case(s, "subsec"@)
            || text::same_ignoring_case(s, "subsecond"@),
        timestamp::in_range(now),
    ensures
        reading::unix_of_text(s, now) == Some(now),
{
    reading::lemma_now_is_no_number(s);
    reveal_strlit("now");
    reveal_strlit("subsec");
    reveal_strlit("subsecond");
    assert(text::ascii_upper("now"@[0]) == 'N');
    assert(text::ascii_upper("subsec"@[0]) == 'S');
    assert(text::ascii_upper("subsecond"@[0]) == 'S');
    assert(!timestamp::is_digit(s[0]) && s[0] != '-');
    assert(reading::second_of(s, now) == Some(now));
    assert forall|i: int| 0 <= i < s.len() implies s[i] != '\0' by {
        if text::same_ignoring_case(s, "now"@) {
            assert(text::ascii_upper(s[i]) == text::ascii_upper("now"@[i]));
        } else if text::same_ignoring_case(s, "subsec"@) {
            assert(text::ascii_upper(s[i]) == text::ascii_upper("subsec"@[i]));
        } else {
            assert(text::ascii_upper(s[i]) == text::ascii_upper("subsecond"@[i]));
        }
    }
    reading::lemma_nul_position(s);
    assert(s.take(s.len() as int) =~= s);
}

/// Where the first NUL stands.
proof fn lemma_nul_ends(s: Seq<char>, tail: Seq<char>)
    requires
        forall|i: int| 0 <= i < s.len() ==> s[i] != '\0',
    ensures
        reading::nul_position(s + seq!['\0'] + tail) == s.len(),
    decreases s.len(),
{
    let t = s + seq!['\0'] + tail;
    if s.len() > 0 {
        let r = s.drop_first();
        assert forall|i: int| 0 <= i < r.len() implies r[i] != '\0' by {
            assert(r[i] == s[i + 1]);
        }
        lemma_nul_ends(r, tail);
        assert(t[0] == s[0]);
        assert(t.drop_first() =~= r + seq!['\0'] + tail);
    } else {
        assert(t[0] == '\0');
    }
}

/// Whatever a text reads as, what stands behind its first NUL does not change it.
pub proof fn law_nul_ends_a_text(s: Seq<char>, tail: Seq<char>, now: int)
    requires
        forall|i: int| 0 <= i < s.len() ==> s[i] != '\0',
    ensures
        reading::unix_of_text(s + seq!['\0'] + tail, now) == reading::unix_of_text(s, now),
{
    reading::lemma_nul_position(s);
    lemma_nul_ends(s, tail);
    assert(s.take(s.len() as int) =~= s);
    assert((s + seq!['\0'] + tail).take(s.len() as int) =~= s);
}

/// The number that digits add to one read before.
proof fn lemma_with_digits(
    before: Seq<char>,
    digits: Seq<char>,
    rest: Seq<char>,
    scale: int,
    behind_point: bool,
)
    requires
        money::all_digits(before),
        money::all_digits(digits),
        rest.len() > 0 ==> !timestamp::is_digit(rest[0]),
        money::number_of(before + digits) < julian::SIGNIFICAND_LIMIT,
    ensures
        julian::with_digits(
            digits + rest,
            (Decimal { significand: money::number_of(before), scale }),
            behind_point,
        ) == (
            (Decimal {
                significand: money::number_of(before + digits),
                scale: if behind_point {
                    scale - digits.len()
                } else {
                    scale
                },
            }),
            rest,
        ),
    decreases digits.len(),
{
    if digits.len() > 0 {
        let c = digits[0];
        let tail = digits.drop_first();
        let longer = before.push(c);
        assert(longer + tail =~= before + digits);
        assert(longer.drop_last() =~= before);
        assert(timestamp::is_digit(c));
        assert forall|i: int| 0 <= i < tail.len() implies timestamp::is_digit(
            #[trigger] tail[i],
        ) by {
            assert(tail[i] == digits[i + 1]);
        }
        let all = before + digits;
        assert forall|i: int| 0 <= i < all.len() implies timestamp::is_digit(#[trigger] all[i]) by {
            if i >= before.len() {
                assert(all[i] == digits[i - before.len()]);
            }
        }
        money::lemma_number_prefix(all, before.len() as int);
        assert(all.take(before.len() as int) =~= before);
        lemma_with_digits(
            longer,
            tail,
            rest,
            if behind_point {
                scale - 1
            } else {
                scale
            },
            behind_point,
        );
        assert((digits + rest).drop_first() =~= tail + rest);
    } else {
        assert(digits + rest =~= rest);
        assert(before + digits =~= before);
    }
}

/// A number is a Julian day, with decimal places or none: the count of days, and the part
/// of one, since the start of Julian days, rounded to milliseconds and cut to the second.
/// It is read up to the end of the year 9999.
pub proof fn law_julian_day(whole: Seq<char>, fraction: Seq<char>, now: int)
    requires
        whole.len() > 0,
        forall|i: int| 0 <= i < whole.len() ==> '0' <= (#[trigger] whole[i]) <= '9',
        forall|i: int| 0 <= i < fraction.len() ==> '0' <= (#[trigger] fraction[i]) <= '9',
        whole.len() + fraction.len() <= 18,
    ensures
        ({
            let n = money::number_of(whole + fraction);
            let p = money::pow10(fraction.len() as int);
            let r = reading::unix_of_text(whole + seq!['.'] + fraction, now);
            &&& r matches Some(t) ==> {
                let elapsed = t - julian::JULIAN_START;
                2000 * p * elapsed - p <= 172_800_000 * n < 2000 * p * (elapsed + 1) - p
            }
            &&& r is None <==> 172_800_000 * n >= 2000 * p * (timestamp::LAST_SECOND + 1
                - julian::JULIAN_START) - p
        }),
{
    let s = whole + seq!['.'] + fraction;
    assert(money::all_digits(whole));
    assert(money::all_digits(fraction));
    let all = whole + fraction;
    lemma_concat_digits(whole, fraction);
    lemma_number_below(all);
    let empty = Seq::<char>::empty();
    lemma_scaled_day(whole, fraction, empty, 0, now);
    assert(s + empty =~= s);
    let n = money::number_of(all);
    let p = money::pow10(fraction.len() as int);
    let d = Decimal { significand: n, scale: -(fraction.len() as int) };
    assert(money::pow10(d.scale) == 1);
    lemma_pow10_positive(fraction.len() as int);
    lemma_milliseconds(n, p);
}

/// A number may do without a decimal point, have blanks around it, or start with a `+`.
/// Below zero no day is read.
pub proof fn law_forms_of_a_day(
    before: Seq<char>,
    whole: Seq<char>,
    behind: Seq<char>,
    now: int,
)
    requires
        whole.len() > 0,
        forall|i: int| 0 <= i < whole.len() ==> '0' <= (#[trigger] whole[i]) <= '9',
        whole.len() <= 18,
        forall|i: int| 0 <= i < before.len() ==> is_space(#[trigger] before[i]),
        forall|i: int| 0 <= i < behind.len() ==> is_space(#[trigger] behind[i]),
    ensures
        ({
            let r = reading::unix_of_text(whole + seq!['.'], now);
            &&& reading::unix_of_text(before + whole + behind, now) == r
            &&& reading::unix_of_text(before + (seq!['+'] + whole) + behind, now) == r
            &&& money::number_of(whole) > 0 ==> reading::unix_of_text(
                before + (seq!['-'] + whole) + behind,
                now,
            ) is None
        }),
{
    let empty = Seq::<char>::empty();
    assert(money::all_digits(whole));
    assert(whole + empty =~= whole);
    assert(empty + whole =~= whole);
    assert(money::number_of(empty) == 0);
    lemma_number_below(whole);
    lemma_scaled_day(whole, empty, empty, 0, now);
    assert(whole + seq!['.'] + empty + empty =~= whole + seq!['.']);
    let d = Decimal { significand: money::number_of(whole), scale: 0 };
    lemma_with_digits(empty, whole, behind, 0, false);
    assert(julian::digits_of(whole + behind) == Some((d, behind)));
    lemma_blanks(behind, empty);
    assert(behind + empty =~= behind);
    lemma_signed_day(before, empty, whole, behind, now);
    assert(empty.len() != seq!['-'].len());
    lemma_signed_day(before, seq!['+'], whole, behind, now);
    assert(seq!['+'][0] != seq!['-'][0]);
    lemma_signed_day(before, seq!['-'], whole, behind, now);
}

/// A number with blanks around it and a sign or none.
proof fn lemma_signed_day(
    before: Seq<char>,
    sign: Seq<char>,
    whole: Seq<char>,
    behind: Seq<char>,
    now: int,
)
    requires
        whole.len() > 0,
        money::all_digits(whole),
        sign.len() == 0 || sign == seq!['+'] || sign == seq!['-'],
        forall|i: int| 0 <= i < before.len() ==> is_space(#[trigger] before[i]),
        forall|i: int| 0 <= i < behind.len() ==> is_space(#[trigger] behind[i]),
        text::without_blanks(behind).len() == 0,
        julian::digits_of(whole + behind) == Some(
            ((Decimal { significand: money::number_of(whole), scale: 0 }), behind),
        ),
    ensures
        ({
            let n = money::number_of(whole);
            let d = Decimal {
                significand: if sign == seq!['-'] {
                    -n
                } else {
                    n
                },
                scale: 0,
            };
            reading::unix_of_text(before + (sign + whole) + behind, now) == (
            match d.julian_second() {
                Some(t) if julian::JULIAN_START <= t <= timestamp::LAST_SECOND => Some(t),
                _ => None,
            })
        }),
{
    let s = before + (sign + whole) + behind;
    let signed = sign + whole + behind;
    assert(s =~= before + signed);
    assert(timestamp::is_digit(whole[0]));
    if sign.len() > 0 {
        assert(signed[0] == sign[0]);
        assert(signed.drop_first() =~= whole + behind);
    } else {
        assert(signed =~= whole + behind);
        assert(signed[0] == whole[0]);
    }
    lemma_blanks(before, signed);
    assert(julian::without_sign(signed) == whole + behind);
    if behind.len() > 0 {
        assert(is_space(behind[0]));
    }
    assert forall|i: int| 0 <= i < s.len() implies is_space(#[trigger] s[i])
        || timestamp::is_digit(s[i]) || (s[i] == '+' || s[i] == '-') && i == before.len() && sign.len() == 1 by {
        if i < before.len() {
            assert(s[i] == before[i]);
        } else if i < before.len() + sign.len() {
            assert(s[i] == sign[i - before.len()]);
        } else if i < before.len() + sign.len() + whole.len() {
            assert(s[i] == whole[i - before.len() - sign.len()]);
        } else {
            assert(s[i] == behind[i - before.len() - sign.len() - whole.len()]);
        }
    }
    reading::lemma_nul_position(s);
    assert(s.take(s.len() as int) =~= s);
    if s.len() > 2 {
        assert(s[2] != ':');
    }
    assert(reading::time_of(s) is None);
    if s.len() > 7 {
        assert(s[4] != '-' || s[7] != '-');
    }
    if s[0] == '-' && s.len() > 8 {
        assert(s.skip(1)[4] == s[5]);
    }
    assert(reading::date_time_of(s) is None);
}

/// A power of ten behind a number, of one digit, moves its decimal point to the right.
pub proof fn law_exponent_moves_the_point(
    a: Seq<char>,
    b: Seq<char>,
    c: Seq<char>,
    e: char,
    now: int,
)
    requires
        a.len() > 0,
        forall|i: int| 0 <= i < a.len() ==> '0' <= (#[trigger] a[i]) <= '9',
        forall|i: int| 0 <= i < b.len() ==> '0' <= (#[trigger] b[i]) <= '9',
        forall|i: int| 0 <= i < c.len() ==> '0' <= (#[trigger] c[i]) <= '9',
        b.len() <= 9,
        a.len() + b.len() + c.len() <= 18,
        e == 'e' || e == 'E',
    ensures
        reading::unix_of_text(
            a + seq!['.'] + (b + c) + seq![e, timestamp::digit(b.len() as int)],
            now,
        ) == reading::unix_of_text((a + b) + seq!['.'] + c, now),
{
    lemma_concat_digits(a, b);
    lemma_concat_digits(b, c);
    lemma_concat_digits(a, b + c);
    lemma_number_below(a + (b + c));
    assert((a + b) + c =~= a + (b + c));
    let k = timestamp::digit(b.len() as int);
    let empty = Seq::<char>::empty();
    assert(seq![k].drop_first() =~= empty);
    reveal_with_fuel(julian::exponent_digits, 2);
    assert(julian::exponent_digits(seq![k], 0) == (b.len() as int, empty));
    assert(julian::exponent_of(empty) == Some((0int, empty)));
    let right = seq![e, k];
    assert(right.drop_first() =~= seq![k]);
    assert(julian::exponent_of(right) == Some((b.len() as int, empty)));
    lemma_scaled_day(a, b + c, right, b.len() as int, now);
    lemma_scaled_day(a + b, c, empty, 0, now);
    assert((a + b) + seq!['.'] + c + empty =~= (a + b) + seq!['.'] + c);
}

/// A negative power of ten behind a number, of one digit, moves its decimal point to the
/// left.
pub proof fn law_negative_exponent_moves_the_point(
    a: Seq<char>,
    b: Seq<char>,
    c: Seq<char>,
    e: char,
    now: int,
)
    requires
        a.len() > 0,
        forall|i: int| 0 <= i < a.len() ==> '0' <= (#[trigger] a[i]) <= '9',
        forall|i: int| 0 <= i < b.len() ==> '0' <= (#[trigger] b[i]) <= '9',
        forall|i: int| 0 <= i < c.len() ==> '0' <= (#[trigger] c[i]) <= '9',
        b.len() <= 9,
        a.len() + b.len() + c.len() <= 18,
        e == 'e' || e == 'E',
    ensures
        reading::unix_of_text(
            (a + b) + seq!['.'] + c + seq![e, '-', timestamp::digit(b.len() as int)],
            now,
        ) == reading::unix_of_text(a + seq!['.'] + (b + c), now),
{
    lemma_concat_digits(a, b);
    lemma_concat_digits(b, c);
    lemma_concat_digits(a, b + c);
    lemma_number_below(a + (b + c));
    assert((a + b) + c =~= a + (b + c));
    let k = timestamp::digit(b.len() as int);
    let empty = Seq::<char>::empty();
    assert(seq![k].drop_first() =~= empty);
    reveal_with_fuel(julian::exponent_digits, 2);
    assert(julian::exponent_digits(seq![k], 0) == (b.len() as int, empty));
    assert(julian::exponent_of(empty) == Some((0int, empty)));
    let left = seq![e, '-', k];
    assert(left.drop_first() =~= seq!['-', k]);
    assert(seq!['-', k].drop_first() =~= seq![k]);
    assert(julian::exponent_of(left) == Some((-(b.len() as int), empty)));
    lemma_scaled_day(a + b, c, left, -(b.len() as int), now);
    lemma_scaled_day(a, b + c, empty, 0, now);
    assert(a + seq!['.'] + (b + c) + empty =~= a + seq!['.'] + (b + c));
}

/// Digits behind digits are digits.
proof fn lemma_concat_digits(a: Seq<char>, b: Seq<char>)
    requires
        money::all_digits(a),
        money::all_digits(b),
    ensures
        money::all_digits(a + b),
{
    assert forall|i: int| 0 <= i < (a + b).len() implies timestamp::is_digit(
        #[trigger] (a + b)[i],
    ) by {
        if i >= a.len() {
            assert((a + b)[i] == b[i - a.len()]);
        }
    }
}

/// The number that digits and a power of ten behind them spell.
proof fn lemma_scaled_decimal(
    whole: Seq<char>,
    fraction: Seq<char>,
    power: Seq<char>,
    exponent: int,
)
    requires
        whole.len() > 0,
        money::all_digits(whole),
        money::all_digits(fraction),
        money::number_of(whole + fraction) < julian::SIGNIFICAND_LIMIT,
        power.len() > 0 ==> power[0] == 'e' || power[0] == 'E',
        julian::exponent_of(power) matches Some((e, rest)) && e == exponent && rest.len() == 0,
    ensures
        julian::decimal_of(whole + seq!['.'] + fraction + power) == Some(
            (Decimal {
                significand: money::number_of(whole + fraction),
                scale: exponent - fraction.len(),
            }),
        ),
{
    let s = whole + seq!['.'] + fraction + power;
    let after = seq!['.'] + fraction + power;
    let empty = Seq::<char>::empty();
    assert(s =~= whole + after);
    assert(empty + whole =~= whole);
    assert(money::number_of(empty) == 0);
    lemma_concat_digits(whole, fraction);
    money::lemma_number_prefix(whole + fraction, whole.len() as int);
    assert((whole + fraction).take(whole.len() as int) =~= whole);
    lemma_with_digits(empty, whole, after, 0, false);
    assert(after.drop_first() =~= fraction + power);
    lemma_with_digits(whole, fraction, power, 0, true);
    assert(s[0] == whole[0] && timestamp::is_digit(whole[0]));
    assert(text::without_blanks(s) == s);
    assert(julian::without_sign(s) == s);
}

/// Digits with a point among them and a power of ten behind them stand for no date and no
/// time, and hold no NUL.
proof fn lemma_scaled_is_no_date(whole: Seq<char>, fraction: Seq<char>, power: Seq<char>)
    requires
        whole.len() > 0,
        money::all_digits(whole),
        money::all_digits(fraction),
        power.len() > 0 ==> power[0] == 'e' || power[0] == 'E',
        forall|i: int|
            1 <= i < power.len() ==> timestamp::is_digit(#[trigger] power[i]) || (i == 1 && power[i]
                == '-'),
    ensures
        ({
            let s = whole + seq!['.'] + fraction + power;
            &&& reading::date_time_of(s) is None
            &&& reading::time_of(s) is None
            &&& s.take(reading::nul_position(s)) == s
        }),
{
    let s = whole + seq!['.'] + fraction + power;
    let at = whole.len() + 1 + fraction.len();
    assert forall|i: int| 0 <= i < s.len() implies s[i] != '\0' && s[i] != ':' && (s[i] == '-' ==> i
        == at + 1) by {
        if i < whole.len() {
            assert(s[i] == whole[i]);
        } else if i == whole.len() {
            assert(s[i] == '.');
        } else if i < at {
            assert(s[i] == fraction[i - whole.len() - 1]);
        } else {
            assert(s[i] == power[i - at]);
        }
    }
    reading::lemma_nul_position(s);
    assert(s.take(s.len() as int) =~= s);
    if s.len() > 2 {
        assert(s[2] != ':');
    }
    assert(s[0] == whole[0]);
    if s.len() > 7 {
        assert(s[4] != '-' || s[7] != '-');
    }
}

/// The second of a number with a power of ten behind it.
proof fn lemma_scaled_day(
    whole: Seq<char>,
    fraction: Seq<char>,
    power: Seq<char>,
    exponent: int,
    now: int,
)
    requires
        whole.len() > 0,
        money::all_digits(whole),
        money::all_digits(fraction),
        money::number_of(whole + fraction) < julian::SIGNIFICAND_LIMIT,
        power.len() > 0 ==> power[0] == 'e' || power[0] == 'E',
        julian::exponent_of(power) matches Some((e, rest)) && e == exponent && rest.len() == 0,
        forall|i: int|
            1 <= i < power.len() ==> timestamp::is_digit(#[trigger] power[i]) || (i == 1 && power[i]
                == '-'),
    ensures
        ({
            let d = Decimal {
                significand: money::number_of(whole + fraction),
                scale: exponent - fraction.len(),
            };
            reading::unix_of_text(whole + seq!['.'] + fraction + power, now) == (
            match d.julian_second() {
                Some(t) if julian::JULIAN_START <= t <= timestamp::LAST_SECOND => Some(t),
                _ => None,
            })
        }),
{
    lemma_scaled_decimal(whole, fraction, power, exponent);
    lemma_scaled_is_no_date(whole, fraction, power);
}

/// Up to eighteen digits spell a number below ten to the eighteenth.
proof fn lemma_number_below(s: Seq<char>)
    requires
        money::all_digits(s),
        s.len() <= 18,
    ensures
        0 <= money::number_of(s) < 1_000_000_000_000_000_000,
{
    lemma_number_bound(s);
    money::lemma_pow10_adds(s.len() as int, 18 - s.len());
    lemma_pow10_positive(18 - s.len());
    let (x, y) = (money::pow10(s.len() as int), money::pow10(18 - s.len()));
    assert(x <= x * y) by (nonlinear_arith)
        requires
            x >= 0,
            y >= 1,
    ;
    reveal_with_fuel(money::pow10, 19);
    assert(money::pow10(18) == 1_000_000_000_000_000_000);
}

/// Digits spell a number below ten to the power of their count.
proof fn lemma_number_bound(s: Seq<char>)
    requires
        money::all_digits(s),
    ensures
        0 <= money::number_of(s) < money::pow10(s.len() as int),
    decreases s.len(),
{
    if s.len() > 0 {
        let r = s.drop_last();
        assert forall|i: int| 0 <= i < r.len() implies timestamp::is_digit(#[trigger] r[i]) by {
            assert(r[i] == s[i]);
        }
        lemma_number_bound(r);
        assert(timestamp::is_digit(s.last()));
    }
}

/// A power of ten is positive.
proof fn lemma_pow10_positive(k: int)
    ensures
        money::pow10(k) >= 1,
    decreases k,
{
    if k > 0 {
        lemma_pow10_positive(k - 1);
    }
}

/// The seconds of `n / p` days, rounded to milliseconds and cut to the second.
proof fn lemma_milliseconds(n: int, p: int)
    requires
        0 <= n,
        1 <= p,
    ensures
        ({
            let ms = (2 * n * 86_400_000 + p) / (2 * p);
            let elapsed = ms / 1000;
            &&& 0 <= elapsed
            &&& 2000 * p * elapsed - p <= 172_800_000 * n < 2000 * p * (elapsed + 1) - p
            &&& elapsed > 464_269_060_799 <==> 172_800_000 * n >= 2000 * p * 464_269_060_800 - p
        }),
{
    let a = 2 * n * 86_400_000 + p;
    let b = 2 * p;
    let ms = a / b;
    let elapsed = ms / 1000;
    assert(b * ms <= a < b * (ms + 1) && ms >= 0) by (nonlinear_arith)
        requires
            b > 0,
            a >= 0,
            ms == a / b,
    ;
    assert(1000 * elapsed <= ms <= 1000 * elapsed + 999);
    assert(b * (1000 * elapsed) <= b * ms && b * (ms + 1) <= b * (1000 * elapsed + 1000))
        by (nonlinear_arith)
        requires
            b > 0,
            1000 * elapsed <= ms <= 1000 * elapsed + 999,
    ;
    assert(b * (1000 * elapsed) == 2000 * p * elapsed) by (nonlinear_arith)
        requires
            b == 2 * p,
    ;
    assert(b * (1000 * elapsed + 1000) == 2000 * p * (elapsed + 1)) by (nonlinear_arith)
        requires
            b == 2 * p,
    ;
    let top: int = 464_269_060_800;
    if elapsed >= top {
        assert(2000 * p * elapsed >= 2000 * p * top) by (nonlinear_arith)
            requires
                elapsed >= top,
                p >= 1,
        ;
    } else {
        assert(2000 * p * (elapsed + 1) <= 2000 * p * top) by (nonlinear_arith)
            requires
                elapsed + 1 <= top,
                p >= 1,
        ;
    }
}

/// A date with a `-` before it is one of a year before year 0, back to the start of Julian
/// days in the year 4713 before it.
pub proof fn law_negative_year(c: Civil, now: int)
    requires
        c.spellable(),
    ensures
        ({
            let t = reading::midnight_at(-c.year, c.month, 1) + 86400 * (c.day - 1);
            reading::unix_of_text(seq!['-'] + c.date_text(), now) == (if c.year <= 4713 && 1
                <= c.month <= 12 && 1 <= c.day <= 31 && julian::JULIAN_START <= t {
                Some(t)
            } else {
                None
            })
        }),
{
    timestamp::lemma_text_positions(c);
    timestamp::lemma_text_spells(c);
    let d = c.date_text();
    let t = c.text();
    let s = seq!['-'] + d;
    assert forall|i: int| 0 <= i < 10 implies s[i + 1] == t[i] by {
        assert(s[i + 1] == d[i]);
    }
    assert(s.skip(1) =~= d);
    assert forall|i: int| 0 <= i < 10 implies d[i] == t[i] by {}
    assert(timestamp::is_digit(t[0]) && timestamp::is_digit(t[1]) && timestamp::is_digit(t[2])
        && timestamp::is_digit(t[3]) && timestamp::is_digit(t[5]) && timestamp::is_digit(t[6])
        && timestamp::is_digit(t[8]) && timestamp::is_digit(t[9]));
    assert forall|i: int| 0 <= i < s.len() implies s[i] != '\0' by {
        if i > 0 {
            assert(s[i] == d[i - 1]);
        }
    }
    reading::lemma_nul_position(s);
    assert(s.take(s.len() as int) =~= s);
    assert(d.skip(10).len() == 0);
    assert(timestamp::civil_of_text(t) == c);
    reading::lemma_datetime_is_only_that(d);
    assert(s.drop_first() =~= d);
    assert(text::without_blanks(s) == s);
    assert(text::without_blanks(d) == d);
    assert(julian::without_sign(s) == d);
    assert(julian::without_sign(d) == d);
    assert(julian::decimal_of(s) is None);
    assert(reading::time_of(s) is None);
    assert(!reading::names_now(s)) by {
        reveal_strlit("now");
        reveal_strlit("subsec");
        reveal_strlit("subsecond");
        assert("now"@.len() == 3 && "subsec"@.len() == 6 && "subsecond"@.len() == 9);
    }
    assert(reading::second_of(s, now) == reading::midnight_of(d, true));
    if 1 <= c.month <= 12 && 1 <= c.day <= 31 {
        if c.year > 0 {
            lemma_before_year_zero(-c.year, c.month, c.day);
        } else {
            lemma_day_of_month(c);
            let first = Civil { day: 1, hour: 0, minute: 0, second: 0, ..c };
            let next = Civil { year: 1, month: 1, day: 1, hour: 0, minute: 0, second: 0 };
            timestamp::lemma_earlier_is_less(first, next);
        }
    }
}

/// Before year 0 the days of a month follow one another, and no date comes behind the year
/// 9999.
proof fn lemma_before_year_zero(year: int, month: int, day: int)
    requires
        -9999 <= year < 0,
        1 <= month <= 12,
        1 <= day <= 31,
    ensures
        reading::midnight_at(year, month, day) == reading::midnight_at(year, month, 1) + 86400 * (
        day - 1),
        reading::midnight_at(year, month, day) <= timestamp::LAST_SECOND,
{
}

/// The months of a year before year 0 are as long as ever.
pub proof fn law_months_before_year_zero(year: int, month: int)
    requires
        -9999 <= year < 0,
        1 <= month <= 12,
    ensures
        month != 2 && month < 12 ==> reading::midnight_at(year, month + 1, 1)
            == reading::midnight_at(year, month, 1) + 86400 * (if month == 4 || month == 6 || month
            == 9 || month == 11 {
            30int
        } else {
            31
        }),
        year < -1 && month == 12 ==> reading::midnight_at(year + 1, 1, 1) == reading::midnight_at(
            year,
            month,
            1,
        ) + 86400 * 31,
{
    assert(306001 * 4int / 10000 == 122 && 306001 * 5int / 10000 == 153 && 306001 * 6int / 10000
        == 183 && 306001 * 7int / 10000 == 214 && 306001 * 8int / 10000 == 244 && 306001 * 9int
        / 10000 == 275 && 306001 * 10int / 10000 == 306 && 306001 * 11int / 10000 == 336 && 306001
        * 12int / 10000 == 367 && 306001 * 13int / 10000 == 397 && 306001 * 14int / 10000 == 428
        && 306001 * 15int / 10000 == 459);
}

/// From one March before year 0 to the next there are 365 days, one more in every fourth
/// year, and one less in the year behind a full century that is no multiple of four
/// centuries.
pub proof fn law_years_before_year_zero(year: int)
    requires
        -9999 <= year < 0,
    ensures
        reading::midnight_at(year + 1, 3, 1) == reading::midnight_at(year, 3, 1) + 86400 * (365 + (
        if (year + 1) % 4 == 0 {
            1int
        } else {
            0
        }) - (if year % 100 == 0 && year % 400 != 0 {
            1int
        } else {
            0
        })),
{
    let k = year + 4716;
    lemma_quarters(k);
    lemma_quarters(k + 1);
    if year == -1 {
        reveal_with_fuel(timestamp::days_before_month, 3);
        assert(reading::midnight_at(0, 3, 1) == 86400 * (60 - timestamp::days_before_year(1970)));
    } else {
        let c = -year / 100;
        let d = -(year + 1) / 100;
        assert(c == d + (if year % 100 == 0 {
            1int
        } else {
            0
        }));
        if year % 100 == 0 {
            assert(-year == 100 * c);
            assert(year % 400 == 0 <==> c % 4 == 0);
        }
    }
}

/// A quarter of a day in each of `k` years.
proof fn lemma_quarters(k: int)
    ensures
        36525 * k / 100 == 365 * k + k / 4,
{
    assert(36525 * k == 100 * (365 * k) + 25 * k);
    assert(25 * k == 100 * (k / 4) + 25 * (k % 4));
}

} // verus!
