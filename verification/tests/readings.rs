use stellargate::reading::{is_older_than, parse_ts};
use stellargate::timestamp::{normalize_ts, Moment};

const NOW: i64 = 1_777_474_800;

fn check(cases: &[(&str, Option<i64>)]) {
    let now = Moment::at(NOW).unwrap();
    for (ts, second) in cases {
        assert_eq!(parse_ts(ts, &now), *second, "{:?}", ts);
    }
}

#[test]
fn dates_and_times_are_read() {
    check(&[
        ("2026-04-29T15:00:00Z", Some(1_777_474_800)),
        ("2026-04-29 15:00:00", Some(1_777_474_800)),
        ("2026-04-29T15:00:00", Some(1_777_474_800)),
        ("2026-04-29T15:00", Some(1_777_474_800)),
        ("2026-04-29", Some(1_777_420_800)),
        ("2026-04-29T", Some(1_777_420_800)),
        ("2026-04-2915:00:00", Some(1_777_474_800)),
        ("2026-04-29 T 15:00:00z", Some(1_777_474_800)),
    ]);
}

#[test]
fn trailing_blanks_are_skipped_and_leading_ones_are_not() {
    check(&[
        ("2026-04-29T15:00:00Z ", Some(1_777_474_800)),
        ("2026-04-29 \t", Some(1_777_420_800)),
        ("2026-04-29T15:00 Z ", Some(1_777_474_800)),
        ("2026-04-29T17:00:00+02:00  ", Some(1_777_474_800)),
        (" 2026-04-29T15:00:00Z", None),
        ("\t2026-04-29", None),
        ("\u{a0}2026-04-29", None),
    ]);
}

#[test]
fn offsets_are_read() {
    check(&[
        ("2026-01-01T00:00:00+00:00", Some(1_767_225_600)),
        ("2026-04-29T17:00:00+02:00", Some(1_777_474_800)),
        ("2026-04-29T09:30:00 -05:30", Some(1_777_474_800)),
        ("2026-04-29T17:00+02:00", Some(1_777_474_800)),
        ("2026-04-29T17:00:00+0200", None),
        ("2026-04-29T17:00:00+15:00", None),
        ("2026-04-29T17:00:00+02:60", None),
        ("2026-04-29T17:00:00+02:00x", None),
        ("2026-04-29T17:00:00ZZ", None),
    ]);
}

#[test]
fn fractions_are_read() {
    check(&[
        ("2026-04-29T15:00:00.250Z", Some(1_777_474_800)),
        ("2026-04-29 15:00:00.9", Some(1_777_474_800)),
        ("2026-04-29T17:00:00.999+02:00", Some(1_777_474_800)),
        ("2026-04-29T15:00:00.9996Z", Some(1_777_474_801)),
        ("2026-04-29T15:00:00.Z", None),
    ]);
}

#[test]
fn days_and_hours_roll_over() {
    check(&[
        ("2026-02-30T00:00:00Z", Some(1_772_409_600)),
        ("2023-02-31", Some(1_677_801_600)),
        ("2026-04-29T24:00:00Z", Some(1_777_507_200)),
        ("9999-12-31T23:59:59Z", Some(253_402_300_799)),
        ("9999-12-31T24:00:00Z", None),
        ("9999-12-31T23:00:00-02:00", None),
    ]);
}

#[test]
fn years_before_year_zero_are_read() {
    check(&[
        ("-0000-01-01", Some(-62_167_219_200)),
        ("-0001-03-01", Some(-62_193_657_600)),
        ("-0044-03-15 12:00:00", Some(-63_549_316_800)),
        ("-0100-02-29", Some(-65_317_795_200)),
        ("-1000-12-31", Some(-93_692_592_000)),
        ("-4713-11-24 12:00:00", Some(-210_866_760_000)),
        ("-4713-11-24 11:59:59", None),
        ("-4714-01-01", None),
    ]);
}

#[test]
fn bare_times_are_of_the_first_day_of_2000() {
    check(&[
        ("15:00", Some(946_738_800)),
        ("15:00:00", Some(946_738_800)),
        ("15:00:00+02:00", Some(946_731_600)),
        ("24:59:59.5Z", Some(946_774_799)),
        ("25:00", None),
        ("1:00", None),
    ]);
}

#[test]
fn julian_days_are_read() {
    check(&[
        ("0", Some(-210_866_760_000)),
        ("2460000", Some(1_677_240_000)),
        ("2460000.5", Some(1_677_283_200)),
        (" 2460000.25 ", Some(1_677_261_600)),
        ("+5", Some(-210_866_328_000)),
        (".5", Some(-210_866_716_800)),
        ("5.", Some(-210_866_328_000)),
        ("1e3", Some(-210_780_360_000)),
        ("1e-5", Some(-210_866_760_000)),
        ("24600.00e2", Some(1_677_240_000)),
        ("000000000000000000000002460000", Some(1_677_240_000)),
        ("2460000.000000000000000000000000001", Some(1_677_240_000)),
        ("5373484.4999", Some(253_402_300_791)),
        ("5373484.5", None),
        ("9e99999999", None),
        ("-0", Some(-210_866_760_000)),
        ("-1", None),
        ("1e", None),
        ("e5", None),
        (".", None),
        ("+", None),
        ("1 2", None),
    ]);
}

#[test]
fn what_names_no_second_is_not_read() {
    check(&[
        ("", None),
        ("soon", None),
        ("2026-4-29", None),
        ("2026-13-01T00:00:00Z", None),
        ("2026-00-01", None),
        ("2026-01-32", None),
        ("2026-01-00", None),
        ("2026-04-29T25:00:00Z", None),
        ("2026-04-29T15:60:00Z", None),
        ("2026-04-29T15:00:60Z", None),
        ("2026-04-29T15:00:0", None),
        ("2026-04-29x15:00:00", None),
        ("2026/04/29", None),
    ]);
}

#[test]
fn current_time_is_read() {
    check(&[
        ("now", Some(NOW)),
        ("NoW", Some(NOW)),
        ("subsec", Some(NOW)),
        ("SUBSECOND", Some(NOW)),
        ("now ", None),
        ("nowhere", None),
    ]);
}

#[test]
fn text_ends_at_a_nul() {
    check(&[
        ("2026-04-29\0 and more", Some(1_777_420_800)),
        ("\02026-04-29", None),
    ]);
}

#[test]
fn normal_form_reads_alike() {
    let now = Moment::at(NOW).unwrap();
    for ts in [
        "2026-04-29 15:00:00",
        "2026-04-29T15:00:00+02:00",
        "2026-02-30 00:00:00",
        "2026-04-29",
        "2460000.5",
        "soon",
    ] {
        let normal = normalize_ts(ts);
        assert_eq!(parse_ts(&normal, &now), parse_ts(ts, &now), "{}", ts);
    }
}

#[test]
fn age_is_counted_in_whole_days() {
    let now = Moment::at(1_777_474_800).unwrap();
    let at = |secs: i64| now.plus(-secs).unwrap().text();
    assert!(!is_older_than(&at(86_400), 1, &now));
    assert!(is_older_than(&at(86_401), 1, &now));
    assert!(!is_older_than("soon", 0, &now));
}
