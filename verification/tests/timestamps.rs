use stellargate::reading::parse_ts;
use stellargate::timestamp::{
    matches_ts_pattern, normalize_ts, Moment, FIRST_SECOND, LAST_SECOND,
};

#[test]
fn legacy_rows_are_repaired() {
    assert_eq!(normalize_ts("2026-04-29 15:00:00"), "2026-04-29T15:00:00Z");
    assert_eq!(normalize_ts("2026-04-29T15:00:00"), "2026-04-29T15:00:00Z");
    assert_eq!(
        normalize_ts("  2026-04-29 15:00:00\n"),
        "2026-04-29T15:00:00Z"
    );
}

#[test]
fn correct_rows_stay() {
    assert_eq!(normalize_ts("2026-04-29T15:00:00Z"), "2026-04-29T15:00:00Z");
    assert_eq!(
        normalize_ts(" 2026-04-29T15:00:00Z "),
        "2026-04-29T15:00:00Z"
    );
    assert_eq!(
        normalize_ts("2026-04-29T15:00:00+02:00"),
        "2026-04-29T15:00:00+02:00"
    );
    assert_eq!(
        normalize_ts("2026-04-29T15:00:00.250Z"),
        "2026-04-29T15:00:00.250Z"
    );
}

#[test]
fn unexpected_data_is_returned_unchanged() {
    assert_eq!(normalize_ts(""), "");
    assert_eq!(normalize_ts("never"), "never");
    assert_eq!(normalize_ts(" padded "), " padded ");
    assert_eq!(normalize_ts("exactly19characters"), "exactly19characters");
    assert_eq!(normalize_ts("2026-04-29"), "2026-04-29");
}

#[test]
fn normalizing_twice_is_normalizing_once() {
    for raw in ["2026-04-29 15:00:00", " x ", "2026-04-29T15:00:00Z"] {
        let once = normalize_ts(raw);
        assert_eq!(normalize_ts(&once), once);
    }
}

#[test]
fn moments_have_their_text() {
    let cases = [
        (0, "1970-01-01T00:00:00Z"),
        (1_777_474_800, "2026-04-29T15:00:00Z"),
        (1_709_251_199, "2024-02-29T23:59:59Z"),
        (951_782_400, "2000-02-29T00:00:00Z"),
        (-1, "1969-12-31T23:59:59Z"),
        (FIRST_SECOND, "0000-01-01T00:00:00Z"),
        (LAST_SECOND, "9999-12-31T23:59:59Z"),
    ];
    for (unix, text) in cases {
        let moment = Moment::at(unix).unwrap();
        assert_eq!(moment.unix(), unix);
        assert_eq!(moment.text(), text);
        assert_eq!(parse_ts(text, &moment), Some(unix));
        assert!(matches_ts_pattern(text));
    }
}

#[test]
fn moments_have_years_of_four_digits() {
    assert!(Moment::at(FIRST_SECOND - 1).is_none());
    assert!(Moment::at(LAST_SECOND + 1).is_none());
    let last = Moment::at(LAST_SECOND).unwrap();
    assert!(last.plus(1).is_none());
    assert!(last.plus(i64::MAX).is_none());
    assert_eq!(last.plus(-1).unwrap().unix(), LAST_SECOND - 1);
}

#[test]
fn text_order_is_time_order() {
    let seconds = [-1, 0, 59, 60, 86_399, 86_400, 951_782_400, 1_777_474_800];
    for pair in seconds.windows(2) {
        let a = Moment::at(pair[0]).unwrap().text();
        let b = Moment::at(pair[1]).unwrap().text();
        assert!(a < b);
    }
}

#[test]
fn legacy_text_sorts_before_its_repaired_form() {
    assert!("2026-04-29 15:00:00" < "2026-04-29T00:00:00Z");
}

#[test]
fn pattern_pins_length_and_separators() {
    assert!(matches_ts_pattern("2026-04-29T15:00:00Z"));
    assert!(!matches_ts_pattern("2026-04-29 15:00:00"));
    assert!(!matches_ts_pattern("2026-04-29T15:00:00"));
    assert!(!matches_ts_pattern("2026-04-29T15:00:00.5Z"));
    assert!(matches_ts_pattern("abcd-ef-ghtij:kl:mnz"));
}
