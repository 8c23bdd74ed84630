use stellargate::money::{parse_stroops, stroops_to_string};

#[test]
fn amounts_are_read_in_stroops() {
    assert_eq!(parse_stroops("10"), Some(100_000_000));
    assert_eq!(parse_stroops("10.0"), Some(100_000_000));
    assert_eq!(parse_stroops("10.00"), Some(100_000_000));
    assert_eq!(parse_stroops("0.0000001"), Some(1));
    assert_eq!(parse_stroops("007.5"), Some(75_000_000));
    assert_eq!(
        parse_stroops("922337203685.4775807"),
        Some(9_223_372_036_854_775_807)
    );
}

#[test]
fn malformed_amounts_are_refused() {
    for amount in [
        "", ".", ".5", "5.", "-1", "+1", " 1", "1 ", "1e3", "1,5", "0.12345678", "1.2.3", "abc",
        "0", "0.0", "922337203685.4775808", "99999999999999999999",
    ] {
        assert_eq!(parse_stroops(amount), None, "{}", amount);
    }
}

#[test]
fn amounts_are_written_canonically() {
    assert_eq!(stroops_to_string(100_000_000), "10");
    assert_eq!(stroops_to_string(1), "0.0000001");
    assert_eq!(stroops_to_string(0), "0");
    assert_eq!(stroops_to_string(75_000_000), "7.5");
    assert_eq!(stroops_to_string(-15_000_000), "-1.5");
    assert_eq!(stroops_to_string(i64::MAX), "922337203685.4775807");
    assert_eq!(stroops_to_string(i64::MIN), "-922337203685.4775808");
}

#[test]
fn amounts_read_back() {
    for stroops in [1, 10, 9_999_999, 10_000_000, 123_456_789, i64::MAX] {
        assert_eq!(parse_stroops(&stroops_to_string(stroops)), Some(stroops));
    }
}
