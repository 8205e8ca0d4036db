use rust_git::Timestamp;

#[test]
fn moment_is_written_as_rfc3339_in_utc() {
    let t = Timestamp { secs: 1431648000, nanos: 0 };
    assert_eq!(t.to_rfc3339(), Some("2015-05-15T00:00:00+00:00".to_string()));
    let epoch = Timestamp { secs: 0, nanos: 0 };
    assert_eq!(epoch.to_rfc3339(), Some("1970-01-01T00:00:00+00:00".to_string()));
    let before = Timestamp { secs: -1, nanos: 0 };
    assert_eq!(before.to_rfc3339(), Some("1969-12-31T23:59:59+00:00".to_string()));
}

#[test]
fn fraction_of_a_second_is_written_in_groups_of_three_digits() {
    let millis = Timestamp { secs: 1431648000, nanos: 120_000_000 };
    assert_eq!(millis.to_rfc3339(), Some("2015-05-15T00:00:00.120+00:00".to_string()));
    let micros = Timestamp { secs: 1431648000, nanos: 120_500_000 };
    assert_eq!(micros.to_rfc3339(), Some("2015-05-15T00:00:00.120500+00:00".to_string()));
    let nanos = Timestamp { secs: 1431648000, nanos: 7 };
    assert_eq!(nanos.to_rfc3339(), Some("2015-05-15T00:00:00.000000007+00:00".to_string()));
}

#[test]
fn numbers_that_are_no_moment_have_no_text() {
    assert_eq!(Timestamp { secs: i64::MAX, nanos: 0 }.to_rfc3339(), None);
    assert_eq!(Timestamp { secs: i64::MIN, nanos: 0 }.to_rfc3339(), None);
    assert_eq!(Timestamp { secs: 0, nanos: 2_000_000_000 }.to_rfc3339(), None);
}
