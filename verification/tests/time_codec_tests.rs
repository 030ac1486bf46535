use splitscreen::time_codec::{format_time, parse_split_time, TimeError};

#[test]
fn parses_plain_seconds() {
    assert_eq!(parse_split_time("5"), Ok(5000));
}

#[test]
fn parses_minutes_and_seconds() {
    assert_eq!(parse_split_time("1:05"), Ok(65000));
}

#[test]
fn parses_hours_minutes_seconds_with_fraction() {
    assert_eq!(parse_split_time("1:02:03.456"), Ok(3723456));
}

#[test]
fn parses_fraction_shapes() {
    assert_eq!(parse_split_time(".5"), Ok(500));
    assert_eq!(parse_split_time("2."), Ok(2000));
    assert_eq!(parse_split_time("1:05.5"), Ok(65500));
    assert_eq!(parse_split_time("0.0575"), Ok(57));
}

#[test]
fn parses_inclusive_boundaries() {
    // both 60 seconds and 60 minutes are still accepted
    assert_eq!(parse_split_time("60"), Ok(60000));
    assert_eq!(parse_split_time("60.000"), Ok(60000));
    assert_eq!(parse_split_time("60:00"), Ok(3600000));
}

#[test]
fn rejects_malformed_times() {
    assert_eq!(parse_split_time(""), Err(TimeError::InvalidFormat));
    assert_eq!(parse_split_time("a"), Err(TimeError::InvalidFormat));
    assert_eq!(parse_split_time("1:2:3:4"), Err(TimeError::InvalidFormat));
    assert_eq!(parse_split_time("."), Err(TimeError::InvalidFormat));
    assert_eq!(parse_split_time("1:"), Err(TimeError::InvalidFormat));
    assert_eq!(parse_split_time(":5"), Err(TimeError::InvalidFormat));
    assert_eq!(parse_split_time("-5"), Err(TimeError::InvalidFormat));
    assert_eq!(parse_split_time("1.2.3"), Err(TimeError::InvalidFormat));
}

#[test]
fn rejects_out_of_range_components() {
    assert_eq!(parse_split_time("61"), Err(TimeError::InvalidFormat));
    assert_eq!(parse_split_time("60.001"), Err(TimeError::InvalidFormat));
    assert_eq!(parse_split_time("0:61"), Err(TimeError::InvalidFormat));
    assert_eq!(parse_split_time("61:00"), Err(TimeError::InvalidFormat));
}

#[test]
fn formats_seconds_only() {
    assert_eq!(format_time(5000), "05.000");
    assert_eq!(format_time(0), "00.000");
    assert_eq!(format_time(59999), "59.999");
}

#[test]
fn formats_minutes_once_a_minute_is_reached() {
    assert_eq!(format_time(60000), "01:00.000");
    assert_eq!(format_time(65000), "01:05.000");
    assert_eq!(format_time(3599999), "59:59.999");
}

#[test]
fn formats_hours_once_an_hour_is_reached() {
    assert_eq!(format_time(3600000), "01:00:00.000");
    assert_eq!(format_time(3723456), "01:02:03.456");
}

#[test]
fn formats_negative_values_with_a_sign() {
    assert_eq!(format_time(-1500), "-01.500");
    assert_eq!(format_time(-3723456), "-01:02:03.456");
}

#[test]
fn format_after_parse_keeps_the_value() {
    for s in ["5", "1:05", "1:02:03.456"] {
        let ms = parse_split_time(s).unwrap();
        let text = format_time(ms as i64);
        assert_eq!(parse_split_time(&text), Ok(ms));
    }
}
