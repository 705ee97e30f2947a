use clip_cli::timestamp::{timestamp_shape, ClockField, TimestampError, TimestampShape};

fn seconds(input: &str) -> String {
    match timestamp_shape(input) {
        Ok(TimestampShape::Seconds { text }) => text,
        _ => panic!("expected a number of seconds for {input:?}"),
    }
}

fn clock(input: &str) -> (String, String, String, Option<String>) {
    match timestamp_shape(input) {
        Ok(TimestampShape::Clock { hours, minutes, seconds, fraction, .. }) => {
            (hours, minutes, seconds, fraction)
        }
        _ => panic!("expected a clock time for {input:?}"),
    }
}

fn fields(h: &str, m: &str, s: &str, f: Option<&str>) -> (String, String, String, Option<String>) {
    (h.to_string(), m.to_string(), s.to_string(), f.map(|x| x.to_string()))
}

#[test]
fn raw_seconds_are_one_field() {
    assert_eq!(seconds("15.5"), "15.5");
    assert_eq!(seconds("90"), "90");
    assert_eq!(seconds("  90\t"), "90");
    assert_eq!(seconds("-5"), "-5");
    assert_eq!(seconds("+.5"), "+.5");
    assert_eq!(seconds("5."), "5.");
}

#[test]
fn seconds_may_have_an_exponent() {
    assert_eq!(seconds("1e3"), "1e3");
    assert_eq!(seconds("1.5E-2"), "1.5E-2");
    assert_eq!(seconds("-.5e+1"), "-.5e+1");
    assert_eq!(clock("1e1:0:0.5e1"), fields("1e1", "0", "0", Some("0.5e1")));
}

fn refused_number(input: &str) -> String {
    match timestamp_shape(input) {
        Err(TimestampError::InvalidNumber { text }) => text,
        _ => panic!("expected {input:?} to be refused as a number"),
    }
}

#[test]
fn seconds_that_are_not_decimal_numerals_are_refused() {
    assert_eq!(refused_number("abc"), "abc");
    assert_eq!(refused_number(" inf "), "inf");
    assert_eq!(refused_number("NaN"), "NaN");
    assert_eq!(refused_number("e3"), "e3");
    assert_eq!(refused_number("1e"), "1e");
    assert_eq!(refused_number("1e+"), "1e+");
    assert_eq!(refused_number("1e2.5"), "1e2.5");
    assert_eq!(refused_number("1e2e3"), "1e2e3");
    assert_eq!(refused_number(".e1"), ".e1");
    assert_eq!(refused_number("1.2.3"), "1.2.3");
    assert_eq!(refused_number("--5"), "--5");
    assert_eq!(refused_number("."), ".");
    assert_eq!(refused_number(""), "");
}

fn refused_field(input: &str) -> (ClockField, String) {
    match timestamp_shape(input) {
        Err(TimestampError::InvalidField { field, clock }) => (field, clock),
        _ => panic!("expected a field of {input:?} to be refused"),
    }
}

#[test]
fn clock_fields_that_are_not_decimal_numerals_are_refused() {
    assert_eq!(refused_field("aa:01:30"), (ClockField::Hours, "aa:01:30".to_string()));
    assert_eq!(refused_field("00:x:30.5"), (ClockField::Minutes, "00:x:30".to_string()));
    assert_eq!(refused_field("00:01:inf"), (ClockField::Seconds, "00:01:inf".to_string()));
    assert_eq!(refused_field("::"), (ClockField::Hours, "::".to_string()));
    match timestamp_shape("00:01:30.5x1") {
        Err(TimestampError::InvalidFraction { text }) => assert_eq!(text, "00:01:30.5x1"),
        _ => panic!("expected the fraction to be refused"),
    }
    match timestamp_shape("00:01:30.-5") {
        Err(TimestampError::InvalidFraction { text }) => assert_eq!(text, "00:01:30.-5"),
        _ => panic!("expected the fraction to be refused"),
    }
}

#[test]
fn clock_times_are_split_into_fields() {
    assert_eq!(clock("00:01:30"), fields("00", "01", "30", None));
    assert_eq!(clock("01:00:00"), fields("01", "00", "00", None));
    assert_eq!(clock(" 00:01:30 "), fields("00", "01", "30", None));
}

#[test]
fn clock_times_with_fraction() {
    assert_eq!(clock("00:01:30.500"), fields("00", "01", "30", Some("0.500")));
    assert_eq!(clock("00:00:10.250"), fields("00", "00", "10", Some("0.250")));
    // The fraction follows the last point; a point inside the fields stays there.
    assert_eq!(clock("1.5:00:00"), fields("1.5", "00", "00", None));
}

#[test]
fn clock_text_is_kept_for_messages() {
    match timestamp_shape(" 00:01:30.500 ") {
        Ok(TimestampShape::Clock { text, clock, .. }) => {
            assert_eq!(text, "00:01:30.500");
            assert_eq!(clock, "00:01:30");
        }
        _ => panic!("expected a clock time"),
    }
}

#[test]
fn clock_with_wrong_number_of_fields_is_refused() {
    match timestamp_shape("00:01") {
        Err(TimestampError::ExpectedClock { clock }) => assert_eq!(clock, "00:01"),
        _ => panic!("expected an error"),
    }
    match timestamp_shape("1:2:3:4.5") {
        Err(TimestampError::ExpectedClock { clock }) => assert_eq!(clock, "1:2:3:4"),
        _ => panic!("expected an error"),
    }
}
