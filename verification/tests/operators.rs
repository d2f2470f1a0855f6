use readers_writers::Operator;
use readers_writers::OperatorParseError;
use readers_writers::OperatorRole;

#[test]
fn parses_a_descriptor_line() {
    assert_eq!(
        Operator::from("1 R 3.3 5").unwrap(),
        Operator { id: 1, role: OperatorRole::Reader, start_at_ms: 3300, duration_ms: 5000 }
    );
    assert_eq!(
        Operator::from("42 W 0.25 1.5").unwrap(),
        Operator { id: 42, role: OperatorRole::Writer, start_at_ms: 250, duration_ms: 1500 }
    );
}

#[test]
fn fraction_counts_to_the_millisecond() {
    let op = Operator::from("1 R 1.23456 2.").unwrap();
    assert_eq!(op.start_at_ms, 1234);
    assert_eq!(op.duration_ms, 2000);
}

#[test]
fn rejects_a_bad_id() {
    assert_eq!(Operator::from("x R 1 1"), Err(OperatorParseError::InvalidId));
    assert_eq!(Operator::from(""), Err(OperatorParseError::InvalidId));
    assert_eq!(Operator::from("4294967296 R 1 1"), Err(OperatorParseError::InvalidId));
}

#[test]
fn rejects_a_bad_role() {
    assert_eq!(Operator::from("1 X 1 1"), Err(OperatorParseError::InvalidRole));
    assert_eq!(Operator::from("1"), Err(OperatorParseError::InvalidRole));
    assert_eq!(Operator::from("1 R abc 1"), Err(OperatorParseError::InvalidRole));
}

#[test]
fn rejects_a_bad_start() {
    assert_eq!(Operator::from("1 R"), Err(OperatorParseError::InvalidStartAt));
    assert_eq!(Operator::from("1 R 0 1"), Err(OperatorParseError::InvalidStartAt));
    assert_eq!(Operator::from("1 R -1 1"), Err(OperatorParseError::InvalidStartAt));
}

#[test]
fn rejects_a_bad_duration() {
    assert_eq!(Operator::from("1 R 1"), Err(OperatorParseError::InvalidDuration));
    assert_eq!(Operator::from("1 R 1 0"), Err(OperatorParseError::InvalidDuration));
    assert_eq!(Operator::from("1 R 1 ."), Err(OperatorParseError::InvalidDuration));
}

#[test]
fn rejects_extra_fields() {
    assert_eq!(Operator::from("1 R 1 1 1"), Err(OperatorParseError::TooManyFields));
    assert_eq!(Operator::from("1 R 1 1 "), Err(OperatorParseError::TooManyFields));
}
