use readers_writers::judger::judge_output;
use readers_writers::judger::parse_output;
use readers_writers::judger::CheckResult;
use readers_writers::judger::OutputError;

#[test]
fn parse_regular_output() {
    let bytes = " a\r\nb\r\n".as_bytes().to_vec();
    assert_eq!(parse_output(bytes).unwrap(), " a\nb");
}

#[test]
fn parse_invalid_output() {
    let bytes: Vec<u8> = vec![0, 159];
    assert!(parse_output(bytes).is_err());
}

#[test]
fn parse_output_reports_invalid_utf8() {
    let bytes: Vec<u8> = vec![0xc3];
    assert_eq!(parse_output(bytes), Err(OutputError::InvalidUtf8));
}

#[test]
fn parse_output_keeps_inner_whitespace() {
    let bytes = "a b\r\n\r\nc\n\n".as_bytes().to_vec();
    assert_eq!(parse_output(bytes).unwrap(), "a b\n\nc");
}

#[test]
fn judge_accepts_equal_output() {
    match judge_output("ok\n1".to_string(), "ok\n1".to_string()) {
        CheckResult::Accepted => {}
        CheckResult::WrongAnswer(_) => panic!("equal outputs must be accepted"),
    }
}

#[test]
fn judge_rejects_differing_output() {
    match judge_output("left".to_string(), "right".to_string()) {
        CheckResult::Accepted => panic!("differing outputs must be rejected"),
        CheckResult::WrongAnswer(w) => {
            assert_eq!(w.expected, "left");
            assert_eq!(w.your, "right");
        }
    }
}
