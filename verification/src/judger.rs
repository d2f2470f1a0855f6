//! Judging of program output against a reference.
//!
//! A judged program's standard output is normalized — carriage-return
//! line endings folded to bare newlines, trailing ASCII whitespace
//! dropped — and then compared byte for byte with the expected text. The
//! running of programs and the reading of test-case files stay outside
//! the library; it sees only the bytes and the strings.

use vstd::prelude::*;
use vstd::utf8::decode_utf8;
use vstd::utf8::valid_utf8;

verus! {

/// A test set judged against a reference program's output.
pub struct RegressionTestSet {
    /// The program under test.
    pub program: String,
    /// The program whose output is taken as correct.
    pub ref_program: String,
    /// The directory of test cases (only its `*.in` files are used).
    pub cases: String,
}

/// A test set judged against stored expected outputs.
pub struct GivenOutputTestSet {
    /// The program under test.
    pub program: String,
    /// The directory of test cases (its `*.in` and `*.out` files are used).
    pub cases: String,
}

/// A rejected case: what was expected, and what the program printed.
#[derive(Debug)]
pub struct WrongAnswerResult {
    pub expected: String,
    pub your: String,
}

/// The verdict on one case.
#[derive(Debug)]
pub enum CheckResult {
    Accepted,
    WrongAnswer(WrongAnswerResult),
}

/// One judged case: where its input lives, and the verdict.
pub struct CheckedCase {
    pub path: String,
    pub result: CheckResult,
}

/// Why a program's output could not be read.
#[derive(Debug, Clone, Copy, PartialEq, Eq, Structural)]
pub enum OutputError {
    /// The output is not valid UTF-8.
    InvalidUtf8,
}

/// The bytes with every carriage-return/newline pair folded to a bare
/// newline.
pub open spec fn crlf_replaced(b: Seq<u8>) -> Seq<u8>
    decreases b.len(),
{
    if b.len() == 0 {
        Seq::<u8>::empty()
    } else if b.len() >= 2 && b[0] == 13 && b[1] == 10 {
        seq![10u8] + crlf_replaced(b.skip(2))
    } else {
        seq![b[0]] + crlf_replaced(b.skip(1))
    }
}

/// Whether the byte is ASCII whitespace.
pub open spec fn is_ascii_ws(b: u8) -> bool {
    b == 9 || b == 10 || b == 11 || b == 12 || b == 13 || b == 32
}

/// The bytes with trailing ASCII whitespace dropped.
pub open spec fn trim_end_ws(b: Seq<u8>) -> Seq<u8>
    decreases b.len(),
{
    if b.len() > 0 && is_ascii_ws(b.last()) {
        trim_end_ws(b.drop_last())
    } else {
        b
    }
}

/// Relies on `String::from_utf8`: it accepts exactly the valid UTF-8 byte
/// sequences, and decodes them.
#[verifier::external_body]
fn string_from_utf8(bytes: Vec<u8>) -> (r: Option<String>)
    ensures
        r is Some <==> valid_utf8(bytes@),
        r matches Some(s) ==> s@ == decode_utf8(bytes@),
{
    String::from_utf8(bytes).ok()
}

/// Folds every carriage-return/newline pair to a bare newline.
fn replace_crlf(bytes: &Vec<u8>) -> (out: Vec<u8>)
    ensures
        out@ == crlf_replaced(bytes@),
{
    let n = bytes.len();
    let mut out: Vec<u8> = Vec::new();
    let mut i: usize = 0;
    proof {
        assert(bytes@.skip(0) =~= bytes@);
        assert(crlf_replaced(bytes@) =~= out@ + crlf_replaced(bytes@.skip(0)));
    }
    while i < n
        invariant
            i <= n,
            n == bytes@.len(),
            crlf_replaced(bytes@) =~= out@ + crlf_replaced(bytes@.skip(i as int)),
        decreases n - i,
    {
        let c = bytes[i];
        if c == 13 && i + 1 < n && bytes[i + 1] == 10 {
            out.push(10);
            proof {
                assert(bytes@.skip(i as int).skip(2) =~= bytes@.skip(i + 2));
                assert(crlf_replaced(bytes@.skip(i as int)) =~= seq![10u8] + crlf_replaced(
                    bytes@.skip(i + 2),
                ));
                assert(crlf_replaced(bytes@) =~= out@ + crlf_replaced(bytes@.skip(i + 2)));
            }
            i = i + 2;
        } else {
            out.push(c);
            proof {
                assert(bytes@.skip(i as int).skip(1) =~= bytes@.skip(i + 1));
                assert(crlf_replaced(bytes@.skip(i as int)) =~= seq![c] + crlf_replaced(
                    bytes@.skip(i + 1),
                ));
                assert(crlf_replaced(bytes@) =~= out@ + crlf_replaced(bytes@.skip(i + 1)));
            }
            i = i + 1;
        }
    }
    proof {
        assert(bytes@.skip(n as int).len() == 0);
        assert(crlf_replaced(bytes@) =~= out@);
    }
    out
}

/// Drops trailing ASCII whitespace.
fn trim_ws_end(bytes: &mut Vec<u8>)
    ensures
        final(bytes)@ == trim_end_ws(old(bytes)@),
{
    let mut end = bytes.len();
    proof {
        assert(bytes@.take(end as int) =~= bytes@);
    }
    while end > 0
        invariant_except_break
            end <= bytes@.len(),
            *bytes == *old(bytes),
            trim_end_ws(bytes@) =~= trim_end_ws(bytes@.take(end as int)),
        ensures
            end <= bytes@.len(),
            *bytes == *old(bytes),
            trim_end_ws(bytes@) =~= trim_end_ws(bytes@.take(end as int)),
            end > 0 ==> !is_ascii_ws(bytes@[end - 1]),
        decreases end,
    {
        let c = bytes[end - 1];
        if !(c == 9 || c == 10 || c == 11 || c == 12 || c == 13 || c == 32) {
            break ;
        }
        proof {
            assert(bytes@.take(end as int).last() == bytes@[end - 1]);
            assert(bytes@.take(end as int).drop_last() =~= bytes@.take(end - 1));
        }
        end = end - 1;
    }
    proof {
        if end > 0 {
            assert(bytes@.take(end as int).last() == bytes@[end - 1]);
        }
        assert(trim_end_ws(bytes@.take(end as int)) =~= bytes@.take(end as int));
    }
    bytes.truncate(end);
    proof {
        assert(bytes@ =~= trim_end_ws(old(bytes)@));
    }
}

/// Normalizes a judged program's raw standard output: carriage-return
/// line endings folded to bare newlines, trailing ASCII whitespace
/// dropped. Succeeds exactly when what remains is valid UTF-8, and
/// decodes it.
pub fn parse_output(bytes: Vec<u8>) -> (r: Result<String, OutputError>)
    ensures
        r is Ok <==> valid_utf8(trim_end_ws(crlf_replaced(bytes@))),
        r matches Ok(out) ==> out@ == decode_utf8(trim_end_ws(crlf_replaced(bytes@))),
        r is Err ==> r == Err::<String, OutputError>(OutputError::InvalidUtf8),
{
    let mut normalized = replace_crlf(&bytes);
    trim_ws_end(&mut normalized);
    match string_from_utf8(normalized) {
        Some(s) => Ok(s),
        None => Err(OutputError::InvalidUtf8),
    }
}

/// The verdict on one case: accepted exactly when the program's output
/// matches the expected text, and otherwise a wrong answer carrying both.
pub fn judge_output(expected: String, your: String) -> (r: CheckResult)
    ensures
        r is Accepted <==> expected@ == your@,
        r matches CheckResult::WrongAnswer(w) ==> w.expected == expected && w.your == your,
{
    if expected == your {
        CheckResult::Accepted
    } else {
        CheckResult::WrongAnswer(WrongAnswerResult { expected, your })
    }
}

} // verus!
