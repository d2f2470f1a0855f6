//! Operators and the textual operator descriptor.
//!
//! An operator is one concurrent actor: a reader or writer with a start
//! delay and a hold duration. Times are whole milliseconds; a descriptor
//! writes them in seconds, with an optional decimal fraction of which the
//! first three digits count.
//!
//! A descriptor line is `<id> <R|W> <start_at> <duration>`, four fields
//! separated by single spaces. The parser rejects a non-positive
//! `start_at` or `duration`, and each malformed field with its own error.

use vstd::prelude::*;
use vstd::string::StringSliceAdditionalSpecFns;

verus! {

/// The byte values the descriptor grammar distinguishes.
pub const SPACE: u8 = 32;

pub const PLUS: u8 = 43;

pub const MINUS: u8 = 45;

pub const DOT: u8 = 46;

pub const DIGIT_0: u8 = 48;

pub const DIGIT_9: u8 = 57;

pub const UPPER_R: u8 = 82;

pub const UPPER_W: u8 = 87;

/// The role of an operator.
#[derive(Debug, Clone, Copy, PartialEq, Eq, Structural)]
pub enum OperatorRole {
    /// Shares access with other readers.
    Reader,
    /// Requires exclusive access.
    Writer,
}

/// One concurrent actor: identity, role, start delay and hold duration.
#[derive(Debug, Clone, Copy, PartialEq, Eq, Structural)]
pub struct Operator {
    /// Caller-assigned unique identity.
    pub id: u32,
    /// Reader or writer.
    pub role: OperatorRole,
    /// Delay before the first request, in milliseconds; positive.
    pub start_at_ms: u64,
    /// Hold time once access is granted, in milliseconds; positive.
    pub duration_ms: u64,
}

/// Why a descriptor line was rejected.
#[derive(Debug, Clone, Copy, PartialEq, Eq, Structural)]
pub enum OperatorParseError {
    InvalidId,
    InvalidRole,
    InvalidStartAt,
    InvalidDuration,
    TooManyFields,
}

/// The length of the run of bytes from `start` in which `stop` does not
/// occur.
pub open spec fn run_until(s: Seq<u8>, start: int, stop: u8) -> nat
    decreases s.len() - start,
{
    if start < 0 || start >= s.len() {
        0
    } else if s[start] == stop {
        0
    } else {
        1 + run_until(s, start + 1, stop)
    }
}

/// The run's length, computed from a scan that stopped at `i`.
pub proof fn lemma_run_until_value(s: Seq<u8>, start: int, stop: u8, i: int)
    requires
        0 <= start <= i <= s.len(),
        forall|m: int| start <= m < i ==> s[m] != stop,
        i == s.len() || s[i] == stop,
    ensures
        run_until(s, start, stop) == i - start,
    decreases i - start,
{
    if start < i {
        lemma_run_until_value(s, start + 1, stop, i);
    }
}

/// The fields of a line from `start` on: maximal space-free runs,
/// separated by single spaces. An empty line is one empty field, and
/// every space adds a field, as the classical split does.
pub open spec fn split_fields_from(s: Seq<u8>, start: int) -> Seq<Seq<u8>>
    decreases s.len() - start,
{
    let i = start + run_until(s, start, SPACE) as int;
    if i >= s.len() {
        seq![s.subrange(start, s.len() as int)]
    } else {
        seq![s.subrange(start, i)] + split_fields_from(s, i + 1)
    }
}

/// The fields of a line: maximal space-free runs.
pub open spec fn split_fields(s: Seq<u8>) -> Seq<Seq<u8>> {
    split_fields_from(s, 0)
}

/// Whether the byte is a decimal digit.
pub open spec fn is_digit_byte(b: u8) -> bool {
    DIGIT_0 <= b <= DIGIT_9
}

/// The value of a digit byte.
pub open spec fn digit_byte_val(b: u8) -> nat {
    if b >= DIGIT_0 {
        (b - DIGIT_0) as nat
    } else {
        0
    }
}

/// Whether all bytes are decimal digits.
pub open spec fn all_digit_bytes(s: Seq<u8>) -> bool {
    forall|i: int| 0 <= i < s.len() ==> is_digit_byte(#[trigger] s[i])
}

/// The value of a run of digit bytes, most significant first.
pub open spec fn dec_value_bytes(s: Seq<u8>) -> nat
    decreases s.len(),
{
    if s.len() == 0 {
        0
    } else {
        dec_value_bytes(s.drop_last()) * 10 + digit_byte_val(s.last())
    }
}

/// A digit run's value only grows with more digits.
pub proof fn lemma_dec_value_prefix(s: Seq<u8>, k: int)
    requires
        0 <= k <= s.len(),
    ensures
        dec_value_bytes(s.take(k)) <= dec_value_bytes(s),
    decreases s.len() - k,
{
    if k < s.len() {
        lemma_dec_value_prefix(s, k + 1);
        assert(s.take(k + 1).drop_last() =~= s.take(k));
        assert(dec_value_bytes(s.take(k + 1)) == dec_value_bytes(s.take(k)) * 10 + digit_byte_val(
            s.take(k + 1).last(),
        ));
    } else {
        assert(s.take(k) =~= s);
    }
}

/// A run of at most three digits names a value below a thousand.
pub proof fn lemma_small_dec_bound(s: Seq<u8>)
    requires
        all_digit_bytes(s),
        s.len() <= 3,
    ensures
        dec_value_bytes(s) <= 999,
        s.len() <= 2 ==> dec_value_bytes(s) <= 99,
        s.len() <= 1 ==> dec_value_bytes(s) <= 9,
    decreases s.len(),
{
    if s.len() > 0 {
        assert(all_digit_bytes(s.drop_last())) by {
            assert(forall|i: int|
                0 <= i < s.len() - 1 ==> #[trigger] s.drop_last()[i] == s[i]);
        }
        lemma_small_dec_bound(s.drop_last());
        assert(digit_byte_val(s.last()) <= 9);
    }
}

/// An unsigned decimal field: an optional `+`, then digits, with a value
/// that fits the id type.
pub open spec fn spec_u32_field(s: Seq<u8>) -> Option<u32> {
    let d = if s.len() > 0 && s[0] == PLUS {
        s.drop_first()
    } else {
        s
    };
    if d.len() > 0 && all_digit_bytes(d) && dec_value_bytes(d) <= u32::MAX {
        Some(dec_value_bytes(d) as u32)
    } else {
        None
    }
}

/// The milliseconds named by a decimal fraction: its first three digits,
/// scaled; digits beyond the millisecond do not count.
pub open spec fn frac_ms(f: Seq<u8>) -> nat {
    if f.len() >= 3 {
        dec_value_bytes(f.take(3))
    } else if f.len() == 2 {
        dec_value_bytes(f) * 10
    } else if f.len() == 1 {
        dec_value_bytes(f) * 100
    } else {
        0
    }
}

/// A time field: an optional sign, then a plain decimal — digits, or
/// digits around a single point with at least one digit in all — whose
/// value in milliseconds fits the time type. Yields the sign and the
/// milliseconds.
pub open spec fn spec_time_field(s: Seq<u8>) -> Option<(bool, u64)> {
    let neg = s.len() > 0 && s[0] == MINUS;
    let t = if s.len() > 0 && (s[0] == PLUS || s[0] == MINUS) {
        s.drop_first()
    } else {
        s
    };
    let i = run_until(t, 0, DOT) as int;
    if i >= t.len() {
        if t.len() > 0 && all_digit_bytes(t) && dec_value_bytes(t) * 1000 <= u64::MAX {
            Some((neg, (dec_value_bytes(t) * 1000) as u64))
        } else {
            None
        }
    } else {
        let ip = t.take(i);
        let fp = t.skip(i + 1);
        if ip.len() + fp.len() > 0 && all_digit_bytes(ip) && all_digit_bytes(fp)
            && dec_value_bytes(ip) * 1000 + frac_ms(fp) <= u64::MAX {
            Some((neg, (dec_value_bytes(ip) * 1000 + frac_ms(fp)) as u64))
        } else {
            None
        }
    }
}

/// What a descriptor line means: the operator it names, or the error of
/// the first field that fails. A time that parses but is not positive is
/// rejected as an invalid time; a time that does not parse at all is
/// reported with the same error the classical implementation gave it.
pub open spec fn spec_operator_from(s: Seq<u8>) -> Result<Operator, OperatorParseError> {
    let fs = split_fields(s);
    if spec_u32_field(fs[0]) is None {
        Err(OperatorParseError::InvalidId)
    } else if fs.len() < 2 || !(fs[1] =~= seq![UPPER_R] || fs[1] =~= seq![UPPER_W]) {
        Err(OperatorParseError::InvalidRole)
    } else if fs.len() < 3 {
        Err(OperatorParseError::InvalidStartAt)
    } else {
        match spec_time_field(fs[2]) {
            None => Err(OperatorParseError::InvalidRole),
            Some((start_neg, start_ms)) => {
                if start_neg || start_ms == 0 {
                    Err(OperatorParseError::InvalidStartAt)
                } else if fs.len() < 4 {
                    Err(OperatorParseError::InvalidDuration)
                } else {
                    match spec_time_field(fs[3]) {
                        None => Err(OperatorParseError::InvalidDuration),
                        Some((dur_neg, dur_ms)) => {
                            if dur_neg || dur_ms == 0 {
                                Err(OperatorParseError::InvalidDuration)
                            } else if fs.len() > 4 {
                                Err(OperatorParseError::TooManyFields)
                            } else {
                                Ok(
                                    Operator {
                                        id: spec_u32_field(fs[0])->0,
                                        role: if fs[1] =~= seq![UPPER_R] {
                                            OperatorRole::Reader
                                        } else {
                                            OperatorRole::Writer
                                        },
                                        start_at_ms: start_ms,
                                        duration_ms: dur_ms,
                                    },
                                )
                            }
                        },
                    }
                }
            },
        }
    }
}

/// Scans from `start` for `stop`, returning where the run ends: the
/// position of the first `stop`, or the end of the bytes.
fn scan_until(b: &[u8], start: usize, stop: u8) -> (end: usize)
    requires
        start <= b@.len(),
    ensures
        end == start + run_until(b@, start as int, stop),
        start <= end <= b@.len(),
        end < b@.len() ==> b@[end as int] == stop,
    decreases b@.len() - start,
{
    let n = b.len();
    let mut i = start;
    while i < n
        invariant
            start <= i <= n,
            n == b@.len(),
            forall|m: int| start <= m < i ==> b@[m] != stop,
        decreases n - i,
    {
        if b[i] == stop {
            proof {
                lemma_run_until_value(b@, start as int, stop, i as int);
            }
            return i;
        }
        i = i + 1;
    }
    proof {
        lemma_run_until_value(b@, start as int, stop, i as int);
    }
    i
}

/// Whether `b[start..end]` is all decimal digits.
fn all_digits_range(b: &[u8], start: usize, end: usize) -> (r: bool)
    requires
        start <= end <= b@.len(),
    ensures
        r == all_digit_bytes(b@.subrange(start as int, end as int)),
{
    let ghost sub = b@.subrange(start as int, end as int);
    let mut i = start;
    while i < end
        invariant
            start <= i <= end <= b@.len(),
            sub == b@.subrange(start as int, end as int),
            forall|m: int| 0 <= m < i - start ==> is_digit_byte(#[trigger] sub[m]),
        decreases end - i,
    {
        let c = b[i];
        if c < 48 || c > 57 {
            proof {
                assert(!is_digit_byte(sub[i - start]));
            }
            return false;
        }
        i = i + 1;
    }
    true
}

/// Parses the digit run `b[start..end]` as a decimal of value at most
/// `max`.
fn parse_digits(b: &[u8], start: usize, end: usize, max: u64) -> (r: Option<u64>)
    requires
        start <= end <= b@.len(),
    ensures
        r == (if all_digit_bytes(b@.subrange(start as int, end as int)) && dec_value_bytes(
            b@.subrange(start as int, end as int),
        ) <= max {
            Some(dec_value_bytes(b@.subrange(start as int, end as int)) as u64)
        } else {
            None::<u64>
        }),
{
    let ghost sub = b@.subrange(start as int, end as int);
    let mut acc: u64 = 0;
    let mut i = start;
    while i < end
        invariant
            start <= i <= end <= b@.len(),
            sub == b@.subrange(start as int, end as int),
            all_digit_bytes(sub.take(i - start)),
            acc == dec_value_bytes(sub.take(i - start)),
            acc <= max,
        decreases end - i,
    {
        let c = b[i];
        if c < 48 || c > 57 {
            proof {
                assert(!is_digit_byte(sub[i - start]));
            }
            return None;
        }
        let d = (c - 48) as u64;
        proof {
            assert(sub.take(i - start + 1).drop_last() =~= sub.take(i - start));
            assert(sub.take(i - start + 1).last() == sub[i - start]);
            assert(dec_value_bytes(sub.take(i - start + 1)) == dec_value_bytes(sub.take(i - start))
                * 10 + digit_byte_val(sub[i - start]));
        }
        if acc > max / 10 || (acc == max / 10 && d > max % 10) {
            proof {
                assert(acc * 10 + d > max) by (nonlinear_arith)
                    requires
                        acc > max / 10 || (acc == max / 10 && d > max % 10),
                        max == (max / 10) * 10 + max % 10,
                        max % 10 < 10,
                ;
                assert(dec_value_bytes(sub.take(i - start + 1)) > max);
                lemma_dec_value_prefix(sub, i - start + 1);
                assert(dec_value_bytes(sub) > max);
            }
            return None;
        }
        proof {
            assert(acc * 10 + d <= max) by (nonlinear_arith)
                requires
                    acc < max / 10 || (acc == max / 10 && d <= max % 10),
                    max == (max / 10) * 10 + max % 10,
                    d < 10,
            ;
        }
        acc = acc * 10 + d;
        i = i + 1;
    }
    proof {
        assert(sub.take(end - start) =~= sub);
    }
    Some(acc)
}

/// Parses an unsigned decimal field whose value fits the id type.
fn parse_u32_field(b: &[u8], start: usize, end: usize) -> (r: Option<u32>)
    requires
        start <= end <= b@.len(),
    ensures
        r == spec_u32_field(b@.subrange(start as int, end as int)),
{
    let ghost sub = b@.subrange(start as int, end as int);
    let mut i = start;
    if i < end && b[i] == PLUS {
        i = i + 1;
        proof {
            assert(sub.drop_first() =~= b@.subrange(i as int, end as int));
        }
    } else {
        proof {
            assert(sub =~= b@.subrange(i as int, end as int));
        }
    }
    if i == end {
        return None;
    }
    match parse_digits(b, i, end, 0xffff_ffffu64) {
        None => None,
        Some(v) => Some(v as u32),
    }
}

/// Parses a time field: sign and milliseconds.
#[verifier::rlimit(100)]
fn parse_time_field(b: &[u8], start: usize, end: usize) -> (r: Option<(bool, u64)>)
    requires
        start <= end <= b@.len(),
    ensures
        r == spec_time_field(b@.subrange(start as int, end as int)),
{
    let ghost sub = b@.subrange(start as int, end as int);
    let mut i = start;
    let mut neg = false;
    if i < end && (b[i] == PLUS || b[i] == MINUS) {
        neg = b[i] == MINUS;
        i = i + 1;
    }
    let ghost t = b@.subrange(i as int, end as int);
    proof {
        if start < end && (b@[start as int] == PLUS || b@[start as int] == MINUS) {
            assert(sub.drop_first() =~= t);
        } else {
            assert(sub =~= t);
        }
    }
    let mut j = i;
    while j < end
        invariant_except_break
            i <= j <= end <= b@.len(),
            t == b@.subrange(i as int, end as int),
            forall|m: int| 0 <= m < j - i ==> t[m] != DOT,
        ensures
            i <= j <= end <= b@.len(),
            t == b@.subrange(i as int, end as int),
            forall|m: int| 0 <= m < j - i ==> t[m] != DOT,
            j < end ==> t[j - i] == DOT,
        decreases end - j,
    {
        if b[j] == DOT {
            break ;
        }
        j = j + 1;
    }
    proof {
        lemma_run_until_value(t, 0, DOT, j - i);
    }
    if j == end {
        if i == end {
            return None;
        }
        match parse_digits(b, i, end, u64::MAX) {
            None => None,
            Some(v) => {
                if v > u64::MAX / 1000 {
                    proof {
                        assert(v * 1000 > u64::MAX) by (nonlinear_arith)
                            requires
                                v > u64::MAX / 1000,
                                u64::MAX == (u64::MAX / 1000) * 1000 + u64::MAX % 1000,
                                u64::MAX % 1000 < 1000,
                        ;
                    }
                    None
                } else {
                    proof {
                        assert(v * 1000 <= u64::MAX) by (nonlinear_arith)
                            requires
                                v <= u64::MAX / 1000,
                                u64::MAX == (u64::MAX / 1000) * 1000 + u64::MAX % 1000,
                        ;
                    }
                    Some((neg, v * 1000))
                }
            },
        }
    } else {
        let flen = end - (j + 1);
        if j == i && flen == 0 {
            return None;
        }
        let ghost ip = t.take(j - i);
        let ghost fp = t.skip(j - i + 1);
        proof {
            assert(ip =~= b@.subrange(i as int, j as int));
            assert(fp =~= b@.subrange(j + 1int, end as int));
        }
        let ip_opt = parse_digits(b, i, j, u64::MAX);
        match ip_opt {
            None => None,
            Some(ipv) => {
                if !all_digits_range(b, j + 1, end) {
                    None
                } else {
                    let fm: u64 = if flen >= 3 {
                        proof {
                            assert(fp.take(3) =~= b@.subrange(j + 1int, j + 4int));
                            assert(all_digit_bytes(fp.take(3))) by {
                                assert(forall|m: int|
                                    0 <= m < 3 ==> #[trigger] fp.take(3)[m] == fp[m]);
                            }
                            lemma_small_dec_bound(fp.take(3));
                        }
                        match parse_digits(b, j + 1, j + 4, u64::MAX) {
                            None => {
                                proof {
                                    assert(false);
                                }
                                0
                            },
                            Some(v) => v,
                        }
                    } else if flen == 2 {
                        proof {
                            lemma_small_dec_bound(fp);
                        }
                        match parse_digits(b, j + 1, end, u64::MAX) {
                            None => {
                                proof {
                                    assert(false);
                                }
                                0
                            },
                            Some(v) => v * 10,
                        }
                    } else if flen == 1 {
                        proof {
                            lemma_small_dec_bound(fp);
                        }
                        match parse_digits(b, j + 1, end, u64::MAX) {
                            None => {
                                proof {
                                    assert(false);
                                }
                                0
                            },
                            Some(v) => v * 100,
                        }
                    } else {
                        0
                    };
                    proof {
                        assert(fm == frac_ms(fp));
                        assert(fm <= u64::MAX);
                    }
                    if ipv > (u64::MAX - fm) / 1000 {
                        proof {
                            assert(ipv * 1000 + fm > u64::MAX) by (nonlinear_arith)
                                requires
                                    ipv > (u64::MAX - fm) / 1000,
                                    fm <= u64::MAX,
                                    u64::MAX - fm == ((u64::MAX - fm) / 1000) * 1000 + (u64::MAX
                                        - fm) % 1000,
                                    (u64::MAX - fm) % 1000 < 1000,
                            ;
                        }
                        None
                    } else {
                        proof {
                            assert(ipv * 1000 + fm <= u64::MAX) by (nonlinear_arith)
                                requires
                                    ipv <= (u64::MAX - fm) / 1000,
                                    fm <= u64::MAX,
                                    u64::MAX - fm == ((u64::MAX - fm) / 1000) * 1000 + (u64::MAX
                                        - fm) % 1000,
                            ;
                        }
                        Some((neg, ipv * 1000 + fm))
                    }
                }
            },
        }
    }
}

impl Operator {
    /// Parses an operator descriptor line.
    #[verifier::rlimit(100)]
    pub fn from(line: &str) -> (r: Result<Operator, OperatorParseError>)
        ensures
            r == spec_operator_from(line.spec_bytes()),
    {
        let b: &[u8] = line.as_bytes();
        let n = b.len();
        let ghost s = b@;
        let ghost fs = split_fields(s);
        let e0 = scan_until(b, 0, SPACE);
        proof {
            if e0 == n {
                assert(fs =~= seq![s.subrange(0, n as int)]);
            } else {
                assert(fs =~= seq![s.subrange(0, e0 as int)] + split_fields_from(s, e0 + 1));
            }
            assert(fs[0] == s.subrange(0, e0 as int));
        }
        let id = match parse_u32_field(b, 0, e0) {
            None => {
                return Err(OperatorParseError::InvalidId);
            },
            Some(v) => v,
        };
        if e0 == n {
            proof {
                assert(fs.len() == 1);
            }
            return Err(OperatorParseError::InvalidRole);
        }
        let s1 = e0 + 1;
        let e1 = scan_until(b, s1, SPACE);
        let ghost fs1 = split_fields_from(s, s1 as int);
        proof {
            if e1 == n {
                assert(fs1 =~= seq![s.subrange(s1 as int, n as int)]);
            } else {
                assert(fs1 =~= seq![s.subrange(s1 as int, e1 as int)] + split_fields_from(
                    s,
                    e1 + 1,
                ));
            }
            assert(fs[1] == s.subrange(s1 as int, e1 as int));
        }
        let role = if e1 - s1 == 1 && b[s1] == UPPER_R {
            proof {
                assert(fs[1] =~= seq![UPPER_R]);
            }
            OperatorRole::Reader
        } else if e1 - s1 == 1 && b[s1] == UPPER_W {
            proof {
                assert(fs[1] =~= seq![UPPER_W]);
            }
            OperatorRole::Writer
        } else {
            proof {
                if fs[1] =~= seq![UPPER_R] {
                    assert(fs[1].len() == 1);
                    assert(e1 - s1 == 1);
                    assert(s[s1 as int] == fs[1][0]);
                    assert(s[s1 as int] == UPPER_R);
                }
                if fs[1] =~= seq![UPPER_W] {
                    assert(fs[1].len() == 1);
                    assert(e1 - s1 == 1);
                    assert(s[s1 as int] == fs[1][0]);
                    assert(s[s1 as int] == UPPER_W);
                }
            }
            return Err(OperatorParseError::InvalidRole);
        };
        if e1 == n {
            proof {
                assert(fs.len() == 2);
            }
            return Err(OperatorParseError::InvalidStartAt);
        }
        let s2 = e1 + 1;
        let e2 = scan_until(b, s2, SPACE);
        let ghost fs2 = split_fields_from(s, s2 as int);
        proof {
            if e2 == n {
                assert(fs2 =~= seq![s.subrange(s2 as int, n as int)]);
            } else {
                assert(fs2 =~= seq![s.subrange(s2 as int, e2 as int)] + split_fields_from(
                    s,
                    e2 + 1,
                ));
            }
            assert(fs[2] == s.subrange(s2 as int, e2 as int));
            assert(fs.len() >= 3);
        }
        let start_at_ms = match parse_time_field(b, s2, e2) {
            None => {
                return Err(OperatorParseError::InvalidRole);
            },
            Some((start_neg, start_ms)) => {
                if start_neg || start_ms == 0 {
                    return Err(OperatorParseError::InvalidStartAt);
                }
                start_ms
            },
        };
        if e2 == n {
            proof {
                assert(fs.len() == 3);
            }
            return Err(OperatorParseError::InvalidDuration);
        }
        let s3 = e2 + 1;
        let e3 = scan_until(b, s3, SPACE);
        let ghost fs3 = split_fields_from(s, s3 as int);
        proof {
            if e3 == n {
                assert(fs3 =~= seq![s.subrange(s3 as int, n as int)]);
            } else {
                assert(fs3 =~= seq![s.subrange(s3 as int, e3 as int)] + split_fields_from(
                    s,
                    e3 + 1,
                ));
            }
            assert(fs[3] == s.subrange(s3 as int, e3 as int));
            assert(fs.len() >= 4);
        }
        let duration_ms = match parse_time_field(b, s3, e3) {
            None => {
                return Err(OperatorParseError::InvalidDuration);
            },
            Some((dur_neg, dur_ms)) => {
                if dur_neg || dur_ms == 0 {
                    return Err(OperatorParseError::InvalidDuration);
                }
                dur_ms
            },
        };
        if e3 < n {
            proof {
                assert(split_fields_from(s, e3 + 1).len() >= 1);
                assert(fs.len() >= 5);
            }
            return Err(OperatorParseError::TooManyFields);
        }
        proof {
            assert(fs.len() == 4);
        }
        Ok(Operator { id, role, start_at_ms, duration_ms })
    }
}

} // verus!
