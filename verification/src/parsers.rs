//! Parsers for human-readable duration and timestamp literals.
//!
//! A duration literal is up to three optional parts, `"1h2m3s"`: a decimal
//! number (fitting a 16-bit value) followed by `h`, `m` or `s`. A timestamp
//! literal is `"HH:MM"`, optionally `":SS"`, optionally followed by a day
//! offset `" +D"`. A parser consumes a prefix of its input and reports how
//! many bytes it took; callers that require the whole input consumed check
//! the count against the input length.

use vstd::prelude::*;
use vstd::string::StringSliceAdditionalSpecFns;
use crate::duration::Duration;
use crate::timestamp::Timestamp;

verus! {

/// The byte code of `h`.
pub const LETTER_H: u8 = 104;

/// The byte code of `m`.
pub const LETTER_M: u8 = 109;

/// The byte code of `s`.
pub const LETTER_S: u8 = 115;

/// The byte code of `:`.
pub const COLON: u8 = 58;

/// The byte code of a space.
pub const SPACE: u8 = 32;

/// The byte code of `+`.
pub const PLUS: u8 = 43;

/// Whether `c` is the code of a decimal digit.
pub open spec fn is_digit(c: u8) -> bool {
    48 <= c <= 57
}

/// The numeric value of a digit byte.
pub open spec fn digit_val(c: u8) -> int {
    c - 48
}

/// The decimal value of an all-digit byte sequence, most significant first.
pub open spec fn dec_val(s: Seq<u8>) -> int
    decreases s.len(),
{
    if s.len() == 0 {
        0
    } else {
        dec_val(s.drop_last()) * 10 + digit_val(s.last())
    }
}

/// Where the run of digits starting at `i` ends.
pub open spec fn run_end(s: Seq<u8>, i: int) -> int
    decreases s.len() - i,
{
    if 0 <= i < s.len() && is_digit(s[i]) {
        run_end(s, i + 1)
    } else {
        i
    }
}

/// A digit run's end lies between its start and the end of the input, with
/// digits throughout and a non-digit (or the end) after it.
proof fn lemma_run_end(s: Seq<u8>, i: int)
    requires
        0 <= i <= s.len(),
    ensures
        i <= run_end(s, i) <= s.len(),
        forall|t: int| i <= t < run_end(s, i) ==> is_digit(#[trigger] s[t]),
        run_end(s, i) == s.len() || !is_digit(s[run_end(s, i)]),
    decreases s.len() - i,
{
    if i < s.len() && is_digit(s[i]) {
        lemma_run_end(s, i + 1);
    }
}

/// The decimal value of a run one digit longer.
proof fn lemma_dec_val_step(s: Seq<u8>, i: int, j: int)
    requires
        0 <= i <= j < s.len(),
    ensures
        dec_val(s.subrange(i, j + 1)) == dec_val(s.subrange(i, j)) * 10 + digit_val(s[j]),
{
    assert(s.subrange(i, j + 1).drop_last() =~= s.subrange(i, j));
    assert(s.subrange(i, j + 1).last() == s[j]);
}

/// Decimal values of digit runs are non-negative.
proof fn lemma_dec_val_nonneg(s: Seq<u8>)
    requires
        forall|t: int| 0 <= t < s.len() ==> is_digit(#[trigger] s[t]),
    ensures
        dec_val(s) >= 0,
    decreases s.len(),
{
    if s.len() > 0 {
        assert(forall|t: int|
            0 <= t < s.drop_last().len() ==> is_digit(#[trigger] s.drop_last()[t]));
        lemma_dec_val_nonneg(s.drop_last());
    }
}

/// Scans the digit run starting at `i` and yields its end and value, unless
/// there is no digit there or the value exceeds 16 bits.
fn scan_u16(s: &[u8], i: usize) -> (r: Option<(usize, u32)>)
    requires
        i <= s@.len(),
    ensures
        ({
            let j = run_end(s@, i as int);
            let v = dec_val(s@.subrange(i as int, j));
            &&& (r is Some <==> j > i && v <= 0xffff)
            &&& (r matches Some((jj, vv)) ==> jj == j && vv == v && i < jj <= s@.len())
        }),
{
    let ghost seq = s@;
    let n = s.len();
    let mut j = i;
    let mut acc: u32 = 0;
    proof {
        lemma_run_end(seq, i as int);
        assert(seq.subrange(i as int, i as int) =~= Seq::<u8>::empty());
    }
    while j < n && 48 <= s[j] && s[j] <= 57
        invariant
            seq == s@,
            n == seq.len(),
            i <= j <= n,
            forall|t: int| i <= t < j ==> is_digit(#[trigger] seq[t]),
            run_end(seq, i as int) == run_end(seq, j as int),
            acc == if dec_val(seq.subrange(i as int, j as int)) <= 0xffff {
                dec_val(seq.subrange(i as int, j as int))
            } else {
                0x10000int
            },
        decreases n - j,
    {
        let d: u32 = (s[j] - 48) as u32;
        proof {
            lemma_dec_val_step(seq, i as int, j as int);
            lemma_dec_val_nonneg(seq.subrange(i as int, j as int));
        }
        let t: u32 = if acc > 0xffff {
            0x10000
        } else {
            acc * 10 + d
        };
        acc = if t > 0xffff {
            0x10000
        } else {
            t
        };
        j += 1;
    }
    proof {
        lemma_run_end(seq, j as int);
        assert(run_end(seq, j as int) == j);
    }
    if j > i && acc <= 0xffff {
        Some((j, acc))
    } else {
        None
    }
}

/// Where the optional duration part `<number><letter>` starting at `i`
/// ends; `i` itself when the part is absent.
pub open spec fn part_end(s: Seq<u8>, i: int, letter: u8) -> int {
    let j = run_end(s, i);
    if j > i && dec_val(s.subrange(i, j)) <= 0xffff && j < s.len() && s[j] == letter {
        j + 1
    } else {
        i
    }
}

/// The value of the optional duration part starting at `i`; zero when the
/// part is absent.
pub open spec fn part_val(s: Seq<u8>, i: int, letter: u8) -> int {
    let j = run_end(s, i);
    if j > i && dec_val(s.subrange(i, j)) <= 0xffff && j < s.len() && s[j] == letter {
        dec_val(s.subrange(i, j))
    } else {
        0
    }
}

/// How many bytes of a duration literal are consumed.
pub open spec fn duration_consumed(s: Seq<u8>) -> int {
    let i1 = part_end(s, 0, LETTER_H);
    let i2 = part_end(s, i1, LETTER_M);
    part_end(s, i2, LETTER_S)
}

/// The seconds denoted by a duration literal's consumed prefix.
pub open spec fn duration_value(s: Seq<u8>) -> int {
    let i1 = part_end(s, 0, LETTER_H);
    let i2 = part_end(s, i1, LETTER_M);
    3600 * part_val(s, 0, LETTER_H) + 60 * part_val(s, i1, LETTER_M) + part_val(s, i2, LETTER_S)
}

/// Parses one optional duration part at `i`: the consumed end and value.
fn parse_part(s: &[u8], i: usize, letter: u8) -> (r: (usize, u32))
    requires
        i <= s@.len(),
    ensures
        r.0 == part_end(s@, i as int, letter),
        r.1 == part_val(s@, i as int, letter),
        i <= r.0 <= s@.len(),
        r.1 <= 0xffff,
{
    proof {
        lemma_run_end(s@, i as int);
    }
    match scan_u16(s, i) {
        Some((j, v)) => {
            if j < s.len() && s[j] == letter {
                (j + 1, v)
            } else {
                (i, 0)
            }
        },
        None => (i, 0),
    }
}

/// Parses a duration literal prefix, `"1h2m3s"` style: every part is
/// optional, and a missing or malformed part contributes nothing. Returns
/// the number of bytes consumed and the parsed duration.
pub fn parse_duration(input: &str) -> (r: (usize, Duration))
    ensures
        r.0 == duration_consumed(input.spec_bytes()),
        r.1@ == duration_value(input.spec_bytes()),
        r.0 <= input.spec_bytes().len(),
{
    let bytes = input.as_bytes();
    let (i1, vh) = parse_part(bytes, 0, LETTER_H);
    let (i2, vm) = parse_part(bytes, i1, LETTER_M);
    let (i3, vs) = parse_part(bytes, i2, LETTER_S);
    let total: i64 = 3600 * (vh as i64) + 60 * (vm as i64) + (vs as i64);
    (i3, Duration::from_s(total))
}

/// Whether two digit bytes stand at `i`.
pub open spec fn two_digits(s: Seq<u8>, i: int) -> bool {
    i + 2 <= s.len() && is_digit(s[i]) && is_digit(s[i + 1])
}

/// The value of the two digit bytes at `i`.
pub open spec fn two_digit_val(s: Seq<u8>, i: int) -> int {
    digit_val(s[i]) * 10 + digit_val(s[i + 1])
}

/// Whether a timestamp literal `HH:MM` starts the input.
pub open spec fn ts_ok(s: Seq<u8>) -> bool {
    two_digits(s, 0) && 2 < s.len() && s[2] == COLON && two_digits(s, 3)
}

/// Whether the optional `:SS` component is present.
pub open spec fn ts_has_seconds(s: Seq<u8>) -> bool {
    ts_ok(s) && 5 < s.len() && s[5] == COLON && two_digits(s, 6)
}

/// Where the timestamp's time-of-day part ends.
pub open spec fn ts_time_end(s: Seq<u8>) -> int {
    if ts_has_seconds(s) {
        8
    } else {
        5
    }
}

/// Whether the optional day-offset component `" +D"` is present.
pub open spec fn ts_has_day(s: Seq<u8>) -> bool {
    let c = ts_time_end(s);
    let j = run_end(s, c + 2);
    ts_ok(s) && c + 2 <= s.len() && s[c] == SPACE && s[c + 1] == PLUS && j > c + 2 && dec_val(
        s.subrange(c + 2, j),
    ) <= 0xffff
}

/// How many bytes of a timestamp literal are consumed.
pub open spec fn ts_consumed(s: Seq<u8>) -> int {
    if ts_has_day(s) {
        run_end(s, ts_time_end(s) + 2)
    } else {
        ts_time_end(s)
    }
}

/// The seconds since the origin denoted by a timestamp literal.
pub open spec fn ts_value(s: Seq<u8>) -> int {
    let day = if ts_has_day(s) {
        dec_val(s.subrange(ts_time_end(s) + 2, run_end(s, ts_time_end(s) + 2)))
    } else {
        0
    };
    let secs = if ts_has_seconds(s) {
        two_digit_val(s, 6)
    } else {
        0
    };
    86400 * day + 3600 * two_digit_val(s, 0) + 60 * two_digit_val(s, 3) + secs
}

/// Parses exactly two digits at `i`.
fn parse_2_digits_at(s: &[u8], i: usize) -> (r: Option<u32>)
    requires
        i <= s@.len(),
    ensures
        r is Some <==> two_digits(s@, i as int),
        r matches Some(v) ==> v == two_digit_val(s@, i as int) && v <= 99,
{
    if s.len() >= 2 && i <= s.len() - 2 && 48 <= s[i] && s[i] <= 57 && 48 <= s[i + 1] && s[i + 1]
        <= 57 {
        Some(((s[i] - 48) as u32) * 10 + ((s[i + 1] - 48) as u32))
    } else {
        None
    }
}

/// Parses exactly two digits at the start of the input: `"07"` gives 7.
pub fn parse_2_digits(input: &str) -> (r: Option<i32>)
    ensures
        r is Some <==> two_digits(input.spec_bytes(), 0),
        r matches Some(v) ==> v == two_digit_val(input.spec_bytes(), 0) && 0 <= v <= 99,
{
    let bytes = input.as_bytes();
    match parse_2_digits_at(bytes, 0) {
        Some(v) => Some(v as i32),
        None => None,
    }
}

/// Parses a timestamp literal prefix, `"01:02:03 +7"` style: hours and
/// minutes are required two-digit groups, the seconds group and the day
/// offset are optional. Returns the bytes consumed and the timestamp, or
/// `None` when the input does not start with `HH:MM`.
pub fn parse_timestamp(input: &str) -> (r: Option<(usize, Timestamp)>)
    ensures
        r is Some <==> ts_ok(input.spec_bytes()),
        r matches Some((c, t)) ==> c == ts_consumed(input.spec_bytes()) && t@ == ts_value(
            input.spec_bytes(),
        ) && c <= input.spec_bytes().len(),
{
    let bytes = input.as_bytes();
    let h = match parse_2_digits_at(bytes, 0) {
        Some(h) => h,
        None => {
            return None;
        },
    };
    if !(2 < bytes.len() && bytes[2] == COLON) {
        return None;
    }
    let m = match parse_2_digits_at(bytes, 3) {
        Some(m) => m,
        None => {
            return None;
        },
    };
    let (secs, time_end): (u32, usize) = if 5 < bytes.len() && bytes[5] == COLON {
        match parse_2_digits_at(bytes, 6) {
            Some(v) => (v, 8),
            None => (0, 5),
        }
    } else {
        (0, 5)
    };
    let (day, consumed): (u32, usize) = if time_end + 1 < bytes.len() && bytes[time_end] == SPACE
        && bytes[time_end + 1] == PLUS {
        match scan_u16(bytes, time_end + 2) {
            Some((j, v)) => (v, j),
            None => (0, time_end),
        }
    } else {
        (0, time_end)
    };
    let t = Timestamp::from_dhms(day as i64, h as i64, m as i64, secs as i64);
    Some((consumed, t))
}

} // verus!
