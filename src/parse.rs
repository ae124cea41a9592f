//! The text log: one entry per line, `dd.mm.yy-dd.mm.yy` for a finished cycle
//! or `dd.mm.yy-??` for one whose end is not known yet. Years are counted from
//! 2000.

use crate::date::{day_number, from_ymd, is_valid_ymd, Date, MAX_YEAR};
use vstd::prelude::*;
use vstd::string::StringSliceAdditionalSpecFns;
use vstd::utf8::*;

verus! {

/// Why a text could not be read.
#[derive(Debug, Clone, Copy, PartialEq, Eq, Structural)]
pub enum ParseError {
    /// The text does not follow the grammar.
    Malformed,
    /// A date follows the grammar but names a day that does not exist.
    InvalidDate,
}

/// A cycle's start date and, when known, its end date.
pub type DatePair = (Date, Option<Date>);

pub open spec fn is_digit(c: u8) -> bool {
    48 <= c <= 57
}

/// End of the run of decimal digits that starts at `i`.
pub open spec fn digits_end(s: Seq<u8>, i: int) -> int
    decreases s.len() - i,
{
    if 0 <= i < s.len() && is_digit(s[i]) {
        digits_end(s, i + 1)
    } else {
        i
    }
}

/// Value of the decimal digits `s[i..j]`.
pub open spec fn digits_value(s: Seq<u8>, i: int, j: int) -> int
    decreases j - i,
{
    if j <= i {
        0
    } else {
        digits_value(s, i, j - 1) * 10 + (s[j - 1] - 48)
    }
}

/// An unsigned 32-bit number at `i`: its end and value.
pub open spec fn unsigned_at(s: Seq<u8>, i: int) -> Option<(int, int)> {
    let e = digits_end(s, i);
    if e == i || digits_value(s, i, e) > u32::MAX {
        None
    } else {
        Some((e, digits_value(s, i, e)))
    }
}

/// A signed 32-bit number at `i`, with an optional `+` or `-`: its end and value.
pub open spec fn signed_at(s: Seq<u8>, i: int) -> Option<(int, int)> {
    let neg = 0 <= i < s.len() && s[i] == 45;
    let plus = 0 <= i < s.len() && s[i] == 43;
    let st = if neg || plus {
        i + 1
    } else {
        i
    };
    let e = digits_end(s, st);
    let v = digits_value(s, st, e);
    if e == st {
        None
    } else if neg {
        if -v < i32::MIN {
            None
        } else {
            Some((e, -v))
        }
    } else if v > i32::MAX {
        None
    } else {
        Some((e, v))
    }
}

pub open spec fn byte_at(s: Seq<u8>, i: int, c: u8) -> bool {
    0 <= i < s.len() && s[i] == c
}

/// A date `dd.mm.yy` at `i`, the year counted from 2000: its end and the date.
pub open spec fn date_at(s: Seq<u8>, i: int) -> Result<(int, Date), ParseError> {
    match unsigned_at(s, i) {
        None => Err(ParseError::Malformed),
        Some((a, day)) => if !byte_at(s, a, 46) {
            Err(ParseError::Malformed)
        } else {
            match unsigned_at(s, a + 1) {
                None => Err(ParseError::Malformed),
                Some((b, month)) => if !byte_at(s, b, 46) {
                    Err(ParseError::Malformed)
                } else {
                    match signed_at(s, b + 1) {
                        None => Err(ParseError::Malformed),
                        Some((c, yy)) => if is_valid_ymd(2000 + yy, month, day) {
                            Ok((c, Date { days: day_number(2000 + yy, month, day) as i32 }))
                        } else {
                            Err(ParseError::InvalidDate)
                        },
                    }
                },
            }
        },
    }
}

/// An entry `start-end` or `start-??` at `i`: its end and the pair.
pub open spec fn pair_at(s: Seq<u8>, i: int) -> Result<(int, DatePair), ParseError> {
    match date_at(s, i) {
        Err(x) => Err(x),
        Ok((c, start)) => if !byte_at(s, c, 45) {
            Err(ParseError::Malformed)
        } else {
            match date_at(s, c + 1) {
                Ok((e, end)) => Ok((e, (start, Some(end)))),
                Err(ParseError::InvalidDate) => Err(ParseError::InvalidDate),
                Err(ParseError::Malformed) => if byte_at(s, c + 1, 63) && byte_at(s, c + 2, 63) {
                    Ok((c + 3, (start, None)))
                } else {
                    Err(ParseError::Malformed)
                },
            }
        },
    }
}

/// The entries that follow position `p`, each after a newline; reading stops
/// before the first newline that no well-formed entry follows.
pub open spec fn more_pairs_at(s: Seq<u8>, p: int) -> Result<(int, Seq<DatePair>), ParseError>
    decreases s.len() - p,
{
    if byte_at(s, p, 10) {
        match pair_at(s, p + 1) {
            Ok((q, v)) => if p < q <= s.len() {
                match more_pairs_at(s, q) {
                    Ok((e, vs)) => Ok((e, seq![v] + vs)),
                    Err(x) => Err(x),
                }
            } else {
                Ok((p, Seq::empty()))
            },
            Err(ParseError::InvalidDate) => Err(ParseError::InvalidDate),
            Err(ParseError::Malformed) => Ok((p, Seq::empty())),
        }
    } else {
        Ok((p, Seq::empty()))
    }
}

/// One or more entries separated by newlines, starting at `i`.
pub open spec fn pairs_at(s: Seq<u8>, i: int) -> Result<(int, Seq<DatePair>), ParseError> {
    match pair_at(s, i) {
        Err(x) => Err(x),
        Ok((q, v)) => match more_pairs_at(s, q) {
            Ok((e, vs)) => Ok((e, seq![v] + vs)),
            Err(x) => Err(x),
        },
    }
}

proof fn lemma_digits_run(s: Seq<u8>, i: int)
    requires
        0 <= i <= s.len(),
    ensures
        i <= digits_end(s, i) <= s.len(),
        forall|m: int| i <= m < digits_end(s, i) ==> is_digit(#[trigger] s[m]),
        digits_end(s, i) < s.len() ==> !is_digit(s[digits_end(s, i)]),
    decreases s.len() - i,
{
    if i < s.len() && is_digit(s[i]) {
        lemma_digits_run(s, i + 1);
    }
}

proof fn lemma_digits_value_grows(s: Seq<u8>, i: int, j: int, k: int)
    requires
        i <= j <= k,
        forall|m: int| i <= m < k ==> is_digit(#[trigger] s[m]),
    ensures
        0 <= digits_value(s, i, j) <= digits_value(s, i, k),
    decreases k - i,
{
    if j < k {
        lemma_digits_value_grows(s, i, j, k - 1);
        assert(is_digit(s[k - 1]));
    } else if i < j {
        lemma_digits_value_grows(s, i, j - 1, j - 1);
        assert(is_digit(s[j - 1]));
    }
}

/// The run of digits at `i`, if it is not empty and its value is at most `limit`.
fn digits(b: &[u8], i: usize, limit: u64) -> (r: Option<(usize, u64)>)
    requires
        i <= b@.len(),
    ensures
        ({
            let e = digits_end(b@, i as int);
            match r {
                Some((p, v)) => p == e && v == digits_value(b@, i as int, e) && i < p && v <= limit,
                None => e == i || digits_value(b@, i as int, e) > limit,
            }
        }),
{
    proof {
        lemma_digits_run(b@, i as int);
    }
    let mut p: usize = i;
    let mut v: u64 = 0;
    while p < b.len() && 48 <= b[p] && b[p] <= 57
        invariant
            i <= p <= b@.len(),
            digits_end(b@, i as int) == digits_end(b@, p as int),
            v == digits_value(b@, i as int, p as int),
            v <= limit,
            i <= digits_end(b@, i as int) <= b@.len(),
            forall|m: int| i <= m < digits_end(b@, i as int) ==> is_digit(#[trigger] b@[m]),
        decreases b@.len() - p,
    {
        let d: u64 = (b[p] - 48) as u64;
        if d > limit || v > (limit - d) / 10 {
            proof {
                lemma_digits_run(b@, p as int);
                lemma_digits_value_grows(b@, i as int, p as int + 1, digits_end(b@, i as int));
            }
            return None;
        }
        v = v * 10 + d;
        p = p + 1;
    }
    if p == i {
        None
    } else {
        Some((p, v))
    }
}

/// An unsigned 32-bit number at `i`.
fn unsigned(b: &[u8], i: usize) -> (r: Option<(usize, u32)>)
    requires
        i <= b@.len(),
    ensures
        match r {
            Some((e, v)) => unsigned_at(b@, i as int) == Some((e as int, v as int)),
            None => unsigned_at(b@, i as int) is None,
        },
        r matches Some((e, v)) ==> i < e <= b@.len() && is_digit(b@[e - 1]),
{
    proof {
        lemma_digits_run(b@, i as int);
    }
    match digits(b, i, 0xFFFF_FFFF) {
        Some((e, v)) => Some((e, v as u32)),
        None => None,
    }
}

/// A signed 32-bit number at `i`, with an optional sign.
fn signed(b: &[u8], i: usize) -> (r: Option<(usize, i32)>)
    requires
        i <= b@.len(),
    ensures
        match r {
            Some((e, v)) => signed_at(b@, i as int) == Some((e as int, v as int)),
            None => signed_at(b@, i as int) is None,
        },
        r matches Some((e, v)) ==> i < e <= b@.len() && is_digit(b@[e - 1]),
{
    let neg = i < b.len() && b[i] == 45;
    let plus = i < b.len() && b[i] == 43;
    let st: usize = if neg || plus {
        i + 1
    } else {
        i
    };
    proof {
        lemma_digits_run(b@, st as int);
    }
    if neg {
        match digits(b, st, 0x8000_0000) {
            Some((e, v)) => Some((e, (0 - v as i64) as i32)),
            None => None,
        }
    } else {
        match digits(b, st, 0x7FFF_FFFF) {
            Some((e, v)) => Some((e, v as i32)),
            None => None,
        }
    }
}

/// A date `dd.mm.yy` at `i`.
fn date_in(b: &[u8], i: usize) -> (r: Result<(usize, Date), ParseError>)
    requires
        i <= b@.len(),
    ensures
        match r {
            Ok((e, d)) => date_at(b@, i as int) == Ok::<(int, Date), ParseError>((e as int, d)),
            Err(x) => date_at(b@, i as int) == Err::<(int, Date), ParseError>(x),
        },
        r matches Ok((e, d)) ==> i < e <= b@.len() && is_digit(b@[e - 1]),
{
    let (a, day) = match unsigned(b, i) {
        Some(x) => x,
        None => return Err(ParseError::Malformed),
    };
    if !(a < b.len() && b[a] == 46) {
        return Err(ParseError::Malformed);
    }
    let (m, month) = match unsigned(b, a + 1) {
        Some(x) => x,
        None => return Err(ParseError::Malformed),
    };
    if !(m < b.len() && b[m] == 46) {
        return Err(ParseError::Malformed);
    }
    let (c, yy) = match signed(b, m + 1) {
        Some(x) => x,
        None => return Err(ParseError::Malformed),
    };
    if yy > MAX_YEAR - 2000 {
        return Err(ParseError::InvalidDate);
    }
    match from_ymd(2000 + yy, month, day) {
        Some(d) => Ok((c, d)),
        None => Err(ParseError::InvalidDate),
    }
}

/// An entry `start-end` or `start-??` at `i`.
fn pair_in(b: &[u8], i: usize) -> (r: Result<(usize, DatePair), ParseError>)
    requires
        i <= b@.len(),
    ensures
        match r {
            Ok((e, v)) => pair_at(b@, i as int) == Ok::<(int, DatePair), ParseError>((e as int, v)),
            Err(x) => pair_at(b@, i as int) == Err::<(int, DatePair), ParseError>(x),
        },
        r matches Ok((e, v)) ==> i < e <= b@.len() && b@[e - 1] < 128,
{
    let (c, start) = match date_in(b, i) {
        Ok(x) => x,
        Err(x) => return Err(x),
    };
    if !(c < b.len() && b[c] == 45) {
        return Err(ParseError::Malformed);
    }
    match date_in(b, c + 1) {
        Ok((e, end)) => Ok((e, (start, Some(end)))),
        Err(ParseError::InvalidDate) => Err(ParseError::InvalidDate),
        Err(ParseError::Malformed) => {
            if b.len() - c > 2 && b[c + 1] == 63 && b[c + 2] == 63 {
                Ok((c + 3, (start, None)))
            } else {
                Err(ParseError::Malformed)
            }
        },
    }
}

/// One or more entries separated by newlines, from the start of `b`.
fn pairs_in(b: &[u8]) -> (r: Result<(usize, Vec<DatePair>), ParseError>)
    ensures
        match r {
            Ok((e, v)) => pairs_at(b@, 0) == Ok::<(int, Seq<DatePair>), ParseError>((e as int, v@)),
            Err(x) => pairs_at(b@, 0) == Err::<(int, Seq<DatePair>), ParseError>(x),
        },
        r matches Ok((e, v)) ==> 0 < e <= b@.len() && b@[e - 1] < 128,
{
    let (q0, first) = match pair_in(b, 0) {
        Ok(x) => x,
        Err(x) => return Err(x),
    };
    let mut out: Vec<DatePair> = Vec::new();
    out.push(first);
    let mut p: usize = q0;
    proof {
        match more_pairs_at(b@, p as int) {
            Ok((e, vs)) => {
                assert(out@ + vs =~= seq![first] + vs);
            },
            Err(_) => {},
        }
    }
    loop
        invariant
            0 < p <= b@.len(),
            b@[p - 1] < 128,
            pairs_at(b@, 0) == (match more_pairs_at(b@, p as int) {
                Ok((e, vs)) => Ok::<(int, Seq<DatePair>), ParseError>((e, out@ + vs)),
                Err(x) => Err(x),
            }),
        ensures
            more_pairs_at(b@, p as int) == Ok::<(int, Seq<DatePair>), ParseError>(
                (p as int, Seq::empty()),
            ),
        decreases b@.len() - p,
    {
        if p < b.len() && b[p] == 10 {
            match pair_in(b, p + 1) {
                Ok((q, v)) => {
                    proof {
                        match more_pairs_at(b@, q as int) {
                            Ok((e, vs)) => {
                                assert(out@.push(v) + vs =~= out@ + (seq![v] + vs));
                            },
                            Err(_) => {},
                        }
                    }
                    out.push(v);
                    p = q;
                },
                Err(ParseError::InvalidDate) => {
                    return Err(ParseError::InvalidDate);
                },
                Err(ParseError::Malformed) => {
                    break ;
                },
            }
        } else {
            break ;
        }
    }
    assert(out@ + Seq::empty() =~= out@);
    Ok((p, out))
}

/// Past an ASCII byte of well-formed UTF-8 a character starts.
proof fn lemma_boundary_after_ascii(bytes: Seq<u8>, p: int)
    requires
        valid_utf8(bytes),
        0 < p <= bytes.len(),
        bytes[p - 1] < 128,
    ensures
        is_char_boundary(bytes, p),
    decreases bytes.len(),
{
    if p == bytes.len() {
        is_char_boundary_start_end_of_seq(bytes);
    } else {
        is_char_boundary_iff_is_leading_byte(bytes, p - 1);
        let l = length_of_first_scalar(bytes);
        let rest = pop_first_scalar(bytes);
        if p - 1 == 0 {
            assert(l == 1);
            is_char_boundary_start_end_of_seq(rest);
        } else {
            assert(p - 1 - l >= 0);
            assert(rest[p - 1 - l] == bytes[p - 1]);
            lemma_boundary_after_ascii(rest, p - l);
        }
    }
}

/// Reads a date `dd.mm.yy` at the start of `input`, the year counted from
/// 2000, and returns the text after it with the date.
pub fn parse_date(input: &str) -> (r: Result<(&str, Date), ParseError>)
    ensures
        match date_at(input.spec_bytes(), 0) {
            Ok((e, d)) => r matches Ok((rest, d2)) && d2 == d && rest.spec_bytes()
                =~= input.spec_bytes().subrange(e, input.spec_bytes().len() as int),
            Err(x) => r == Err::<(&str, Date), ParseError>(x),
        },
{
    let b = input.as_bytes();
    match date_in(b, 0) {
        Ok((e, d)) => {
            proof {
                encode_utf8_valid_utf8(input@);
                lemma_boundary_after_ascii(b@, e as int);
            }
            let (_, rest) = input.split_at(e);
            Ok((rest, d))
        },
        Err(x) => Err(x),
    }
}

/// Reads an entry `dd.mm.yy-dd.mm.yy`, or `dd.mm.yy-??` when the end is not
/// known, at the start of `input`, and returns the text after it with the
/// start and end dates.
pub fn parse_date_pair(input: &str) -> (r: Result<(&str, DatePair), ParseError>)
    ensures
        match pair_at(input.spec_bytes(), 0) {
            Ok((e, v)) => r matches Ok((rest, v2)) && v2 == v && rest.spec_bytes()
                =~= input.spec_bytes().subrange(e, input.spec_bytes().len() as int),
            Err(x) => r == Err::<(&str, DatePair), ParseError>(x),
        },
{
    let b = input.as_bytes();
    match pair_in(b, 0) {
        Ok((e, v)) => {
            proof {
                encode_utf8_valid_utf8(input@);
                lemma_boundary_after_ascii(b@, e as int);
            }
            let (_, rest) = input.split_at(e);
            Ok((rest, v))
        },
        Err(x) => Err(x),
    }
}

/// Reads one or more entries separated by newlines from the start of
/// `input`. Reading stops before the first newline that no well-formed entry
/// follows; the text from there on is returned with the entries.
pub fn parse_many_date_pairs(input: &str) -> (r: Result<(&str, Vec<DatePair>), ParseError>)
    ensures
        match pairs_at(input.spec_bytes(), 0) {
            Ok((e, vs)) => r matches Ok((rest, v2)) && v2@ == vs && rest.spec_bytes()
                =~= input.spec_bytes().subrange(e, input.spec_bytes().len() as int),
            Err(x) => r == Err::<(&str, Vec<DatePair>), ParseError>(x),
        },
{
    let b = input.as_bytes();
    match pairs_in(b) {
        Ok((e, v)) => {
            proof {
                encode_utf8_valid_utf8(input@);
                lemma_boundary_after_ascii(b@, e as int);
            }
            let (_, rest) = input.split_at(e);
            Ok((rest, v))
        },
        Err(x) => Err(x),
    }
}

/// The start dates of a sequence of entries.
pub open spec fn starts_of(pairs: Seq<DatePair>) -> Seq<Date> {
    pairs.map_values(|p: DatePair| p.0)
}

/// The start dates of the entries, in order.
pub fn start_dates(pairs: &Vec<DatePair>) -> (r: Vec<Date>)
    ensures
        r@ == starts_of(pairs@),
{
    let mut out: Vec<Date> = Vec::new();
    let mut i: usize = 0;
    while i < pairs.len()
        invariant
            i <= pairs@.len(),
            out@ == starts_of(pairs@.subrange(0, i as int)),
        decreases pairs@.len() - i,
    {
        proof {
            assert(starts_of(pairs@.subrange(0, i + 1)) =~= starts_of(pairs@.subrange(0, i as int)).push(pairs@[i as int].0));
        }
        out.push(pairs[i].0);
        i = i + 1;
    }
    assert(pairs@.subrange(0, pairs@.len() as int) =~= pairs@);
    out
}

/// The start dates of all the entries that `parse_many_date_pairs` reads
/// from `input`.
pub fn get_data(input: &str) -> (r: Result<Vec<Date>, ParseError>)
    ensures
        match pairs_at(input.spec_bytes(), 0) {
            Ok((e, vs)) => r matches Ok(v) && v@ == starts_of(vs),
            Err(x) => r == Err::<Vec<Date>, ParseError>(x),
        },
{
    match parse_many_date_pairs(input) {
        Ok((_, pairs)) => Ok(start_dates(&pairs)),
        Err(x) => Err(x),
    }
}

} // verus!
