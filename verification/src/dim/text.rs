//! Dimensions as they are written: a number, `S`, or a number followed by
//! `S`.

use vstd::prelude::*;
use vstd::string::StrSliceExecFns;
use crate::dim::tree::{TDim, Expr};

verus! {

/// Why a text is no dimension.
#[derive(Debug, Clone, Copy, PartialEq, Eq, Structural)]
pub enum DimParseError {
    /// There is no digit where a number has to be.
    NoDigits,
    /// This character is none of a number.
    BadCharacter(usize),
    /// The number leaves the `i32` range.
    TooLarge,
}

/// Whether `c` is a decimal digit.
pub open spec fn is_digit(c: char) -> bool {
    '0' <= c <= '9'
}

/// The first place of `s`, from `i` on, that holds no digit, or its length.
pub open spec fn digits_end(s: Seq<char>, i: int) -> int
    decreases s.len() - i,
{
    if i < 0 || i >= s.len() {
        s.len() as int
    } else if !is_digit(s[i]) {
        i
    } else {
        digits_end(s, i + 1)
    }
}

/// The number that the digits of `s` from `from` to before `to` write.
pub open spec fn digits_value(s: Seq<char>, from: int, to: int) -> int
    decreases to - from,
{
    if to <= from {
        0
    } else {
        digits_value(s, from, to - 1) * 10 + (s[to - 1] as int - '0' as int)
    }
}

/// The number that `s` writes: digits, behind `+` or `-` if any, that make
/// an `i32`.
pub open spec fn number_spec(s: Seq<char>) -> Result<int, DimParseError> {
    let signed = s.len() > 0 && (s[0] == '-' || s[0] == '+');
    let start: int = if signed {
        1
    } else {
        0
    };
    let end = digits_end(s, start);
    let value = if s.len() > 0 && s[0] == '-' {
        -digits_value(s, start, end)
    } else {
        digits_value(s, start, end)
    };
    if end == start {
        if end < s.len() {
            Err(DimParseError::BadCharacter(end as usize))
        } else {
            Err(DimParseError::NoDigits)
        }
    } else if !(i32::MIN <= value <= i32::MAX) {
        Err(DimParseError::TooLarge)
    } else if end < s.len() {
        Err(DimParseError::BadCharacter(end as usize))
    } else {
        Ok(value)
    }
}

/// The dimension that `s` writes. `S` is the length of the stream. A text
/// that ends in `S` is as many times `S` as the digits it begins with
/// say. Any other text is the number it writes.
pub open spec fn parse_spec(s: Seq<char>) -> Result<Expr, DimParseError> {
    if s == seq!['S'] {
        Ok(Expr::Sym('S'))
    } else if s.len() > 0 && s.last() == 'S' {
        let end = digits_end(s, 0);
        if end == 0 {
            Err(DimParseError::NoDigits)
        } else if digits_value(s, 0, end) > i32::MAX {
            Err(DimParseError::TooLarge)
        } else {
            Ok(Expr::Sym('S').times(digits_value(s, 0, end)).reduced())
        }
    } else {
        match number_spec(s) {
            Ok(v) => Ok(Expr::Val(v)),
            Err(e) => Err(e),
        }
    }
}

/// Whether `s` holds a digit at the place `i`.
fn digit_at(s: &str, i: usize) -> (r: bool)
    requires
        i < s@.len(),
    ensures
        r == is_digit(s@[i as int]),
{
    let c = s.get_char(i);
    '0' <= c && c <= '9'
}

/// The digits of `s` from `start` on: where they end, and the number they
/// write, or `limit + 1` where that number is larger than `limit`.
fn read_digits(s: &str, start: usize, limit: u64) -> (r: (usize, u64))
    requires
        start <= s@.len(),
        limit <= 0x8000_0000,
    ensures
        r.0 == digits_end(s@, start as int),
        start <= r.0 <= s@.len(),
        r.1 == (if digits_value(s@, start as int, r.0 as int) > limit {
            limit + 1
        } else {
            digits_value(s@, start as int, r.0 as int)
        }),
        digits_value(s@, start as int, r.0 as int) >= 0,
{
    let len = s.unicode_len();
    let mut i: usize = start;
    let mut value: u64 = 0;
    while i < len && digit_at(s, i)
        invariant
            start <= i <= len,
            len == s@.len(),
            limit <= 0x8000_0000,
            digits_end(s@, start as int) == digits_end(s@, i as int),
            digits_value(s@, start as int, i as int) >= 0,
            value == (if digits_value(s@, start as int, i as int) > limit {
                limit + 1
            } else {
                digits_value(s@, start as int, i as int)
            }),
        decreases len - i,
    {
        let c = s.get_char(i);
        let d: u64 = (c as u32 - '0' as u32) as u64;
        if value <= limit {
            value = value * 10 + d;
            if value > limit {
                value = limit + 1;
            }
        }
        i += 1;
    }
    (i, value)
}

/// The number that `s` writes.
pub fn parse_number(s: &str) -> (r: Result<i32, DimParseError>)
    ensures
        match r {
            Ok(v) => number_spec(s@) == Ok::<int, DimParseError>(v as int),
            Err(e) => number_spec(s@) == Err::<int, DimParseError>(e),
        },
{
    let len = s.unicode_len();
    let negative = len > 0 && s.get_char(0) == '-';
    let signed = len > 0 && (s.get_char(0) == '-' || s.get_char(0) == '+');
    let start: usize = if signed {
        1
    } else {
        0
    };
    let limit: u64 = if negative {
        0x8000_0000
    } else {
        0x7fff_ffff
    };
    let (end, value) = read_digits(s, start, limit);
    if end == start {
        if end < len {
            return Err(DimParseError::BadCharacter(end));
        }
        return Err(DimParseError::NoDigits);
    }
    if value > limit {
        return Err(DimParseError::TooLarge);
    }
    if end < len {
        return Err(DimParseError::BadCharacter(end));
    }
    if negative {
        Ok((-(value as i64)) as i32)
    } else {
        Ok(value as i32)
    }
}

impl TDim {
    /// The dimension that `s` writes.
    pub fn parse(s: &str) -> (r: Result<TDim, DimParseError>)
        ensures
            match r {
                Ok(d) => parse_spec(s@) == Ok::<Expr, DimParseError>(d@),
                Err(e) => parse_spec(s@) == Err::<Expr, DimParseError>(e),
            },
    {
        let len = s.unicode_len();
        if len == 1 && s.get_char(0) == 'S' {
            assert(s@ =~= seq!['S']);
            return Ok(TDim::s());
        }
        if len > 0 && s.get_char(len - 1) == 'S' {
            let (end, value) = read_digits(s, 0, 0x7fff_ffff);
            if end == 0 {
                return Err(DimParseError::NoDigits);
            }
            if value > 0x7fff_ffff {
                return Err(DimParseError::TooLarge);
            }
            return Ok(TDim::s().times(value as i32));
        }
        match parse_number(s) {
            Ok(v) => Ok(TDim::Val(v)),
            Err(e) => Err(e),
        }
    }
}

impl core::str::FromStr for TDim {
    type Err = DimParseError;

    /// The dimension that the text `s` writes, as `parse` reads it.
    fn from_str(s: &str) -> (r: Result<TDim, DimParseError>)
        ensures
            match r {
                Ok(d) => parse_spec(s@) == Ok::<Expr, DimParseError>(d@),
                Err(e) => parse_spec(s@) == Err::<Expr, DimParseError>(e),
            },
    {
        TDim::parse(s)
    }
}

} // verus!
