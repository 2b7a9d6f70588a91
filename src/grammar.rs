//! The bencode grammar as spec functions over the unread input: each parser
//! returns what it read and the input that remains, or the error it meets.
use vstd::prelude::*;
use crate::error::Error;
use crate::model::{Term, MAX_DEPTH, dict_insert, utf8_valid};

verus! {

/// `i`, which opens an integer.
pub const INT_START: u8 = 0x69;
/// `l`, which opens a list.
pub const LIST_START: u8 = 0x6C;
/// `d`, which opens a dictionary.
pub const DICT_START: u8 = 0x64;
/// `e`, which closes an integer, a list or a dictionary.
pub const END: u8 = 0x65;
/// `:`, between a byte string's length and its bytes.
pub const COLON: u8 = 0x3A;
/// `-`, the sign of a negative integer.
pub const MINUS: u8 = 0x2D;
/// The digit `0`.
pub const ZERO: u8 = 0x30;
/// The digit `9`.
pub const NINE: u8 = 0x39;

/// An ASCII decimal digit.
pub open spec fn is_digit(c: u8) -> bool {
    ZERO <= c <= NINE
}

/// The number of decimal digits at the front of `s`.
pub open spec fn digit_run(s: Seq<u8>) -> nat
    decreases s.len(),
{
    if s.len() > 0 && is_digit(s[0]) {
        1 + digit_run(s.drop_first())
    } else {
        0
    }
}

/// The number that the decimal digits `ds` spell.
pub open spec fn digits_value(ds: Seq<u8>) -> nat
    decreases ds.len(),
{
    if ds.len() == 0 {
        0
    } else {
        digits_value(ds.drop_last()) * 10 + (ds.last() - ZERO) as nat
    }
}

/// More than one digit, the first of them `0`.
pub open spec fn leading_zero(ds: Seq<u8>) -> bool {
    ds.len() > 1 && ds[0] == ZERO
}

/// An integer body: `s` is the input after the `i`.
pub open spec fn parse_int(s: Seq<u8>) -> Result<(int, Seq<u8>), Error> {
    let neg = s.len() > 0 && s[0] == MINUS;
    let t = if neg { s.drop_first() } else { s };
    let n = digit_run(t) as int;
    if n == 0 {
        if t.len() == 0 { Err(Error::UnexpectedEof) } else { Err(Error::ExpectedInteger) }
    } else if n == t.len() {
        Err(Error::UnexpectedEof)
    } else if t[n] != END {
        Err(Error::ExpectedIntegerOrEnd)
    } else if leading_zero(t.take(n)) || (neg && t[0] == ZERO) {
        Err(Error::ExpectedInteger)
    } else {
        let m = digits_value(t.take(n)) as int;
        let v = if neg { -m } else { m };
        if i64::MIN <= v <= i64::MAX {
            Ok((v, t.skip(n + 1int)))
        } else {
            Err(Error::Overflow)
        }
    }
}

/// A byte string `<len>:<bytes>`, from the first digit of its length.
pub open spec fn parse_string(s: Seq<u8>) -> Result<(Seq<u8>, Seq<u8>), Error> {
    let n = digit_run(s) as int;
    if n == 0 {
        if s.len() == 0 { Err(Error::UnexpectedEof) } else { Err(Error::ExpectedInteger) }
    } else if n == s.len() {
        Err(Error::UnexpectedEof)
    } else if s[n] != COLON || leading_zero(s.take(n)) {
        Err(Error::InvalidLength)
    } else {
        let len = digits_value(s.take(n));
        let rest = s.skip(n + 1int);
        if len > rest.len() {
            Err(Error::UnexpectedEof)
        } else {
            Ok((rest.take(len as int), rest.skip(len as int)))
        }
    }
}

/// One value at nesting `depth` (the number of lists and dictionaries open around it).
pub open spec fn parse_value(s: Seq<u8>, depth: nat) -> Result<(Term, Seq<u8>), Error>
    decreases s.len(), 0nat,
{
    if s.len() == 0 {
        Err(Error::UnexpectedEof)
    } else if s[0] == INT_START {
        match parse_int(s.drop_first()) {
            Ok((n, rest)) => Ok((Term::Int(n), rest)),
            Err(e) => Err(e),
        }
    } else if is_digit(s[0]) {
        match parse_string(s) {
            Ok((b, rest)) => Ok((Term::Bytes(b), rest)),
            Err(e) => Err(e),
        }
    } else if s[0] == LIST_START || s[0] == DICT_START {
        if depth >= MAX_DEPTH {
            Err(Error::RecursionLimitExceeded)
        } else if s[0] == LIST_START {
            match parse_items(s.drop_first(), depth + 1, seq![]) {
                Ok((l, rest)) => Ok((Term::List(l), rest)),
                Err(e) => Err(e),
            }
        } else {
            match parse_entries(s.drop_first(), depth + 1, seq![]) {
                Ok((d, rest)) => Ok((Term::Dict(d), rest)),
                Err(e) => Err(e),
            }
        }
    } else {
        Err(Error::SyntaxError)
    }
}

/// The elements of a list after its `l`, appended to `acc`, up to and with its `e`.
pub open spec fn parse_items(s: Seq<u8>, depth: nat, acc: Seq<Term>) -> Result<(Seq<Term>, Seq<u8>), Error>
    decreases s.len(), 1nat,
{
    if s.len() == 0 {
        Err(Error::UnexpectedEof)
    } else if s[0] == END {
        Ok((acc, s.drop_first()))
    } else {
        match parse_value(s, depth) {
            Ok((v, rest)) => if rest.len() < s.len() {
                parse_items(rest, depth, acc.push(v))
            } else {
                Err(Error::SyntaxError)
            },
            Err(e) => Err(e),
        }
    }
}

/// The entries of a dictionary after its `d`, inserted into `acc`, up to and with its `e`.
pub open spec fn parse_entries(s: Seq<u8>, depth: nat, acc: Seq<(Seq<u8>, Term)>) -> Result<(Seq<(Seq<u8>, Term)>, Seq<u8>), Error>
    decreases s.len(), 1nat,
{
    if s.len() == 0 {
        Err(Error::UnexpectedEof)
    } else if s[0] == END {
        Ok((acc, s.drop_first()))
    } else if !is_digit(s[0]) {
        Err(Error::InvalidKey)
    } else {
        match parse_string(s) {
            Ok((k, r1)) => if !utf8_valid(k) {
                Err(Error::InvalidKey)
            } else if r1.len() < s.len() {
                match parse_value(r1, depth) {
                    Ok((v, r2)) => if r2.len() < s.len() {
                        parse_entries(r2, depth, dict_insert(acc, k, v))
                    } else {
                        Err(Error::SyntaxError)
                    },
                    Err(e) => Err(e),
                }
            } else {
                Err(Error::SyntaxError)
            },
            Err(e) => Err(e),
        }
    }
}

/// A whole document: one value and nothing after it.
pub open spec fn decode_spec(s: Seq<u8>) -> Result<Term, Error> {
    match parse_value(s, 0) {
        Ok((t, rest)) => if rest.len() == 0 { Ok(t) } else { Err(Error::TrailingData) },
        Err(e) => Err(e),
    }
}

} // verus!
