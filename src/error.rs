use vstd::prelude::*;

verus! {

/// Every way in which decoding or typed deserialization can fail.
#[derive(Debug, Clone, PartialEq)]
pub enum Error {
    /// A byte that cannot start a value where a value is expected.
    SyntaxError,
    /// The input ended before a token was complete.
    UnexpectedEof,
    /// An integer's digits are missing or malformed (leading zero, `-0`).
    ExpectedInteger,
    /// Something other than a digit or the terminator `e` follows the digits of an integer.
    ExpectedIntegerOrEnd,
    /// A list or dictionary was left before its terminator `e`.
    ExpectedEnd,
    /// The length prefix of a byte string is malformed.
    InvalidLength,
    /// A dictionary key is not a byte string holding valid UTF-8 text.
    InvalidKey,
    /// Bytes remain after the root value.
    TrailingData,
    /// An integer does not fit the requested width.
    Overflow,
    /// Lists and dictionaries are nested deeper than the decoder allows.
    RecursionLimitExceeded,
    /// A required field of a record never appeared in the input.
    MissingField(Vec<u8>),
}

} // verus!
