use vstd::prelude::*;

verus! {

/// Why a parse was rejected. Every error ends the parse it occurs in.
#[derive(Debug, Clone, Copy, PartialEq, Eq, Structural)]
pub enum ParseError {
    /// The character is not valid in the current state.
    UnexpectedToken(char),
    /// The input ended while a string or a container was still open; the
    /// character is the delimiter that would have closed it.
    UnterminatedToken(char),
    /// The input ended before any value was complete.
    UnexpectedEndOfInput,
    /// No characters were supplied at all.
    EmptyStringGiven,
    /// A `\u` escape named a code point that is not a Unicode scalar value.
    InvalidUnicodeChar(u32),
    /// Containers were nested deeper than the parser's configured limit.
    DepthLimitExceeded,
    /// A string or a number was longer than the parser's configured limit.
    TokenTooLong,
}

} // verus!
