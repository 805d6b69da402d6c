use vstd::prelude::*;
use crate::error::ParseError;
use crate::text::chars_of;
use crate::value::Value;

verus! {

/// A parser that accepts nothing: every character is rejected, and no input
/// yields a value.
pub struct NilParser;

impl NilParser {
    pub fn new() -> (r: NilParser) {
        NilParser
    }

    pub fn push_token(&mut self, ch: char) -> (r: Result<(), ParseError>)
        ensures
            r == Err::<(), ParseError>(ParseError::UnexpectedToken(ch)),
    {
        Err(ParseError::UnexpectedToken(ch))
    }

    pub fn get_result(&self) -> (r: Result<Value, ParseError>)
        ensures
            r matches Err(e) && e == ParseError::EmptyStringGiven,
    {
        Err(ParseError::EmptyStringGiven)
    }

    /// Feeds all of `s`: the first character is rejected, and an empty input
    /// gives no value.
    pub fn parse(s: &str) -> (r: Result<(), ParseError>)
        ensures
            s@.len() == 0 ==> r == Err::<(), ParseError>(ParseError::EmptyStringGiven),
            s@.len() > 0 ==> r == Err::<(), ParseError>(ParseError::UnexpectedToken(s@[0])),
    {
        let chars = chars_of(s);
        let mut parser = NilParser::new();
        if chars.len() > 0 {
            parser.push_token(chars[0])
        } else {
            Err(ParseError::EmptyStringGiven)
        }
    }
}

} // verus!
