use vstd::prelude::*;
use crate::error::ParseError;
use crate::text::{char_from_code, chars_of, is_scalar_value, string_from_chars};

verus! {

/// Where the string automaton stands after the characters read so far.
#[derive(Debug, Clone, Copy, PartialEq, Eq, Structural)]
pub enum StringPhase {
    /// Before the opening quote.
    Start,
    /// Inside the string.
    Chars,
    /// After a backslash.
    Escape,
    /// Inside a `\u` escape: how many hex digits were read, and their value.
    Hex(u8, u32),
    /// After the closing quote.
    End,
    /// The input was rejected; every later character is rejected too.
    Failed(ParseError),
}

pub open spec fn is_hex_digit(c: char) -> bool {
    ('0' <= c && c <= '9') || ('a' <= c && c <= 'f') || ('A' <= c && c <= 'F')
}

pub open spec fn hex_value(c: char) -> u32 {
    if '0' <= c && c <= '9' {
        (c as u32 - '0' as u32) as u32
    } else if 'a' <= c && c <= 'f' {
        (c as u32 - 'a' as u32 + 10) as u32
    } else {
        (c as u32 - 'A' as u32 + 10) as u32
    }
}

pub open spec fn code_of(c: char) -> int {
    c as int
}

/// The character whose code point is `code`.
pub open spec fn char_of_code(code: u32) -> char {
    choose|c: char| #[trigger] code_of(c) == code as int
}

/// What a simple escape `\c` stands for, for the escapes other than `\u`.
pub open spec fn simple_escape(c: char) -> Option<char> {
    if c == '"' || c == '\\' || c == '/' {
        Some(c)
    } else if c == 'b' {
        Some('\x08')
    } else if c == 'f' {
        Some('\x0c')
    } else if c == 'n' {
        Some('\n')
    } else if c == 'r' {
        Some('\r')
    } else if c == 't' {
        Some('\t')
    } else {
        None
    }
}

/// One step of the string automaton: the next phase and the decoded text, or
/// the error that `c` causes.
pub open spec fn string_step(p: StringPhase, text: Seq<char>, c: char) -> Result<
    (StringPhase, Seq<char>),
    ParseError,
> {
    match p {
        StringPhase::Start => if c == '"' {
            Ok((StringPhase::Chars, text))
        } else {
            Err(ParseError::UnexpectedToken(c))
        },
        StringPhase::Chars => if c == '"' {
            Ok((StringPhase::End, text))
        } else if c == '\\' {
            Ok((StringPhase::Escape, text))
        } else if (c as u32) < 0x20 {
            Err(ParseError::UnexpectedToken(c))
        } else {
            Ok((StringPhase::Chars, text.push(c)))
        },
        StringPhase::Escape => if c == 'u' {
            Ok((StringPhase::Hex(0, 0), text))
        } else {
            match simple_escape(c) {
                Some(d) => Ok((StringPhase::Chars, text.push(d))),
                None => Err(ParseError::UnexpectedToken(c)),
            }
        },
        StringPhase::Hex(n, acc) => if !is_hex_digit(c) || n > 3 || acc >= 0x1000 {
            Err(ParseError::UnexpectedToken(c))
        } else {
            let code = (acc * 16 + hex_value(c)) as u32;
            if n < 3 {
                Ok((StringPhase::Hex((n + 1) as u8, code), text))
            } else if is_scalar_value(code) {
                Ok((StringPhase::Chars, text.push(char_of_code(code))))
            } else {
                Err(ParseError::InvalidUnicodeChar(code))
            }
        },
        StringPhase::End => Err(ParseError::UnexpectedToken(c)),
        StringPhase::Failed(e) => Err(e),
    }
}

/// The state reached on `s` from the start, or the first error.
pub open spec fn string_run(s: Seq<char>) -> Result<(StringPhase, Seq<char>), ParseError>
    decreases s.len(),
{
    if s.len() == 0 {
        Ok((StringPhase::Start, Seq::empty()))
    } else {
        match string_run(s.drop_last()) {
            Ok((p, t)) => string_step(p, t, s.last()),
            Err(e) => Err(e),
        }
    }
}

/// The outcome of reading all of `s` as one JSON string literal.
pub open spec fn string_result(s: Seq<char>) -> Result<Seq<char>, ParseError> {
    match string_run(s) {
        Ok((StringPhase::End, t)) => Ok(t),
        Ok((StringPhase::Start, _)) => Err(ParseError::EmptyStringGiven),
        Ok(_) => Err(ParseError::UnterminatedToken('"')),
        Err(e) => Err(e),
    }
}

fn is_hex_digit_exec(c: char) -> (r: bool)
    ensures
        r == is_hex_digit(c),
{
    ('0' <= c && c <= '9') || ('a' <= c && c <= 'f') || ('A' <= c && c <= 'F')
}

fn hex_value_exec(c: char) -> (r: u32)
    requires
        is_hex_digit(c),
    ensures
        r == hex_value(c),
        r < 16,
{
    if '0' <= c && c <= '9' {
        c as u32 - '0' as u32
    } else if 'a' <= c && c <= 'f' {
        c as u32 - 'a' as u32 + 10
    } else {
        c as u32 - 'A' as u32 + 10
    }
}

fn simple_escape_exec(c: char) -> (r: Option<char>)
    ensures
        r == simple_escape(c),
{
    if c == '"' || c == '\\' || c == '/' {
        Some(c)
    } else if c == 'b' {
        Some('\x08')
    } else if c == 'f' {
        Some('\x0c')
    } else if c == 'n' {
        Some('\n')
    } else if c == 'r' {
        Some('\r')
    } else if c == 't' {
        Some('\t')
    } else {
        None
    }
}

/// An incremental reader of one JSON string literal, quotes included.
pub struct StringParser {
    phase: StringPhase,
    text: Vec<char>,
}

impl StringParser {
    pub closed spec fn phase(&self) -> StringPhase {
        self.phase
    }

    /// The decoded characters read so far.
    pub closed spec fn text(&self) -> Seq<char> {
        self.text@
    }

    pub fn new() -> (r: StringParser)
        ensures
            r.phase() == StringPhase::Start,
            r.text() == Seq::<char>::empty(),
    {
        StringParser { phase: StringPhase::Start, text: Vec::new() }
    }

    pub fn text_len(&self) -> (r: usize)
        ensures
            r == self.text().len(),
    {
        self.text.len()
    }

    pub fn phase_now(&self) -> (r: StringPhase)
        ensures
            r == self.phase(),
    {
        self.phase
    }

    /// Reads one more character. An error is final: the parser keeps it, and
    /// rejects every later character with it.
    pub fn push_token(&mut self, ch: char) -> (r: Result<(), ParseError>)
        ensures
            match string_step(old(self).phase(), old(self).text(), ch) {
                Ok((p, t)) => r is Ok && final(self).phase() == p && final(self).text() == t,
                Err(e) => r == Err::<(), ParseError>(e) && final(self).phase()
                    == StringPhase::Failed(e) && final(self).text() == old(self).text(),
            },
    {
        let r = self.advance(ch);
        if let Err(e) = r {
            self.phase = StringPhase::Failed(e);
        }
        r
    }

    fn advance(&mut self, ch: char) -> (r: Result<(), ParseError>)
        ensures
            match string_step(old(self).phase(), old(self).text(), ch) {
                Ok((p, t)) => r is Ok && final(self).phase() == p && final(self).text() == t,
                Err(e) => r == Err::<(), ParseError>(e) && final(self).text() == old(self).text(),
            },
    {
        match self.phase {
            StringPhase::Start => {
                if ch == '"' {
                    self.phase = StringPhase::Chars;
                    Ok(())
                } else {
                    Err(ParseError::UnexpectedToken(ch))
                }
            },
            StringPhase::Chars => {
                if ch == '"' {
                    self.phase = StringPhase::End;
                    Ok(())
                } else if ch == '\\' {
                    self.phase = StringPhase::Escape;
                    Ok(())
                } else if (ch as u32) < 0x20 {
                    Err(ParseError::UnexpectedToken(ch))
                } else {
                    self.text.push(ch);
                    Ok(())
                }
            },
            StringPhase::Escape => {
                if ch == 'u' {
                    self.phase = StringPhase::Hex(0, 0);
                    Ok(())
                } else {
                    match simple_escape_exec(ch) {
                        Some(d) => {
                            self.text.push(d);
                            self.phase = StringPhase::Chars;
                            Ok(())
                        },
                        None => Err(ParseError::UnexpectedToken(ch)),
                    }
                }
            },
            StringPhase::Hex(n, acc) => {
                if !is_hex_digit_exec(ch) || n > 3 || acc >= 0x1000 {
                    Err(ParseError::UnexpectedToken(ch))
                } else {
                    let code: u32 = acc * 16 + hex_value_exec(ch);
                    if n < 3 {
                        self.phase = StringPhase::Hex(n + 1, code);
                        Ok(())
                    } else {
                        match char_from_code(code) {
                            Some(d) => {
                                assert(code_of(d) == code as int);
                                assert(d == char_of_code(code));
                                self.text.push(d);
                                self.phase = StringPhase::Chars;
                                Ok(())
                            },
                            None => Err(ParseError::InvalidUnicodeChar(code)),
                        }
                    }
                }
            },
            StringPhase::End => Err(ParseError::UnexpectedToken(ch)),
            StringPhase::Failed(e) => Err(e),
        }
    }

    /// The decoded string, once the closing quote has been read.
    pub fn get_result(&self) -> (r: Result<String, ParseError>)
        ensures
            self.phase() == StringPhase::End ==> (r matches Ok(s) && s@ == self.text()),
            self.phase() == StringPhase::Start ==> r == Err::<String, ParseError>(
                ParseError::EmptyStringGiven,
            ),
            self.phase() matches StringPhase::Failed(e) ==> r == Err::<String, ParseError>(e),
            self.phase() != StringPhase::End && self.phase() != StringPhase::Start
                && !(self.phase() is Failed) ==> r == Err::<String, ParseError>(
                ParseError::UnterminatedToken('"'),
            ),
    {
        match self.phase {
            StringPhase::End => Ok(string_from_chars(&self.text)),
            StringPhase::Start => Err(ParseError::EmptyStringGiven),
            StringPhase::Failed(e) => Err(e),
            _ => Err(ParseError::UnterminatedToken('"')),
        }
    }

    /// Hands out the decoded characters and starts over.
    pub(crate) fn take_text(&mut self) -> (r: Vec<char>)
        ensures
            r@ == old(self).text(),
            final(self).phase() == StringPhase::Start,
            final(self).text() == Seq::<char>::empty(),
    {
        let mut fresh = StringParser::new();
        core::mem::swap(self, &mut fresh);
        fresh.text
    }
}

/// A rejected string stays rejected, with the same error, whatever follows.
pub proof fn string_errors_are_final(e: ParseError, text: Seq<char>, c: char)
    ensures
        string_step(StringPhase::Failed(e), text, c) == Err::<(StringPhase, Seq<char>), ParseError>(e),
{
}

/// Reads `s` as one JSON string literal and returns what it denotes.
pub fn parse_string(s: &str) -> (r: Result<String, ParseError>)
    ensures
        match string_result(s@) {
            Ok(t) => r matches Ok(v) && v@ == t,
            Err(e) => r matches Err(e2) && e2 == e,
        },
{
    let chars = chars_of(s);
    let mut parser = StringParser::new();
    let mut i: usize = 0;
    while i < chars.len()
        invariant
            i <= chars.len(),
            chars@ == s@,
            string_run(chars@.take(i as int)) == Ok::<(StringPhase, Seq<char>), ParseError>(
                (parser.phase(), parser.text()),
            ),
        decreases chars.len() - i,
    {
        assert(chars@.take(i + 1).drop_last() == chars@.take(i as int));
        match parser.push_token(chars[i]) {
            Ok(()) => {},
            Err(e) => {
                proof {
                    lemma_string_error_sticks(chars@, i as int + 1, e, chars@.len() as int);
                    assert(chars@.take(chars@.len() as int) == chars@);
                }
                return Err(e);
            },
        }
        i = i + 1;
    }
    assert(chars@.take(i as int) == s@);
    parser.get_result()
}

/// Once a prefix is rejected, every longer prefix is rejected with the same
/// error.
proof fn lemma_string_error_sticks(s: Seq<char>, n: int, e: ParseError, m: int)
    requires
        0 < n <= m <= s.len(),
        string_run(s.take(n)) == Err::<(StringPhase, Seq<char>), ParseError>(e),
    ensures
        string_run(s.take(m)) == Err::<(StringPhase, Seq<char>), ParseError>(e),
    decreases m,
{
    if m > n {
        lemma_string_error_sticks(s, n, e, m - 1);
        assert(s.take(m).drop_last() == s.take(m - 1));
    }
}

} // verus!
