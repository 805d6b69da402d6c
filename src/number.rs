use vstd::prelude::*;
use crate::error::ParseError;
use crate::text::{chars_of, string_from_chars};
use crate::value::Number;

verus! {

/// Where the number automaton stands after the characters read so far.
#[derive(Debug, Clone, Copy, PartialEq, Eq, Structural)]
pub enum NumberPhase {
    Start,
    /// After a leading `-`.
    Negative,
    /// After an integer part that is a single `0`.
    Zero,
    /// Inside an integer part that starts with a nonzero digit.
    IntDigits,
    /// After the decimal point.
    Point,
    /// Inside the fraction.
    FracDigits,
    /// After `e` or `E`.
    Exponent,
    /// After the exponent's sign.
    ExponentSign,
    /// Inside the exponent's digits.
    ExponentDigits,
    /// The input was rejected; every later character is rejected too.
    Failed(ParseError),
}

pub open spec fn is_digit(c: char) -> bool {
    '0' <= c && c <= '9'
}

/// One step of the JSON number grammar; `None` where `c` cannot follow.
pub open spec fn number_step(p: NumberPhase, c: char) -> Option<NumberPhase> {
    match p {
        NumberPhase::Start => if c == '-' {
            Some(NumberPhase::Negative)
        } else if c == '0' {
            Some(NumberPhase::Zero)
        } else if is_digit(c) {
            Some(NumberPhase::IntDigits)
        } else {
            None
        },
        NumberPhase::Negative => if c == '0' {
            Some(NumberPhase::Zero)
        } else if is_digit(c) {
            Some(NumberPhase::IntDigits)
        } else {
            None
        },
        NumberPhase::Zero => if c == '.' {
            Some(NumberPhase::Point)
        } else if c == 'e' || c == 'E' {
            Some(NumberPhase::Exponent)
        } else {
            None
        },
        NumberPhase::IntDigits => if c == '.' {
            Some(NumberPhase::Point)
        } else if c == 'e' || c == 'E' {
            Some(NumberPhase::Exponent)
        } else if is_digit(c) {
            Some(NumberPhase::IntDigits)
        } else {
            None
        },
        NumberPhase::Point => if is_digit(c) {
            Some(NumberPhase::FracDigits)
        } else {
            None
        },
        NumberPhase::FracDigits => if c == 'e' || c == 'E' {
            Some(NumberPhase::Exponent)
        } else if is_digit(c) {
            Some(NumberPhase::FracDigits)
        } else {
            None
        },
        NumberPhase::Exponent => if c == '+' || c == '-' {
            Some(NumberPhase::ExponentSign)
        } else if is_digit(c) {
            Some(NumberPhase::ExponentDigits)
        } else {
            None
        },
        NumberPhase::ExponentSign | NumberPhase::ExponentDigits => if is_digit(c) {
            Some(NumberPhase::ExponentDigits)
        } else {
            None
        },
        NumberPhase::Failed(_) => None,
    }
}

/// The error that a rejected character leaves: the first one, once there is
/// one.
pub open spec fn rejection(p: NumberPhase, c: char) -> ParseError {
    match p {
        NumberPhase::Failed(e) => e,
        _ => ParseError::UnexpectedToken(c),
    }
}

/// The phases in which the text read so far is a complete number.
pub open spec fn is_accepting(p: NumberPhase) -> bool {
    match p {
        NumberPhase::Zero | NumberPhase::IntDigits | NumberPhase::FracDigits
        | NumberPhase::ExponentDigits => true,
        _ => false,
    }
}

/// The phase reached on `s` from the start, or `None` if some character of
/// `s` breaks the grammar.
pub open spec fn number_run(s: Seq<char>) -> Option<NumberPhase>
    decreases s.len(),
{
    if s.len() == 0 {
        Some(NumberPhase::Start)
    } else {
        match number_run(s.drop_last()) {
            Some(p) => number_step(p, s.last()),
            None => None,
        }
    }
}

/// `s` is a JSON number literal: an optional `-`, an integer part without
/// leading zeros, an optional fraction and an optional exponent.
pub open spec fn is_number_literal(s: Seq<char>) -> bool {
    number_run(s) matches Some(p) && is_accepting(p)
}

/// The first character of `s` that the number grammar rejects, if any.
pub open spec fn number_error(s: Seq<char>) -> Option<char>
    decreases s.len(),
{
    if s.len() == 0 {
        None
    } else {
        match number_error(s.drop_last()) {
            Some(c) => Some(c),
            None => if number_run(s) is None { Some(s.last()) } else { None },
        }
    }
}

/// The outcome of reading all of `s` as one number.
pub open spec fn number_result(s: Seq<char>) -> Result<Seq<char>, ParseError> {
    match number_error(s) {
        Some(c) => Err(ParseError::UnexpectedToken(c)),
        None => if s.len() == 0 {
            Err(ParseError::EmptyStringGiven)
        } else if is_number_literal(s) {
            Ok(s)
        } else {
            Err(ParseError::UnexpectedToken(s.last()))
        },
    }
}

pub(crate) fn is_digit_char(c: char) -> (r: bool)
    ensures
        r == is_digit(c),
{
    '0' <= c && c <= '9'
}

pub(crate) fn number_step_exec(p: NumberPhase, c: char) -> (r: Option<NumberPhase>)
    ensures
        r == number_step(p, c),
{
    match p {
        NumberPhase::Start => if c == '-' {
            Some(NumberPhase::Negative)
        } else if c == '0' {
            Some(NumberPhase::Zero)
        } else if is_digit_char(c) {
            Some(NumberPhase::IntDigits)
        } else {
            None
        },
        NumberPhase::Negative => if c == '0' {
            Some(NumberPhase::Zero)
        } else if is_digit_char(c) {
            Some(NumberPhase::IntDigits)
        } else {
            None
        },
        NumberPhase::Zero => if c == '.' {
            Some(NumberPhase::Point)
        } else if c == 'e' || c == 'E' {
            Some(NumberPhase::Exponent)
        } else {
            None
        },
        NumberPhase::IntDigits => if c == '.' {
            Some(NumberPhase::Point)
        } else if c == 'e' || c == 'E' {
            Some(NumberPhase::Exponent)
        } else if is_digit_char(c) {
            Some(NumberPhase::IntDigits)
        } else {
            None
        },
        NumberPhase::Point => if is_digit_char(c) {
            Some(NumberPhase::FracDigits)
        } else {
            None
        },
        NumberPhase::FracDigits => if c == 'e' || c == 'E' {
            Some(NumberPhase::Exponent)
        } else if is_digit_char(c) {
            Some(NumberPhase::FracDigits)
        } else {
            None
        },
        NumberPhase::Exponent => if c == '+' || c == '-' {
            Some(NumberPhase::ExponentSign)
        } else if is_digit_char(c) {
            Some(NumberPhase::ExponentDigits)
        } else {
            None
        },
        NumberPhase::ExponentSign | NumberPhase::ExponentDigits => if is_digit_char(c) {
            Some(NumberPhase::ExponentDigits)
        } else {
            None
        },
        NumberPhase::Failed(_) => None,
    }
}

pub(crate) fn is_accepting_exec(p: NumberPhase) -> (r: bool)
    ensures
        r == is_accepting(p),
{
    match p {
        NumberPhase::Zero | NumberPhase::IntDigits | NumberPhase::FracDigits
        | NumberPhase::ExponentDigits => true,
        _ => false,
    }
}

/// An incremental reader of one JSON number.
pub struct NumberParser {
    phase: NumberPhase,
    text: Vec<char>,
}

impl NumberParser {
    /// The characters accepted so far.
    pub closed spec fn text(&self) -> Seq<char> {
        self.text@
    }

    pub closed spec fn phase(&self) -> NumberPhase {
        self.phase
    }

    /// The phase is the one the grammar reaches on the text, unless the
    /// parser has rejected a character.
    pub open spec fn wf(&self) -> bool {
        self.phase() is Failed || number_run(self.text()) == Some(self.phase())
    }

    pub fn new() -> (r: NumberParser)
        ensures
            r.wf(),
            r.text() == Seq::<char>::empty(),
            r.phase() == NumberPhase::Start,
    {
        NumberParser { phase: NumberPhase::Start, text: Vec::new() }
    }

    pub fn text_len(&self) -> (r: usize)
        ensures
            r == self.text().len(),
    {
        self.text.len()
    }

    pub fn phase_now(&self) -> (r: NumberPhase)
        ensures
            r == self.phase(),
    {
        self.phase
    }

    /// Reads one more character. A character that cannot continue the number
    /// is rejected, and the rejection is final: every later character is
    /// rejected with the same error.
    pub fn push_token(&mut self, ch: char) -> (r: Result<(), ParseError>)
        requires
            old(self).wf(),
        ensures
            final(self).wf(),
            match number_step(old(self).phase(), ch) {
                Some(p) => r is Ok && final(self).phase() == p && final(self).text()
                    == old(self).text().push(ch),
                None => r == Err::<(), ParseError>(rejection(old(self).phase(), ch))
                    && final(self).phase() == NumberPhase::Failed(rejection(old(self).phase(), ch))
                    && final(self).text() == old(self).text(),
            },
    {
        match number_step_exec(self.phase, ch) {
            Some(p) => {
                self.phase = p;
                self.text.push(ch);
                assert(self.text@.drop_last() == old(self).text@);
                Ok(())
            },
            None => {
                let e = match self.phase {
                    NumberPhase::Failed(e) => e,
                    _ => ParseError::UnexpectedToken(ch),
                };
                self.phase = NumberPhase::Failed(e);
                Err(e)
            },
        }
    }

    /// The number read, if the text so far is a complete number.
    pub fn get_result(&self) -> (r: Result<Number, ParseError>)
        requires
            self.wf(),
        ensures
            self.phase() == NumberPhase::Start ==> r == Err::<Number, ParseError>(
                ParseError::EmptyStringGiven,
            ),
            self.phase() matches NumberPhase::Failed(e) ==> r == Err::<Number, ParseError>(e),
            self.phase() != NumberPhase::Start && !is_accepting(self.phase()) && !(
            self.phase() is Failed) ==> r == Err::<Number, ParseError>(
                ParseError::UnexpectedToken(self.text().last()),
            ),
            is_accepting(self.phase()) ==> (r matches Ok(n) && n@ == self.text()
                && is_number_literal(n@)),
    {
        if let NumberPhase::Failed(e) = self.phase {
            Err(e)
        } else if is_accepting_exec(self.phase) {
            Ok(Number::from_valid_literal(string_from_chars(&self.text)))
        } else if self.text.len() == 0 {
            Err(ParseError::EmptyStringGiven)
        } else {
            Err(ParseError::UnexpectedToken(self.text[self.text.len() - 1]))
        }
    }
}

impl Number {
    /// Reads `s` as one JSON number; the error names the first character
    /// that breaks the grammar.
    pub fn from_json(s: &str) -> (r: Result<Number, ParseError>)
        ensures
            match number_result(s@) {
                Ok(t) => r matches Ok(n) && n@ == t && is_number_literal(n@),
                Err(e) => r matches Err(e2) && e2 == e,
            },
    {
        let chars = chars_of(s);
        let mut parser = NumberParser::new();
        let mut i: usize = 0;
        while i < chars.len()
            invariant
                i <= chars.len(),
                chars@ == s@,
                parser.wf(),
                number_run(parser.text()) == Some(parser.phase()),
                parser.text() == chars@.take(i as int),
                number_error(chars@.take(i as int)) is None,
            decreases chars.len() - i,
        {
            assert(chars@.take(i + 1).drop_last() == chars@.take(i as int));
            match parser.push_token(chars[i]) {
                Ok(()) => {},
                Err(e) => {
                    proof {
                        assert(chars@.take(i + 1).last() == chars@[i as int]);
                        lemma_number_error_sticks(chars@, i as int + 1);
                        assert(chars@.take(chars@.len() as int) == chars@);
                    }
                    return Err(e);
                },
            }
            i = i + 1;
        }
        assert(chars@.take(i as int) == s@);
        parser.get_result()
    }

    /// The number that `s` denotes, if `s` is a JSON number literal.
    pub fn from_literal(s: &str) -> (r: Option<Number>)
        ensures
            r is Some <==> is_number_literal(s@),
            r matches Some(n) ==> n@ == s@,
    {
        match Number::from_json(s) {
            Ok(n) => Some(n),
            Err(_) => {
                proof { lemma_number_result_ok(s@); }
                None
            },
        }
    }
}

/// Once the grammar rejects a prefix, the first rejected character stays
/// the error of every longer prefix.
proof fn lemma_number_error_sticks(s: Seq<char>, n: int)
    requires
        0 < n <= s.len(),
        number_error(s.take(n - 1)) is None,
        number_run(s.take(n)) is None,
    ensures
        forall|m: int| n <= m <= s.len() ==> #[trigger] number_error(s.take(m)) == Some(s[n - 1]),
{
    assert forall|m: int| n <= m <= s.len() implies #[trigger] number_error(s.take(m)) == Some(
        s[n - 1],
    ) by {
        lemma_number_error_prefix(s, n, m);
    }
}

proof fn lemma_number_error_prefix(s: Seq<char>, n: int, m: int)
    requires
        0 < n <= m <= s.len(),
        number_error(s.take(n - 1)) is None,
        number_run(s.take(n)) is None,
    ensures
        number_error(s.take(m)) == Some(s[n - 1]),
    decreases m,
{
    assert(s.take(m).drop_last() == s.take(m - 1));
    if m > n {
        lemma_number_error_prefix(s, n, m - 1);
    } else {
        assert(s.take(n).last() == s[n - 1]);
    }
}

/// A literal of the grammar is read whole, with no error.
proof fn lemma_number_result_ok(s: Seq<char>)
    ensures
        is_number_literal(s) ==> number_result(s) == Ok::<Seq<char>, ParseError>(s),
{
    if is_number_literal(s) {
        lemma_run_some_no_error(s);
    }
}

proof fn lemma_run_some_no_error(s: Seq<char>)
    requires
        number_run(s) is Some,
    ensures
        number_error(s) is None,
    decreases s.len(),
{
    if s.len() > 0 {
        lemma_run_some_no_error(s.drop_last());
    }
}

} // verus!
