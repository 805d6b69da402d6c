use vstd::prelude::*;
use crate::error::ParseError;
use crate::machine::{
    FrameModel, Mode, ParserModel, ProgressModel, Word, after_value, close, deliver, finish,
    initial, insert_member, is_first_key, is_ws, model_wf, progress, run, start_value,
    step, word_text, lemma_step_wf, parse_spec,
};
use crate::output::parse_output_is_well_formed;
use crate::roundtrip::value_wf;
use crate::number::{NumberParser, is_accepting_exec, number_step_exec};
use crate::string::{StringParser, StringPhase};
use crate::text::{chars_of, string_from_chars};
use crate::value::{
    JValue, Value, items_view, lemma_array_view, lemma_object_view, members_view,
};

verus! {

/// The nesting limit of a parser made with `JsonParser::new`.
pub const DEFAULT_MAX_DEPTH: usize = 128;

/// The longest string or number of a parser made with `JsonParser::new`.
pub const DEFAULT_MAX_TOKEN_LEN: usize = 1048576;

/// An open container while it is being read.
pub enum Frame {
    Array(Vec<Value>),
    /// The members so far, and the key whose value comes next.
    Object(Vec<(String, Value)>, Vec<char>),
}

impl Frame {
    pub open spec fn view(&self) -> FrameModel {
        match self {
            Frame::Array(items) => FrameModel::Array(items_view(items@)),
            Frame::Object(members, key) => FrameModel::Object(members_view(members@), key@),
        }
    }
}

/// What a push reports.
#[derive(Debug, PartialEq)]
pub enum Progress {
    /// The input so far is one complete value.
    Complete(Value),
    /// More input is needed.
    Incomplete,
    /// The input was rejected.
    Error(ParseError),
}

impl Progress {
    pub open spec fn view(&self) -> ProgressModel {
        match self {
            Progress::Complete(v) => ProgressModel::Complete(v@),
            Progress::Incomplete => ProgressModel::Incomplete,
            Progress::Error(e) => ProgressModel::Error(*e),
        }
    }
}

pub open spec fn result_view(r: Result<Value, ParseError>) -> Result<JValue, ParseError> {
    match r {
        Ok(v) => Ok(v@),
        Err(e) => Err(e),
    }
}

fn is_ws_exec(c: char) -> (r: bool)
    ensures
        r == is_ws(c),
{
    c == ' ' || c == '\t' || c == '\n' || c == '\r'
}

/// The `k`-th character of a keyword, if it has one.
fn word_char(w: Word, k: u8) -> (r: Option<char>)
    ensures
        k < word_text(w).len() ==> r == Some(word_text(w)[k as int]),
        k >= word_text(w).len() ==> r is None,
{
    proof {
        assert(word_text(Word::Null).len() == 4);
        assert(word_text(Word::True).len() == 4);
        assert(word_text(Word::False).len() == 5);
    }
    match w {
        Word::Null => match k {
            0 => Some('n'),
            1 => Some('u'),
            2 => Some('l'),
            3 => Some('l'),
            _ => None,
        },
        Word::True => match k {
            0 => Some('t'),
            1 => Some('r'),
            2 => Some('u'),
            3 => Some('e'),
            _ => None,
        },
        Word::False => match k {
            0 => Some('f'),
            1 => Some('a'),
            2 => Some('l'),
            3 => Some('s'),
            4 => Some('e'),
            _ => None,
        },
    }
}

fn word_len(w: Word) -> (r: u8)
    ensures
        r == word_text(w).len(),
{
    match w {
        Word::Null => 4,
        Word::True => 4,
        Word::False => 5,
    }
}

fn word_value_exec(w: Word) -> (r: Value)
    ensures
        r@ == crate::machine::word_value(w),
{
    match w {
        Word::Null => Value::Null,
        Word::True => Value::Boolean(true),
        Word::False => Value::Boolean(false),
    }
}

/// Adds a member to an object; a key already present keeps its place and
/// takes the new value.
fn insert_member_exec(members: &mut Vec<(String, Value)>, key: String, v: Value)
    ensures
        members_view(final(members)@) == insert_member(members_view(old(members)@), key@, v@),
{
    let ghost mv = members_view(members@);
    let mut i: usize = 0;
    while i < members.len()
        invariant
            i <= members.len(),
            members@ == old(members)@,
            mv == members_view(members@),
            forall|j: int| 0 <= j < i ==> mv[j].0 != key@,
        decreases members.len() - i,
    {
        if members[i].0 == key {
            proof {
                assert(is_first_key(mv, key@, i as int));
                let k = choose|k: int| is_first_key(mv, key@, k);
                assert(k == i);
            }
            members[i] = (key, v);
            proof {
                assert(members_view(members@) =~= mv.update(i as int, (key@, v@)));
            }
            return;
        }
        i = i + 1;
    }
    proof {
        assert(!exists|k: int| is_first_key(mv, key@, k));
    }
    members.push((key, v));
    proof {
        assert(members_view(members@) =~= mv.push((key@, v@)));
    }
}

/// An incremental JSON parser: it takes one character at a time and reports
/// after each whether the input so far is invalid, incomplete, or one
/// complete value. Whitespace may stand between tokens.
pub struct JsonParser {
    mode: Mode,
    stack: Vec<Frame>,
    number: NumberParser,
    string: StringParser,
    result: Option<Value>,
    max_depth: usize,
    max_token_len: usize,
}

impl JsonParser {
    pub closed spec fn view(&self) -> ParserModel {
        ParserModel {
            mode: self.mode,
            stack: Seq::new(self.stack.len() as nat, |i: int| self.stack@[i]@),
            num_phase: self.number.phase(),
            num_text: self.number.text(),
            str_phase: self.string.phase(),
            str_text: self.string.text(),
            result: match self.result {
                Some(v) => Some(v@),
                None => None,
            },
            max_depth: self.max_depth as nat,
            max_token_len: self.max_token_len as nat,
        }
    }

    pub open spec fn wf(&self) -> bool {
        model_wf(self@)
    }

    /// A parser that allows containers nested `max_depth` deep, and strings
    /// and numbers of at most `max_token_len` characters.
    pub fn with_limits(max_depth: usize, max_token_len: usize) -> (r: JsonParser)
        ensures
            r.wf(),
            r@ == initial(max_depth as nat, max_token_len as nat),
    {
        let r = JsonParser {
            mode: Mode::Start,
            stack: Vec::new(),
            number: NumberParser::new(),
            string: StringParser::new(),
            result: None,
            max_depth,
            max_token_len,
        };
        proof {
            assert(r@.stack =~= Seq::<FrameModel>::empty());
        }
        r
    }

    /// A parser that allows containers nested `max_depth` deep, with the
    /// default token limit.
    pub fn with_max_depth(max_depth: usize) -> (r: JsonParser)
        ensures
            r.wf(),
            r@ == initial(max_depth as nat, DEFAULT_MAX_TOKEN_LEN as nat),
    {
        JsonParser::with_limits(max_depth, DEFAULT_MAX_TOKEN_LEN)
    }

    /// A parser with the default limits.
    pub fn new() -> (r: JsonParser)
        ensures
            r.wf(),
            r@ == initial(DEFAULT_MAX_DEPTH as nat, DEFAULT_MAX_TOKEN_LEN as nat),
    {
        JsonParser::with_limits(DEFAULT_MAX_DEPTH, DEFAULT_MAX_TOKEN_LEN)
    }

    fn fail(&mut self, e: ParseError)
        ensures
            final(self)@ == crate::machine::fail(old(self)@, e),
    {
        self.mode = Mode::Failed(e);
    }

    fn deliver(&mut self, v: Value)
        ensures
            final(self)@ == deliver(old(self)@, v@),
    {
        let ghost m = self@;
        if self.stack.len() == 0 {
            self.mode = Mode::Done;
            self.result = Some(v);
        } else {
            let top = self.stack.pop().unwrap();
            let new_top = match top {
                Frame::Array(mut items) => {
                    let ghost before = items@;
                    items.push(v);
                    proof {
                        assert(items_view(items@) =~= items_view(before).push(v@));
                    }
                    Frame::Array(items)
                },
                Frame::Object(mut members, key) => {
                    let k = string_from_chars(&key);
                    insert_member_exec(&mut members, k, v);
                    Frame::Object(members, Vec::new())
                },
            };
            self.stack.push(new_top);
            self.mode = Mode::Separator;
            proof {
                let top_model = match m.stack.last() {
                    FrameModel::Array(items) => FrameModel::Array(items.push(v@)),
                    FrameModel::Object(members, key) => FrameModel::Object(
                        insert_member(members, key, v@),
                        Seq::empty(),
                    ),
                };
                assert(new_top@ == top_model);
                assert(self@.stack =~= m.stack.drop_last().push(top_model));
            }
        }
    }

    fn close(&mut self)
        requires
            old(self).stack.len() > 0,
        ensures
            final(self)@ == close(old(self)@),
    {
        let ghost m = self@;
        let top = self.stack.pop().unwrap();
        let v = match top {
            Frame::Array(items) => {
                proof {
                    lemma_array_view(items);
                }
                Value::Array(items)
            },
            Frame::Object(members, _) => {
                proof {
                    lemma_object_view(members);
                }
                Value::Object(members)
            },
        };
        proof {
            assert(self@.stack =~= m.stack.drop_last());
        }
        self.deliver(v);
    }

    fn open_frame(&mut self, f: Frame, mode: Mode)
        ensures
            final(self)@ == crate::machine::open_frame(old(self)@, f@, mode),
    {
        if self.stack.len() >= self.max_depth {
            self.fail(ParseError::DepthLimitExceeded);
        } else {
            let ghost m = self@;
            self.stack.push(f);
            self.mode = mode;
            proof {
                assert(self@.stack =~= m.stack.push(f@));
            }
        }
    }

    fn start_value(&mut self, c: char)
        ensures
            final(self)@ == start_value(old(self)@, c),
    {
        if c == '"' {
            let mut s = StringParser::new();
            let _ = s.push_token(c);
            self.string = s;
            self.mode = Mode::Str;
        } else if c == '[' {
            self.open_frame(Frame::Array(Vec::new()), Mode::FirstElement);
            proof {
                assert(items_view(Seq::<Value>::empty()) =~= Seq::<JValue>::empty());
            }
        } else if c == '{' {
            self.open_frame(Frame::Object(Vec::new(), Vec::new()), Mode::FirstKey);
            proof {
                assert(members_view(Seq::<(String, Value)>::empty()) =~= Seq::<
                    (Seq<char>, JValue),
                >::empty());
            }
        } else if c == 'n' {
            self.mode = Mode::Literal(Word::Null, 1);
        } else if c == 't' {
            self.mode = Mode::Literal(Word::True, 1);
        } else if c == 'f' {
            self.mode = Mode::Literal(Word::False, 1);
        } else {
            let mut n = NumberParser::new();
            match n.push_token(c) {
                Ok(()) if self.max_token_len < 1 => {
                    self.fail(ParseError::TokenTooLong);
                },
                Ok(()) => {
                    proof {
                        assert(Seq::<char>::empty().push(c) =~= seq![c]);
                    }
                    self.number = n;
                    self.mode = Mode::Number;
                },
                Err(_) => {
                    self.fail(ParseError::UnexpectedToken(c));
                },
            }
        }
    }

    fn start_key(&mut self)
        ensures
            final(self)@ == crate::machine::start_key(old(self)@),
    {
        let mut s = StringParser::new();
        let _ = s.push_token('"');
        self.string = s;
        self.mode = Mode::KeyStr;
    }

    fn after_value(&mut self, c: char)
        ensures
            final(self)@ == after_value(old(self)@, c),
    {
        if is_ws_exec(c) {
        } else if self.mode == Mode::Done || self.stack.len() == 0 {
            self.fail(ParseError::UnexpectedToken(c));
        } else {
            let is_array = match &self.stack[self.stack.len() - 1] {
                Frame::Array(_) => true,
                Frame::Object(_, _) => false,
            };
            if is_array {
                if c == ',' {
                    self.mode = Mode::Value;
                } else if c == ']' {
                    self.close();
                } else {
                    self.fail(ParseError::UnexpectedToken(c));
                }
            } else {
                if c == ',' {
                    self.mode = Mode::Key;
                } else if c == '}' {
                    self.close();
                } else {
                    self.fail(ParseError::UnexpectedToken(c));
                }
            }
        }
    }

    fn set_key(&mut self, key: Vec<char>)
        requires
            old(self).stack.len() > 0,
            old(self)@.stack.last() is Object,
        ensures
            final(self)@ == crate::machine::set_key(old(self)@, key@),
    {
        let ghost m = self@;
        let top = self.stack.pop().unwrap();
        match top {
            Frame::Object(members, _) => {
                self.stack.push(Frame::Object(members, key));
                self.string = StringParser::new();
                self.mode = Mode::Colon;
                proof {
                    assert(self@.stack =~= m.stack.drop_last().push(
                        FrameModel::Object(members_view(members@), key@),
                    ));
                }
            },
            Frame::Array(items) => {
                proof {
                    assert(m.stack.last() == top@);
                }
                self.stack.push(Frame::Array(items));
            },
        }
    }

    fn step_string(&mut self, c: char)
        requires
            old(self).mode == Mode::Str || old(self).mode == Mode::KeyStr,
            old(self).mode == Mode::KeyStr ==> old(self).stack.len() > 0 && old(
                self,
            )@.stack.last() is Object,
        ensures
            final(self)@ == step(old(self)@, c),
    {
        match self.string.push_token(c) {
            Ok(()) => {
                if self.string.phase_now() != StringPhase::End && self.string.text_len()
                    > self.max_token_len {
                    self.fail(ParseError::TokenTooLong);
                } else if self.string.phase_now() == StringPhase::End {
                    let t = self.string.take_text();
                    if self.mode == Mode::Str {
                        let s = string_from_chars(&t);
                        self.deliver(Value::String(s));
                    } else {
                        self.set_key(t);
                    }
                }
            },
            Err(e) => {
                self.fail(e);
            },
        }
    }

    fn step_number(&mut self, c: char)
        requires
            old(self).mode == Mode::Number,
            old(self).number.wf(),
        ensures
            final(self)@ == step(old(self)@, c),
    {
        match number_step_exec(self.number.phase_now(), c) {
            Some(_) => {
                if self.number.text_len() >= self.max_token_len {
                    self.fail(ParseError::TokenTooLong);
                } else {
                    let _ = self.number.push_token(c);
                }
            },
            None => {
                if is_accepting_exec(self.number.phase_now()) {
                    match self.number.get_result() {
                        Ok(n) => {
                            self.number = NumberParser::new();
                            self.deliver(Value::Number(n));
                            self.after_value(c);
                        },
                        Err(e) => {
                            self.fail(e);
                        },
                    }
                } else {
                    self.fail(ParseError::UnexpectedToken(c));
                }
            },
        }
    }

    /// Reads one more character. Once a value is complete, whitespace keeps
    /// reporting it and any other character is an error; a number is only
    /// complete once the character after it, or `finish`, shows its end.
    pub fn push(&mut self, c: char) -> (r: Progress)
        requires
            old(self).wf(),
        ensures
            final(self).wf(),
            final(self)@ == step(old(self)@, c),
            r@ == progress(final(self)@),
    {
        proof {
            lemma_step_wf(self@, c);
        }
        match self.mode {
            Mode::Failed(_) => {},
            Mode::Start | Mode::Value => {
                if is_ws_exec(c) {
                    self.mode = Mode::Value;
                } else {
                    self.start_value(c);
                }
            },
            Mode::FirstElement => {
                if is_ws_exec(c) {
                } else if c == ']' {
                    self.close();
                } else {
                    self.start_value(c);
                }
            },
            Mode::FirstKey => {
                if is_ws_exec(c) {
                } else if c == '}' {
                    self.close();
                } else if c == '"' {
                    self.start_key();
                } else {
                    self.fail(ParseError::UnexpectedToken(c));
                }
            },
            Mode::Key => {
                if is_ws_exec(c) {
                } else if c == '"' {
                    self.start_key();
                } else {
                    self.fail(ParseError::UnexpectedToken(c));
                }
            },
            Mode::Colon => {
                if is_ws_exec(c) {
                } else if c == ':' {
                    self.mode = Mode::Value;
                } else {
                    self.fail(ParseError::UnexpectedToken(c));
                }
            },
            Mode::Separator | Mode::Done => {
                self.after_value(c);
            },
            Mode::Literal(w, k) => {
                match word_char(w, k) {
                    Some(expected) => {
                        if c == expected {
                            if k + 1 == word_len(w) {
                                let v = word_value_exec(w);
                                self.deliver(v);
                            } else {
                                self.mode = Mode::Literal(w, k + 1);
                            }
                        } else {
                            self.fail(ParseError::UnexpectedToken(c));
                        }
                    },
                    None => {
                        self.fail(ParseError::UnexpectedToken(c));
                    },
                }
            },
            Mode::Number => {
                self.step_number(c);
            },
            Mode::Str | Mode::KeyStr => {
                self.step_string(c);
            },
        }
        self.progress_now()
    }

    fn progress_now(&self) -> (r: Progress)
        ensures
            r@ == progress(self@),
    {
        match self.mode {
            Mode::Done => match &self.result {
                Some(v) => Progress::Complete(v.duplicate()),
                None => Progress::Incomplete,
            },
            Mode::Failed(e) => Progress::Error(e),
            _ => Progress::Incomplete,
        }
    }

    /// Ends the input: the value read, or why there is none.
    pub fn finish(self) -> (r: Result<Value, ParseError>)
        requires
            self.wf(),
        ensures
            result_view(r) == finish(self@),
    {
        match self.mode {
            Mode::Done => match self.result {
                Some(v) => Ok(v),
                None => Err(ParseError::UnexpectedEndOfInput),
            },
            Mode::Failed(e) => Err(e),
            Mode::Start => Err(ParseError::EmptyStringGiven),
            Mode::Str | Mode::KeyStr => Err(ParseError::UnterminatedToken('"')),
            _ => {
                if self.stack.len() > 0 {
                    match &self.stack[self.stack.len() - 1] {
                        Frame::Array(_) => Err(ParseError::UnterminatedToken(']')),
                        Frame::Object(_, _) => Err(ParseError::UnterminatedToken('}')),
                    }
                } else if self.mode == Mode::Number && is_accepting_exec(self.number.phase_now()) {
                    match self.number.get_result() {
                        Ok(n) => Ok(Value::Number(n)),
                        Err(e) => Err(e),
                    }
                } else {
                    Err(ParseError::UnexpectedEndOfInput)
                }
            },
        }
    }
}

/// Once the input is rejected, reading more leaves the state as it is.
proof fn lemma_failed_sticks(m: ParserModel, s: Seq<char>, n: int)
    requires
        0 <= n <= s.len(),
        run(m, s.take(n)).mode is Failed,
    ensures
        run(m, s) == run(m, s.take(n)),
    decreases s.len() - n,
{
    if n < s.len() {
        assert(s.take(n + 1).drop_last() == s.take(n));
        lemma_failed_sticks(m, s, n + 1);
    } else {
        assert(s.take(n) == s);
    }
}

/// Parses the whole of `s` as one JSON value, with containers nested at most
/// `max_depth` deep and strings and numbers of at most `max_token_len`
/// characters; whitespace may surround it.
pub fn parse_with_limits(s: &str, max_depth: usize, max_token_len: usize) -> (r: Result<
    Value,
    ParseError,
>)
    ensures
        result_view(r) == parse_spec(s@, max_depth as nat, max_token_len as nat),
        r matches Ok(v) ==> value_wf(v@),
{
    proof {
        parse_output_is_well_formed(s@, max_depth as nat, max_token_len as nat);
    }
    let chars = chars_of(s);
    let mut parser = JsonParser::with_limits(max_depth, max_token_len);
    let ghost m0 = parser@;
    let mut i: usize = 0;
    while i < chars.len()
        invariant
            i <= chars.len(),
            chars@ == s@,
            m0 == initial(max_depth as nat, max_token_len as nat),
            parser.wf(),
            parser@ == run(m0, chars@.take(i as int)),
        decreases chars.len() - i,
    {
        assert(chars@.take(i + 1).drop_last() == chars@.take(i as int));
        let progress = parser.push(chars[i]);
        i = i + 1;
        if let Progress::Error(e) = progress {
            proof {
                lemma_failed_sticks(m0, chars@, i as int);
            }
            return Err(e);
        }
    }
    assert(chars@.take(i as int) == s@);
    parser.finish()
}

/// Parses the whole of `s` as one JSON value, with containers nested at most
/// `max_depth` deep and the default token limit.
pub fn parse_with_max_depth(s: &str, max_depth: usize) -> (r: Result<Value, ParseError>)
    ensures
        result_view(r) == parse_spec(s@, max_depth as nat, DEFAULT_MAX_TOKEN_LEN as nat),
        r matches Ok(v) ==> value_wf(v@),
{
    parse_with_limits(s, max_depth, DEFAULT_MAX_TOKEN_LEN)
}

/// Parses the whole of `s` as one JSON value, with the default limits.
pub fn parse(s: &str) -> (r: Result<Value, ParseError>)
    ensures
        result_view(r) == parse_spec(s@, DEFAULT_MAX_DEPTH as nat, DEFAULT_MAX_TOKEN_LEN as nat),
        r matches Ok(v) ==> value_wf(v@),
{
    parse_with_limits(s, DEFAULT_MAX_DEPTH, DEFAULT_MAX_TOKEN_LEN)
}

} // verus!
