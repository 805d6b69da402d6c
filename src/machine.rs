use vstd::prelude::*;
use crate::error::ParseError;
use crate::number::{NumberPhase, number_step, is_accepting};
use crate::string::{StringPhase, string_step};
use crate::value::JValue;

verus! {

/// The keywords `null`, `true` and `false`.
#[derive(Debug, Clone, Copy, PartialEq, Eq, Structural)]
pub enum Word {
    Null,
    True,
    False,
}

pub open spec fn word_text(w: Word) -> Seq<char> {
    match w {
        Word::Null => seq!['n', 'u', 'l', 'l'],
        Word::True => seq!['t', 'r', 'u', 'e'],
        Word::False => seq!['f', 'a', 'l', 's', 'e'],
    }
}

pub open spec fn word_value(w: Word) -> JValue {
    match w {
        Word::Null => JValue::Null,
        Word::True => JValue::Boolean(true),
        Word::False => JValue::Boolean(false),
    }
}

/// What the parser expects next.
#[derive(Debug, Clone, Copy, PartialEq, Eq, Structural)]
pub enum Mode {
    /// Nothing has been read.
    Start,
    /// A value must begin (after leading whitespace, a `:`, or a `,` in an array).
    Value,
    /// After `[`: the first element or `]`.
    FirstElement,
    /// After `{`: the first key or `}`.
    FirstKey,
    /// After a `,` in an object: a key.
    Key,
    /// After a key: `:`.
    Colon,
    /// After a value inside a container: `,` or the closing delimiter.
    Separator,
    /// Inside a keyword, with the number of its characters matched.
    Literal(Word, u8),
    /// Inside a number.
    Number,
    /// Inside a string value.
    Str,
    /// Inside an object key.
    KeyStr,
    /// The top-level value is complete; only whitespace may follow.
    Done,
    /// The input was rejected.
    Failed(ParseError),
}

/// An open container: the elements read so far, or the members read so far
/// with the key whose value comes next.
pub enum FrameModel {
    Array(Seq<JValue>),
    Object(Seq<(Seq<char>, JValue)>, Seq<char>),
}

/// The whole state of the value parser.
pub struct ParserModel {
    pub mode: Mode,
    pub stack: Seq<FrameModel>,
    pub num_phase: NumberPhase,
    pub num_text: Seq<char>,
    pub str_phase: StringPhase,
    pub str_text: Seq<char>,
    pub result: Option<JValue>,
    pub max_depth: nat,
    /// The longest string (decoded) or number literal accepted.
    pub max_token_len: nat,
}

pub open spec fn is_ws(c: char) -> bool {
    c == ' ' || c == '\t' || c == '\n' || c == '\r'
}

pub open spec fn initial(max_depth: nat, max_token_len: nat) -> ParserModel {
    ParserModel {
        mode: Mode::Start,
        stack: Seq::empty(),
        num_phase: NumberPhase::Start,
        num_text: Seq::empty(),
        str_phase: StringPhase::Start,
        str_text: Seq::empty(),
        result: None,
        max_depth,
        max_token_len,
    }
}

/// The first member whose key is `key`, if any.
pub open spec fn key_index(members: Seq<(Seq<char>, JValue)>, key: Seq<char>) -> Option<int> {
    if exists|i: int| is_first_key(members, key, i) {
        Some(choose|i: int| is_first_key(members, key, i))
    } else {
        None
    }
}

pub open spec fn is_first_key(members: Seq<(Seq<char>, JValue)>, key: Seq<char>, i: int) -> bool {
    &&& 0 <= i < members.len()
    &&& members[i].0 == key
    &&& forall|j: int| 0 <= j < i ==> members[j].0 != key
}

/// Adds a member; a key already present keeps its place and takes the new
/// value (the last value written wins).
pub open spec fn insert_member(members: Seq<(Seq<char>, JValue)>, key: Seq<char>, v: JValue) -> Seq<
    (Seq<char>, JValue),
> {
    match key_index(members, key) {
        Some(i) => members.update(i, (key, v)),
        None => members.push((key, v)),
    }
}

/// Hands a finished value to the innermost open container, or finishes the
/// parse when there is none.
pub open spec fn deliver(m: ParserModel, v: JValue) -> ParserModel {
    if m.stack.len() == 0 {
        ParserModel { mode: Mode::Done, result: Some(v), ..m }
    } else {
        let top = match m.stack.last() {
            FrameModel::Array(items) => FrameModel::Array(items.push(v)),
            FrameModel::Object(members, key) => FrameModel::Object(
                insert_member(members, key, v),
                Seq::empty(),
            ),
        };
        ParserModel { mode: Mode::Separator, stack: m.stack.drop_last().push(top), ..m }
    }
}

/// The value of a finished container.
pub open spec fn frame_value(f: FrameModel) -> JValue {
    match f {
        FrameModel::Array(items) => JValue::Array(items),
        FrameModel::Object(members, _) => JValue::Object(members),
    }
}

/// Closes the innermost container.
pub open spec fn close(m: ParserModel) -> ParserModel {
    deliver(ParserModel { stack: m.stack.drop_last(), ..m }, frame_value(m.stack.last()))
}

pub open spec fn fail(m: ParserModel, e: ParseError) -> ParserModel {
    ParserModel { mode: Mode::Failed(e), ..m }
}

pub open spec fn open_frame(m: ParserModel, f: FrameModel, mode: Mode) -> ParserModel {
    if m.stack.len() >= m.max_depth {
        fail(m, ParseError::DepthLimitExceeded)
    } else {
        ParserModel { mode, stack: m.stack.push(f), ..m }
    }
}

/// The first character of a value chooses what is read.
pub open spec fn start_value(m: ParserModel, c: char) -> ParserModel {
    if c == '"' {
        ParserModel {
            mode: Mode::Str,
            str_phase: StringPhase::Chars,
            str_text: Seq::empty(),
            ..m
        }
    } else if c == '[' {
        open_frame(m, FrameModel::Array(Seq::empty()), Mode::FirstElement)
    } else if c == '{' {
        open_frame(m, FrameModel::Object(Seq::empty(), Seq::empty()), Mode::FirstKey)
    } else if c == 'n' {
        ParserModel { mode: Mode::Literal(Word::Null, 1), ..m }
    } else if c == 't' {
        ParserModel { mode: Mode::Literal(Word::True, 1), ..m }
    } else if c == 'f' {
        ParserModel { mode: Mode::Literal(Word::False, 1), ..m }
    } else {
        match number_step(NumberPhase::Start, c) {
            Some(p) => if m.max_token_len < 1 {
                fail(m, ParseError::TokenTooLong)
            } else {
                ParserModel { mode: Mode::Number, num_phase: p, num_text: seq![c], ..m }
            },
            None => fail(m, ParseError::UnexpectedToken(c)),
        }
    }
}

pub open spec fn start_key(m: ParserModel) -> ParserModel {
    ParserModel {
        mode: Mode::KeyStr,
        str_phase: StringPhase::Chars,
        str_text: Seq::empty(),
        ..m
    }
}

/// After a value: whitespace, a separator or a closing delimiter.
pub open spec fn after_value(m: ParserModel, c: char) -> ParserModel {
    if is_ws(c) {
        m
    } else if m.mode == Mode::Done || m.stack.len() == 0 {
        fail(m, ParseError::UnexpectedToken(c))
    } else {
        match m.stack.last() {
            FrameModel::Array(_) => if c == ',' {
                ParserModel { mode: Mode::Value, ..m }
            } else if c == ']' {
                close(m)
            } else {
                fail(m, ParseError::UnexpectedToken(c))
            },
            FrameModel::Object(_, _) => if c == ',' {
                ParserModel { mode: Mode::Key, ..m }
            } else if c == '}' {
                close(m)
            } else {
                fail(m, ParseError::UnexpectedToken(c))
            },
        }
    }
}

/// Sets the key of the innermost object.
pub open spec fn set_key(m: ParserModel, key: Seq<char>) -> ParserModel {
    match m.stack.last() {
        FrameModel::Object(members, _) => ParserModel {
            mode: Mode::Colon,
            stack: m.stack.drop_last().push(FrameModel::Object(members, key)),
            str_phase: StringPhase::Start,
            str_text: Seq::empty(),
            ..m
        },
        FrameModel::Array(_) => fail(m, ParseError::UnexpectedToken('"')),
    }
}

/// One character of input.
pub open spec fn step(m: ParserModel, c: char) -> ParserModel {
    match m.mode {
        Mode::Failed(_) => m,
        Mode::Start | Mode::Value => if is_ws(c) {
            ParserModel { mode: Mode::Value, ..m }
        } else {
            start_value(m, c)
        },
        Mode::FirstElement => if is_ws(c) {
            m
        } else if c == ']' {
            close(m)
        } else {
            start_value(m, c)
        },
        Mode::FirstKey => if is_ws(c) {
            m
        } else if c == '}' {
            close(m)
        } else if c == '"' {
            start_key(m)
        } else {
            fail(m, ParseError::UnexpectedToken(c))
        },
        Mode::Key => if is_ws(c) {
            m
        } else if c == '"' {
            start_key(m)
        } else {
            fail(m, ParseError::UnexpectedToken(c))
        },
        Mode::Colon => if is_ws(c) {
            m
        } else if c == ':' {
            ParserModel { mode: Mode::Value, ..m }
        } else {
            fail(m, ParseError::UnexpectedToken(c))
        },
        Mode::Separator | Mode::Done => after_value(m, c),
        Mode::Literal(w, k) => if k < word_text(w).len() && c == word_text(w)[k as int] {
            if k + 1 == word_text(w).len() {
                deliver(m, word_value(w))
            } else {
                ParserModel { mode: Mode::Literal(w, (k + 1) as u8), ..m }
            }
        } else {
            fail(m, ParseError::UnexpectedToken(c))
        },
        Mode::Number => match number_step(m.num_phase, c) {
            Some(p) => if m.num_text.len() + 1 > m.max_token_len {
                fail(m, ParseError::TokenTooLong)
            } else {
                ParserModel { num_phase: p, num_text: m.num_text.push(c), ..m }
            },
            None => if is_accepting(m.num_phase) {
                after_value(
                    deliver(
                        ParserModel { num_phase: NumberPhase::Start, num_text: Seq::empty(), ..m },
                        JValue::Number(m.num_text),
                    ),
                    c,
                )
            } else {
                fail(m, ParseError::UnexpectedToken(c))
            },
        },
        Mode::Str => match string_step(m.str_phase, m.str_text, c) {
            Ok((StringPhase::End, t)) => deliver(
                ParserModel { str_phase: StringPhase::Start, str_text: Seq::empty(), ..m },
                JValue::String(t),
            ),
            Ok((p, t)) => if t.len() > m.max_token_len {
                fail(ParserModel { str_phase: p, str_text: t, ..m }, ParseError::TokenTooLong)
            } else {
                ParserModel { str_phase: p, str_text: t, ..m }
            },
            Err(e) => fail(ParserModel { str_phase: StringPhase::Failed(e), ..m }, e),
        },
        Mode::KeyStr => match string_step(m.str_phase, m.str_text, c) {
            Ok((StringPhase::End, t)) => set_key(m, t),
            Ok((p, t)) => if t.len() > m.max_token_len {
                fail(ParserModel { str_phase: p, str_text: t, ..m }, ParseError::TokenTooLong)
            } else {
                ParserModel { str_phase: p, str_text: t, ..m }
            },
            Err(e) => fail(ParserModel { str_phase: StringPhase::Failed(e), ..m }, e),
        },
    }
}

/// The state after reading all of `s`.
pub open spec fn run(m: ParserModel, s: Seq<char>) -> ParserModel
    decreases s.len(),
{
    if s.len() == 0 {
        m
    } else {
        step(run(m, s.drop_last()), s.last())
    }
}

/// The delimiter that closes a container.
pub open spec fn closer(f: FrameModel) -> char {
    match f {
        FrameModel::Array(_) => ']',
        FrameModel::Object(_, _) => '}',
    }
}

/// The outcome once the input has ended.
pub open spec fn finish(m: ParserModel) -> Result<JValue, ParseError> {
    match m.mode {
        Mode::Done => match m.result {
            Some(v) => Ok(v),
            None => Err(ParseError::UnexpectedEndOfInput),
        },
        Mode::Failed(e) => Err(e),
        Mode::Start => Err(ParseError::EmptyStringGiven),
        Mode::Str | Mode::KeyStr => Err(ParseError::UnterminatedToken('"')),
        _ => if m.stack.len() > 0 {
            Err(ParseError::UnterminatedToken(closer(m.stack.last())))
        } else if m.mode == Mode::Number && is_accepting(m.num_phase) {
            Ok(JValue::Number(m.num_text))
        } else {
            Err(ParseError::UnexpectedEndOfInput)
        },
    }
}

/// What a push reports: the finished value, a need for more input, or the
/// error.
pub enum ProgressModel {
    Complete(JValue),
    Incomplete,
    Error(ParseError),
}

pub open spec fn progress(m: ParserModel) -> ProgressModel {
    match m.mode {
        Mode::Done => match m.result {
            Some(v) => ProgressModel::Complete(v),
            None => ProgressModel::Incomplete,
        },
        Mode::Failed(e) => ProgressModel::Error(e),
        _ => ProgressModel::Incomplete,
    }
}

/// The invariant of the parser's state.
pub open spec fn model_wf(m: ParserModel) -> bool {
    &&& crate::number::number_run(m.num_text) == Some(m.num_phase)
    &&& (m.mode == Mode::Done ==> m.result is Some)
    &&& (m.mode == Mode::FirstElement ==> m.stack.len() > 0 && m.stack.last() is Array)
    &&& (m.mode == Mode::FirstKey || m.mode == Mode::Key || m.mode == Mode::Colon || m.mode
        == Mode::KeyStr ==> m.stack.len() > 0 && m.stack.last() is Object)
    &&& (m.mode == Mode::Separator ==> m.stack.len() > 0)
    &&& m.stack.len() <= m.max_depth
}

proof fn lemma_deliver_wf(m: ParserModel, v: JValue)
    requires
        crate::number::number_run(m.num_text) == Some(m.num_phase),
        m.stack.len() <= m.max_depth,
    ensures
        model_wf(deliver(m, v)),
{
}

proof fn lemma_close_wf(m: ParserModel)
    requires
        model_wf(m),
        m.stack.len() > 0,
    ensures
        model_wf(close(m)),
{
    lemma_deliver_wf(ParserModel { stack: m.stack.drop_last(), ..m }, frame_value(m.stack.last()));
}

proof fn lemma_after_value_wf(m: ParserModel, c: char)
    requires
        model_wf(m),
    ensures
        model_wf(after_value(m, c)),
{
    if !is_ws(c) && m.mode != Mode::Done && m.stack.len() > 0 {
        lemma_close_wf(m);
    }
}

proof fn lemma_start_value_wf(m: ParserModel, c: char)
    requires
        model_wf(m),
    ensures
        model_wf(start_value(m, c)),
{
    assert(seq![c].drop_last() =~= Seq::<char>::empty());
    assert(seq![c].last() == c);
    assert(crate::number::number_run(Seq::<char>::empty()) == Some(NumberPhase::Start));
    assert(crate::number::number_run(seq![c]) == number_step(NumberPhase::Start, c));
}

pub proof fn lemma_step_wf(m: ParserModel, c: char)
    requires
        model_wf(m),
    ensures
        model_wf(step(m, c)),
{
    assert(m.num_text.push(c).drop_last() == m.num_text);
    lemma_start_value_wf(m, c);
    lemma_after_value_wf(m, c);
    if m.stack.len() > 0 {
        lemma_close_wf(m);
    }
    if m.mode == Mode::Number && is_accepting(m.num_phase) {
        let m1 = ParserModel { num_phase: NumberPhase::Start, num_text: Seq::empty(), ..m };
        assert(crate::number::number_run(Seq::<char>::empty()) == Some(NumberPhase::Start));
        lemma_deliver_wf(m1, JValue::Number(m.num_text));
        lemma_after_value_wf(deliver(m1, JValue::Number(m.num_text)), c);
    }
}

/// The outcome of parsing the whole of `s` with the given limits.
pub open spec fn parse_spec(s: Seq<char>, max_depth: nat, max_token_len: nat) -> Result<
    JValue,
    ParseError,
> {
    finish(run(initial(max_depth, max_token_len), s))
}

} // verus!
