use vstd::prelude::*;
use crate::encode::{escape_char, escape_chars, hex_digit, items_text, json_text, members_text, string_text};
use crate::error::ParseError;
use crate::laws::lemma_run_append;
use crate::machine::{
    FrameModel, Mode, ParserModel, Word, after_value, deliver, initial, insert_member, key_index,
    is_first_key, parse_spec, run, step, word_text, word_value,
};
use crate::number::{NumberPhase, is_accepting, is_number_literal, number_run, number_step};
use crate::string::{
    StringPhase, char_of_code, code_of, hex_value, is_hex_digit, string_result, string_run,
    string_step,
};
use crate::text::is_scalar_value;
use crate::value::JValue;

verus! {

broadcast use {vstd::seq::axiom_seq_index_decreases, vstd::seq::axiom_seq_subrange_decreases};

/// Values that JSON text can express: numbers are number literals and no
/// object repeats a key.
pub open spec fn value_wf(v: JValue) -> bool
    decreases v,
{
    match v {
        JValue::Number(t) => is_number_literal(t),
        JValue::Array(items) => items_wf(items),
        JValue::Object(members) => members_wf(members) && keys_unique(members),
        _ => true,
    }
}

pub open spec fn items_wf(items: Seq<JValue>) -> bool
    decreases items,
{
    if items.len() == 0 {
        true
    } else {
        items_wf(items.drop_last()) && value_wf(items.last())
    }
}

pub open spec fn members_wf(members: Seq<(Seq<char>, JValue)>) -> bool
    decreases members,
{
    if members.len() == 0 {
        true
    } else {
        members_wf(members.drop_last()) && value_wf(members.last().1)
    }
}

pub open spec fn keys_unique(members: Seq<(Seq<char>, JValue)>) -> bool {
    forall|i: int, j: int| 0 <= i < j < members.len() ==> members[i].0 != members[j].0
}

/// Every string, key and number literal in `v` has at most `n` characters.
pub open spec fn value_fits(v: JValue, n: nat) -> bool
    decreases v,
{
    match v {
        JValue::Number(t) => t.len() <= n,
        JValue::String(t) => t.len() <= n,
        JValue::Array(items) => items_fit(items, n),
        JValue::Object(members) => members_fit(members, n),
        _ => true,
    }
}

pub open spec fn items_fit(items: Seq<JValue>, n: nat) -> bool
    decreases items,
{
    if items.len() == 0 {
        true
    } else {
        items_fit(items.drop_last(), n) && value_fits(items.last(), n)
    }
}

pub open spec fn members_fit(members: Seq<(Seq<char>, JValue)>, n: nat) -> bool
    decreases members,
{
    if members.len() == 0 {
        true
    } else {
        members_fit(members.drop_last(), n) && members.last().0.len() <= n && value_fits(
            members.last().1,
            n,
        )
    }
}

/// How deeply containers nest in a value.
pub open spec fn depth(v: JValue) -> nat
    decreases v,
{
    match v {
        JValue::Array(items) => 1 + items_depth(items),
        JValue::Object(members) => 1 + members_depth(members),
        _ => 0,
    }
}

pub open spec fn items_depth(items: Seq<JValue>) -> nat
    decreases items,
{
    if items.len() == 0 {
        0
    } else {
        let a = items_depth(items.drop_last());
        let b = depth(items.last());
        if a >= b { a } else { b }
    }
}

pub open spec fn members_depth(members: Seq<(Seq<char>, JValue)>) -> nat
    decreases members,
{
    if members.len() == 0 {
        0
    } else {
        let a = members_depth(members.drop_last());
        let b = depth(members.last().1);
        if a >= b { a } else { b }
    }
}

/// No token is half read.
pub open spec fn idle(m: ParserModel) -> bool {
    &&& m.num_phase == NumberPhase::Start
    &&& m.num_text == Seq::<char>::empty()
    &&& m.str_phase == StringPhase::Start
    &&& m.str_text == Seq::<char>::empty()
}

pub open spec fn expecting(m: ParserModel) -> bool {
    m.mode == Mode::Start || m.mode == Mode::Value || m.mode == Mode::FirstElement
}

pub open spec fn phase_of(t: Seq<char>) -> NumberPhase {
    match number_run(t) {
        Some(p) => p,
        None => NumberPhase::Start,
    }
}

/// The state once the text of `v` has been read: `v` handed over, except
/// that a number is only handed over when the next character shows its end.
pub open spec fn pending(m: ParserModel, v: JValue) -> ParserModel {
    match v {
        JValue::Number(t) => ParserModel {
            mode: Mode::Number,
            num_phase: phase_of(t),
            num_text: t,
            ..m
        },
        _ => deliver(m, v),
    }
}

proof fn lemma_run_one(m: ParserModel, c: char)
    ensures
        run(m, seq![c]) == step(m, c),
{
    assert(seq![c].drop_last() =~= Seq::<char>::empty());
    assert(seq![c].last() == c);
    assert(run(m, Seq::<char>::empty()) == m);
}

/// Inside a string, a character that does not close it only moves the string
/// automaton.
proof fn lemma_str_step(m: ParserModel, c: char, p: StringPhase, t: Seq<char>)
    requires
        m.mode == Mode::Str || m.mode == Mode::KeyStr,
        string_step(m.str_phase, m.str_text, c) == Ok::<(StringPhase, Seq<char>), ParseError>((p, t)),
        p != StringPhase::End,
        t.len() <= m.max_token_len,
    ensures
        step(m, c) == (ParserModel { str_phase: p, str_text: t, ..m }),
{
}

/// Reading a sequence is reading its first character, then the rest.
proof fn lemma_run_first(m: ParserModel, s: Seq<char>)
    requires
        s.len() > 0,
    ensures
        run(m, s) == run(step(m, s[0]), s.drop_first()),
{
    assert(s =~= seq![s[0]] + s.drop_first());
    lemma_run_append(m, seq![s[0]], s.drop_first());
    lemma_run_one(m, s[0]);
}

proof fn lemma_deliver_ignores_mode(m: ParserModel, mode: Mode, v: JValue)
    ensures
        deliver((ParserModel { mode, ..m }), v) == deliver(m, v),
{
}

proof fn lemma_hex_digit(n: int)
    requires
        0 <= n < 16,
    ensures
        is_hex_digit(hex_digit(n)),
        hex_value(hex_digit(n)) == n,
{
}

proof fn lemma_short_escape_run(m: ParserModel, c: char)
    requires
        m.mode == Mode::Str || m.mode == Mode::KeyStr,
        m.str_phase == StringPhase::Chars,
        m.str_text.len() + 1 <= m.max_token_len,
        c == '"' || c == '\\' || c == '\x08' || c == '\x0c' || c == '\n' || c == '\r' || c == '\t',
    ensures
        run(m, escape_char(c)) == (ParserModel { str_text: m.str_text.push(c), ..m }),
{
    let e = escape_char(c);
    assert(e.len() == 2 && e[0] == '\\');
    assert(string_step(StringPhase::Escape, m.str_text, e[1]) == Ok::<
        (StringPhase, Seq<char>),
        ParseError,
    >((StringPhase::Chars, m.str_text.push(c))));
    lemma_str_step(m, '\\', StringPhase::Escape, m.str_text);
    let m1 = step(m, '\\');
    lemma_str_step(m1, e[1], StringPhase::Chars, m.str_text.push(c));
    lemma_run_first(m, e);
    assert(e.drop_first() =~= seq![e[1]]);
    lemma_run_one(m1, e[1]);
}

proof fn lemma_unicode_escape_run(m: ParserModel, c: char)
    requires
        m.mode == Mode::Str || m.mode == Mode::KeyStr,
        m.str_phase == StringPhase::Chars,
        m.str_text.len() + 1 <= m.max_token_len,
        !(c == '"' || c == '\\' || c == '\x08' || c == '\x0c' || c == '\n' || c == '\r' || c
            == '\t'),
        (c as int) < 0x20,
    ensures
        run(m, escape_char(c)) == (ParserModel { str_text: m.str_text.push(c), ..m }),
{
    let e = escape_char(c);
    let hi = (c as int) / 16;
    let lo = (c as int) % 16;
    lemma_hex_digit(hi);
    lemma_hex_digit(lo);
    lemma_hex_digit(0);
    assert(e =~= seq!['\\', 'u', '0', '0', hex_digit(hi), hex_digit(lo)]);
    let t = m.str_text;
    lemma_str_step(m, '\\', StringPhase::Escape, t);
    let m1 = step(m, '\\');
    lemma_str_step(m1, 'u', StringPhase::Hex(0, 0), t);
    let m2 = step(m1, 'u');
    lemma_str_step(m2, '0', StringPhase::Hex(1, 0), t);
    let m3 = step(m2, '0');
    lemma_str_step(m3, '0', StringPhase::Hex(2, 0), t);
    let m4 = step(m3, '0');
    lemma_str_step(m4, hex_digit(hi), StringPhase::Hex(3, hi as u32), t);
    let m5 = step(m4, hex_digit(hi));
    let code = (hi * 16 + lo) as u32;
    assert(code as int == c as int);
    assert(code_of(c) == code as int);
    assert(char_of_code(code) == c);
    assert(is_scalar_value(code));
    lemma_str_step(m5, hex_digit(lo), StringPhase::Chars, t.push(c));
    lemma_run_first(m, e);
    lemma_run_first(m1, e.drop_first());
    lemma_run_first(m2, e.drop_first().drop_first());
    lemma_run_first(m3, e.drop_first().drop_first().drop_first());
    lemma_run_first(m4, e.drop_first().drop_first().drop_first().drop_first());
    assert(e.drop_first().drop_first().drop_first().drop_first().drop_first() =~= seq![
        hex_digit(lo),
    ]);
    lemma_run_one(m5, hex_digit(lo));
}

/// Reading the text of one escaped character appends that character.
proof fn lemma_escape_char_run(m: ParserModel, c: char)
    requires
        m.mode == Mode::Str || m.mode == Mode::KeyStr,
        m.str_phase == StringPhase::Chars,
        m.str_text.len() + 1 <= m.max_token_len,
    ensures
        run(m, escape_char(c)) == (ParserModel { str_text: m.str_text.push(c), ..m }),
{
    if c == '"' || c == '\\' || c == '\x08' || c == '\x0c' || c == '\n' || c == '\r' || c == '\t' {
        lemma_short_escape_run(m, c);
    } else if (c as int) < 0x20 {
        lemma_unicode_escape_run(m, c);
    } else {
        assert(escape_char(c) == seq![c]);
        assert((c as u32) >= 0x20);
        lemma_str_step(m, c, StringPhase::Chars, m.str_text.push(c));
        lemma_run_one(m, c);
    }
}

/// Reading escaped text appends the characters it stands for.
proof fn lemma_escape_run(m: ParserModel, s: Seq<char>)
    requires
        m.mode == Mode::Str || m.mode == Mode::KeyStr,
        m.str_phase == StringPhase::Chars,
        m.str_text.len() + s.len() <= m.max_token_len,
    ensures
        run(m, escape_chars(s)) == (ParserModel { str_text: m.str_text + s, ..m }),
    decreases s.len(),
{
    if s.len() == 0 {
        assert(m.str_text + s =~= m.str_text);
    } else {
        lemma_escape_run(m, s.drop_last());
        let m1 = ParserModel { str_text: m.str_text + s.drop_last(), ..m };
        lemma_run_append(m, escape_chars(s.drop_last()), escape_char(s.last()));
        lemma_escape_char_run(m1, s.last());
        assert((m.str_text + s.drop_last()).push(s.last()) =~= m.str_text + s);
    }
}

proof fn lemma_number_prefix(t: Seq<char>, k: int)
    requires
        number_run(t) is Some,
        0 <= k <= t.len(),
    ensures
        number_run(t.take(k)) is Some,
    decreases t.len() - k,
{
    if k < t.len() {
        lemma_number_prefix(t, k + 1);
        assert(t.take(k + 1).drop_last() =~= t.take(k));
    } else {
        assert(t.take(k) =~= t);
    }
}

/// Reading a number literal leaves the parser inside that number.
proof fn lemma_number_run(m: ParserModel, t: Seq<char>, k: int)
    requires
        idle(m),
        expecting(m),
        number_run(t) is Some,
        1 <= k <= t.len(),
        t.len() <= m.max_token_len,
    ensures
        run(m, t.take(k)) == (ParserModel {
            mode: Mode::Number,
            num_phase: phase_of(t.take(k)),
            num_text: t.take(k),
            ..m
        }),
    decreases k,
{
    lemma_number_prefix(t, k);
    lemma_number_prefix(t, k - 1);
    assert(t.take(k).drop_last() =~= t.take(k - 1));
    assert(t.take(k).last() == t[k - 1]);
    if k == 1 {
        assert(t.take(0) =~= Seq::<char>::empty());
        assert(t.take(1) =~= seq![t[0]]);
        lemma_run_one(m, t[0]);
    } else {
        lemma_number_run(m, t, k - 1);
        assert(t.take(k - 1).push(t[k - 1]) =~= t.take(k));
    }
}

/// After a value, a separator or closing delimiter first hands the value
/// over and is then read as usual.
proof fn lemma_pending_then(m: ParserModel, v: JValue, c: char)
    requires
        idle(m),
        value_wf(v),
        c == ',' || c == ']' || c == '}',
    ensures
        step(pending(m, v), c) == after_value(deliver(m, v), c),
{
    match v {
        JValue::Number(t) => {
            assert(number_step(phase_of(t), c) is None);
            assert(is_accepting(phase_of(t)));
            let p = pending(m, v);
            assert((ParserModel { num_phase: NumberPhase::Start, num_text: Seq::empty(), ..p })
                == (ParserModel { mode: Mode::Number, ..m }));
            lemma_deliver_ignores_mode(m, Mode::Number, v);
        },
        _ => {},
    }
}

proof fn lemma_literal_prefix(m: ParserModel, w: Word, k: int)
    requires
        expecting(m),
        1 <= k < word_text(w).len(),
    ensures
        run(m, word_text(w).take(k)) == (ParserModel { mode: Mode::Literal(w, k as u8), ..m }),
    decreases k,
{
    let t = word_text(w);
    assert(t.take(k).drop_last() =~= t.take(k - 1));
    assert(t.take(k).last() == t[k - 1]);
    if k == 1 {
        assert(t.take(0) =~= Seq::<char>::empty());
        assert(run(m, Seq::<char>::empty()) == m);
    } else {
        lemma_literal_prefix(m, w, k - 1);
    }
}

/// Reading a keyword hands over its value.
proof fn lemma_literal_run(m: ParserModel, w: Word)
    requires
        expecting(m),
    ensures
        run(m, word_text(w)) == deliver(m, word_value(w)),
{
    let t = word_text(w);
    let n = t.len() as int;
    lemma_literal_prefix(m, w, n - 1);
    assert(t.drop_last() =~= t.take(n - 1));
    lemma_deliver_ignores_mode(m, Mode::Literal(w, (n - 1) as u8), word_value(w));
}

/// Reading a string literal hands over the string.
proof fn lemma_string_value_run(m: ParserModel, s: Seq<char>)
    requires
        idle(m),
        expecting(m),
        s.len() <= m.max_token_len,
    ensures
        run(m, string_text(s)) == deliver(m, JValue::String(s)),
{
    let q = seq!['"'];
    lemma_run_append(m, q + escape_chars(s), q);
    lemma_run_append(m, q, escape_chars(s));
    lemma_run_one(m, '"');
    let m1 = step(m, '"');
    assert(m1 == (ParserModel {
        mode: Mode::Str,
        str_phase: StringPhase::Chars,
        str_text: Seq::empty(),
        ..m
    }));
    lemma_escape_run(m1, s);
    let m2 = run(m1, escape_chars(s));
    assert(Seq::<char>::empty() + s =~= s);
    lemma_run_one(m2, '"');
    assert((ParserModel { str_phase: StringPhase::Start, str_text: Seq::empty(), ..m2 }) == (
    ParserModel { mode: Mode::Str, ..m }));
    lemma_deliver_ignores_mode(m, Mode::Str, JValue::String(s));
}

/// Inside an array: right after `[` when `prefix` is empty, else after the
/// `,` that follows the elements of `prefix`.
pub open spec fn in_array(m: ParserModel, prefix: Seq<JValue>) -> ParserModel {
    ParserModel {
        mode: if prefix.len() == 0 { Mode::FirstElement } else { Mode::Value },
        stack: m.stack.push(FrameModel::Array(prefix)),
        ..m
    }
}

/// Inside an object: right after `{` when `prefix` is empty, else after the
/// `,` that follows the members of `prefix`.
pub open spec fn in_object(m: ParserModel, prefix: Seq<(Seq<char>, JValue)>) -> ParserModel {
    ParserModel {
        mode: if prefix.len() == 0 { Mode::FirstKey } else { Mode::Key },
        stack: m.stack.push(FrameModel::Object(prefix, Seq::empty())),
        ..m
    }
}

/// Inside an object, after the `:` that follows `key`.
pub open spec fn at_member_value(
    m: ParserModel,
    prefix: Seq<(Seq<char>, JValue)>,
    key: Seq<char>,
) -> ParserModel {
    ParserModel {
        mode: Mode::Value,
        stack: m.stack.push(FrameModel::Object(prefix, key)),
        ..m
    }
}

/// Reading a key and its colon.
proof fn lemma_key_run(m: ParserModel, prefix: Seq<(Seq<char>, JValue)>, key: Seq<char>)
    requires
        idle(m),
        key.len() <= m.max_token_len,
    ensures
        run(in_object(m, prefix), string_text(key) + seq![':']) == at_member_value(m, prefix, key),
{
    let m0 = in_object(m, prefix);
    let q = seq!['"'];
    lemma_run_append(m0, string_text(key), seq![':']);
    lemma_run_append(m0, q + escape_chars(key), q);
    lemma_run_append(m0, q, escape_chars(key));
    lemma_run_one(m0, '"');
    let m1 = step(m0, '"');
    assert(m1 == (ParserModel {
        mode: Mode::KeyStr,
        str_phase: StringPhase::Chars,
        str_text: Seq::empty(),
        ..m0
    }));
    lemma_escape_run(m1, key);
    let m2 = run(m1, escape_chars(key));
    assert(Seq::<char>::empty() + key =~= key);
    lemma_run_one(m2, '"');
    let m3 = step(m2, '"');
    assert(m0.stack.drop_last() =~= m.stack);
    assert(m3 == (ParserModel {
        mode: Mode::Colon,
        stack: m.stack.push(FrameModel::Object(prefix, key)),
        ..m
    }));
    lemma_run_one(m3, ':');
}

proof fn lemma_frame_push(m: ParserModel, f: FrameModel, g: FrameModel)
    ensures
        m.stack.push(f).drop_last().push(g) == m.stack.push(g),
        m.stack.push(f).last() == f,
        m.stack.push(f).drop_last() == m.stack,
{
    assert(m.stack.push(f).drop_last() =~= m.stack);
}

/// Reading a value's text from a state that expects a value.
proof fn lemma_value_run(m: ParserModel, v: JValue)
    requires
        idle(m),
        expecting(m),
        value_wf(v),
        value_fits(v, m.max_token_len),
        m.stack.len() + depth(v) <= m.max_depth,
    ensures
        run(m, json_text(v)) == pending(m, v),
    decreases v, 2nat,
{
    match v {
        JValue::Null => {
            lemma_literal_run(m, Word::Null);
        },
        JValue::Boolean(b) => {
            if b {
                lemma_literal_run(m, Word::True);
            } else {
                lemma_literal_run(m, Word::False);
            }
        },
        JValue::Number(t) => {
            assert(t.len() > 0);
            lemma_number_run(m, t, t.len() as int);
            assert(t.take(t.len() as int) =~= t);
        },
        JValue::String(s) => {
            lemma_string_value_run(m, s);
        },
        JValue::Array(items) => {
            lemma_array_run(m, items);
        },
        JValue::Object(members) => {
            lemma_object_run(m, members);
        },
    }
}

/// Reading an array's text hands over the array.
proof fn lemma_array_run(m: ParserModel, items: Seq<JValue>)
    requires
        idle(m),
        expecting(m),
        items_wf(items),
        items_fit(items, m.max_token_len),
        m.stack.len() + 1 + items_depth(items) <= m.max_depth,
    ensures
        run(m, json_text(JValue::Array(items))) == deliver(m, JValue::Array(items)),
    decreases items, 1nat,
{
    let v = JValue::Array(items);
    let open = seq!['['];
    let shut = seq![']'];
    lemma_run_append(m, open + items_text(items), shut);
    lemma_run_append(m, open, items_text(items));
    lemma_run_one(m, '[');
    let m0 = in_array(m, Seq::empty());
    assert(step(m, '[') == m0);
    lemma_frame_push(m, FrameModel::Array(Seq::empty()), FrameModel::Array(items));
    assert(json_text(v) == open + items_text(items) + shut);
    if items.len() == 0 {
        assert(items_text(items) == Seq::<char>::empty());
        assert(run(m0, Seq::<char>::empty()) == m0);
        lemma_run_one(m0, ']');
        assert(items =~= Seq::<JValue>::empty());
        assert(run(m, json_text(v)) == step(m0, ']'));
        assert(step(m0, ']') == crate::machine::close(m0));
        lemma_deliver_ignores_mode(m, Mode::FirstElement, v);
    } else {
        lemma_items_run(m, items);
        let d = items.drop_last();
        let last = items.last();
        let p = pending(in_array(m, d), last);
        assert(run(m, json_text(v)) == run(p, shut));
        lemma_run_one(p, ']');
        lemma_pending_then(in_array(m, d), last, ']');
        assert(d.push(last) =~= items);
        lemma_frame_push(m, FrameModel::Array(d), FrameModel::Array(items));
        let x = deliver(in_array(m, d), last);
        assert(x == (ParserModel { mode: Mode::Separator, stack: m.stack.push(FrameModel::Array(items)), ..m }));
        assert(after_value(x, ']') == crate::machine::close(x));
        lemma_frame_push(m, FrameModel::Array(items), FrameModel::Array(items));
        assert((ParserModel { stack: x.stack.drop_last(), ..x }) == (ParserModel {
            mode: Mode::Separator,
            ..m
        }));
        lemma_deliver_ignores_mode(m, Mode::Separator, v);
        assert(crate::machine::close(x) == deliver(m, v));
    }
}

/// Reading an object's text hands over the object.
proof fn lemma_object_run(m: ParserModel, members: Seq<(Seq<char>, JValue)>)
    requires
        idle(m),
        expecting(m),
        members_wf(members),
        members_fit(members, m.max_token_len),
        keys_unique(members),
        m.stack.len() + 1 + members_depth(members) <= m.max_depth,
    ensures
        run(m, json_text(JValue::Object(members))) == deliver(m, JValue::Object(members)),
    decreases members, 2nat,
{
    let v = JValue::Object(members);
    let open = seq!['{'];
    let shut = seq!['}'];
    assert(json_text(v) == open + members_text(members) + shut);
    lemma_run_append(m, open + members_text(members), shut);
    lemma_run_append(m, open, members_text(members));
    lemma_run_one(m, '{');
    let m0 = in_object(m, Seq::empty());
    assert(step(m, '{') == m0);
    lemma_frame_push(
        m,
        FrameModel::Object(members, Seq::empty()),
        FrameModel::Object(members, Seq::empty()),
    );
    if members.len() == 0 {
        assert(members_text(members) == Seq::<char>::empty());
        assert(run(m0, Seq::<char>::empty()) == m0);
        lemma_run_one(m0, '}');
        assert(members =~= Seq::<(Seq<char>, JValue)>::empty());
        assert(run(m, json_text(v)) == step(m0, '}'));
        assert(step(m0, '}') == crate::machine::close(m0));
        assert((ParserModel { stack: m0.stack.drop_last(), ..m0 }) == (ParserModel {
            mode: Mode::FirstKey,
            ..m
        }));
        lemma_deliver_ignores_mode(m, Mode::FirstKey, v);
    } else {
        lemma_members_run(m, members);
        let d = members.drop_last();
        let last = members.last();
        let w = at_member_value(m, d, last.0);
        let p = pending(w, last.1);
        assert(run(m, json_text(v)) == run(p, shut));
        lemma_run_one(p, '}');
        lemma_pending_then(w, last.1, '}');
        lemma_insert_new_key(members);
        lemma_frame_push(m, FrameModel::Object(d, last.0), FrameModel::Object(members, Seq::empty()));
        let x = deliver(w, last.1);
        assert(x == (ParserModel {
            mode: Mode::Separator,
            stack: m.stack.push(FrameModel::Object(members, Seq::empty())),
            ..m
        }));
        assert(after_value(x, '}') == crate::machine::close(x));
        assert((ParserModel { stack: x.stack.drop_last(), ..x }) == (ParserModel {
            mode: Mode::Separator,
            ..m
        }));
        lemma_deliver_ignores_mode(m, Mode::Separator, v);
        assert(crate::machine::close(x) == deliver(m, v));
    }
}

/// The last member's key is new to the members before it.
proof fn lemma_insert_new_key(members: Seq<(Seq<char>, JValue)>)
    requires
        members.len() > 0,
        keys_unique(members),
    ensures
        insert_member(members.drop_last(), members.last().0, members.last().1) == members,
{
    let d = members.drop_last();
    let key = members.last().0;
    assert forall|i: int| !is_first_key(d, key, i) by {
        if 0 <= i < d.len() {
            assert(members[i].0 != members[members.len() - 1].0);
        }
    }
    assert(key_index(d, key) is None);
    assert(d.push((key, members.last().1)) =~= members);
}

/// Reading the elements of an array after its `[`.
proof fn lemma_items_run(m: ParserModel, items: Seq<JValue>)
    requires
        idle(m),
        items_wf(items),
        items_fit(items, m.max_token_len),
        items.len() > 0,
        m.stack.len() + 1 + items_depth(items) <= m.max_depth,
    ensures
        run(in_array(m, Seq::empty()), items_text(items)) == pending(
            in_array(m, items.drop_last()),
            items.last(),
        ),
    decreases items, 0nat,
{
    let last = items.last();
    let d = items.drop_last();
    if items.len() == 1 {
        assert(d =~= Seq::<JValue>::empty());
        assert(items[0] == last);
        lemma_value_run(in_array(m, Seq::empty()), last);
    } else {
        lemma_items_run(m, d);
        assert(items_wf(d));
        assert(items_wf(d.drop_last()) && value_wf(d.last()));
        let c = seq![','];
        lemma_run_append(in_array(m, Seq::empty()), items_text(d) + c, json_text(last));
        lemma_run_append(in_array(m, Seq::empty()), items_text(d), c);
        let p = pending(in_array(m, d.drop_last()), d.last());
        lemma_run_one(p, ',');
        lemma_pending_then(in_array(m, d.drop_last()), d.last(), ',');
        assert(d.drop_last().push(d.last()) =~= d);
        lemma_frame_push(m, FrameModel::Array(d.drop_last()), FrameModel::Array(d));
        assert(step(p, ',') == in_array(m, d));
        lemma_value_run(in_array(m, d), last);
    }
}

/// After the members of `d`, a `,` leads to the next key.
proof fn lemma_member_comma(m: ParserModel, d: Seq<(Seq<char>, JValue)>)
    requires
        idle(m),
        d.len() > 0,
        value_wf(d.last().1),
        keys_unique(d),
    ensures
        step(pending(at_member_value(m, d.drop_last(), d.last().0), d.last().1), ',') == in_object(
            m,
            d,
        ),
{
    let w = at_member_value(m, d.drop_last(), d.last().0);
    lemma_pending_then(w, d.last().1, ',');
    lemma_insert_new_key(d);
    lemma_frame_push(
        m,
        FrameModel::Object(d.drop_last(), d.last().0),
        FrameModel::Object(d, Seq::empty()),
    );
    let x = deliver(w, d.last().1);
    assert(x == (ParserModel {
        mode: Mode::Separator,
        stack: m.stack.push(FrameModel::Object(d, Seq::empty())),
        ..m
    }));
}

/// Reading a one-member object's member after its `{`.
proof fn lemma_first_member(m: ParserModel, members: Seq<(Seq<char>, JValue)>)
    requires
        idle(m),
        members_wf(members),
        members_fit(members, m.max_token_len),
        members.len() == 1,
        m.stack.len() + 1 + members_depth(members) <= m.max_depth,
    ensures
        run(in_object(m, Seq::empty()), members_text(members)) == pending(
            at_member_value(m, members.drop_last(), members.last().0),
            members.last().1,
        ),
    decreases members, 0nat,
{
    let last = members.last();
    let d = members.drop_last();
    let m0 = in_object(m, Seq::empty());
    assert(d =~= Seq::<(Seq<char>, JValue)>::empty());
    assert(members[0] == last);
    assert(members_text(members) == string_text(last.0) + seq![':'] + json_text(last.1));
    lemma_run_append(m0, string_text(last.0) + seq![':'], json_text(last.1));
    lemma_key_run(m, d, last.0);
    lemma_value_run(at_member_value(m, d, last.0), last.1);
}

/// Reading the members of an object after its `{`, given that the members
/// before the last are read.
proof fn lemma_next_member(m: ParserModel, members: Seq<(Seq<char>, JValue)>)
    requires
        idle(m),
        members_wf(members),
        members_fit(members, m.max_token_len),
        keys_unique(members),
        members.len() > 1,
        m.stack.len() + 1 + members_depth(members) <= m.max_depth,
    ensures
        run(in_object(m, Seq::empty()), members_text(members)) == pending(
            at_member_value(m, members.drop_last(), members.last().0),
            members.last().1,
        ),
    decreases members, 0nat,
{
    let last = members.last();
    let d = members.drop_last();
    let m0 = in_object(m, Seq::empty());
    assert(keys_unique(d));
    assert(members_wf(d));
    assert(members_wf(d.drop_last()) && value_wf(d.last().1));
    lemma_members_run(m, d);
    let c = seq![','];
    let kc = string_text(last.0) + seq![':'];
    lemma_members_text_split(members);
    lemma_run_append(m0, (members_text(d) + c) + kc, json_text(last.1));
    lemma_run_append(m0, members_text(d) + c, kc);
    lemma_run_append(m0, members_text(d), c);
    let p = pending(at_member_value(m, d.drop_last(), d.last().0), d.last().1);
    lemma_run_one(p, ',');
    lemma_member_comma(m, d);
    assert(run(m0, members_text(d) + c) == in_object(m, d));
    lemma_key_run(m, d, last.0);
    assert(run(m0, (members_text(d) + c) + kc) == at_member_value(m, d, last.0));
    lemma_value_run(at_member_value(m, d, last.0), last.1);
}

proof fn lemma_members_text_split(members: Seq<(Seq<char>, JValue)>)
    requires
        members.len() > 1,
    ensures
        members_text(members) == (members_text(members.drop_last()) + seq![',']) + (string_text(
            members.last().0,
        ) + seq![':']) + json_text(members.last().1),
{
    let d = members.drop_last();
    let last = members.last();
    assert(members_text(members) =~= (members_text(d) + seq![',']) + (string_text(last.0) + seq![
        ':',
    ]) + json_text(last.1));
}

/// Reading the members of an object after its `{`.
proof fn lemma_members_run(m: ParserModel, members: Seq<(Seq<char>, JValue)>)
    requires
        idle(m),
        members_wf(members),
        members_fit(members, m.max_token_len),
        keys_unique(members),
        members.len() > 0,
        m.stack.len() + 1 + members_depth(members) <= m.max_depth,
    ensures
        run(in_object(m, Seq::empty()), members_text(members)) == pending(
            at_member_value(m, members.drop_last(), members.last().0),
            members.last().1,
        ),
    decreases members, 1nat,
{
    if members.len() == 1 {
        lemma_first_member(m, members);
    } else {
        lemma_next_member(m, members);
    }
}

proof fn lemma_string_run_push(q: Seq<char>, x: char)
    ensures
        string_run(q.push(x)) == match string_run(q) {
            Ok((p, t)) => string_step(p, t, x),
            Err(e) => Err(e),
        },
{
    assert(q.push(x).drop_last() =~= q);
    assert(q.push(x).last() == x);
}

/// One step of the string automaton inside a string, where it succeeds.
proof fn lemma_string_run_step(q: Seq<char>, p: StringPhase, t: Seq<char>, x: char)
    requires
        string_run(q) == Ok::<(StringPhase, Seq<char>), ParseError>((p, t)),
    ensures
        string_run(q.push(x)) == string_step(p, t, x),
{
    lemma_string_run_push(q, x);
}

/// Reading the text of one escaped character appends that character.
proof fn lemma_string_run_escape_char(q: Seq<char>, t: Seq<char>, c: char)
    requires
        string_run(q) == Ok::<(StringPhase, Seq<char>), ParseError>((StringPhase::Chars, t)),
    ensures
        string_run(q + escape_char(c)) == Ok::<(StringPhase, Seq<char>), ParseError>(
            (StringPhase::Chars, t.push(c)),
        ),
{
    let e = escape_char(c);
    if c == '"' || c == '\\' || c == '\x08' || c == '\x0c' || c == '\n' || c == '\r' || c == '\t' {
        assert(q + e =~= q.push(e[0]).push(e[1]));
        lemma_string_run_step(q, StringPhase::Chars, t, e[0]);
        lemma_string_run_step(q.push(e[0]), StringPhase::Escape, t, e[1]);
    } else if (c as int) < 0x20 {
        let hi = (c as int) / 16;
        let lo = (c as int) % 16;
        lemma_hex_digit(hi);
        lemma_hex_digit(lo);
        lemma_hex_digit(0);
        assert(e =~= seq!['\\', 'u', '0', '0', hex_digit(hi), hex_digit(lo)]);
        let q1 = q.push('\\');
        let q2 = q1.push('u');
        let q3 = q2.push('0');
        let q4 = q3.push('0');
        let q5 = q4.push(hex_digit(hi));
        assert(q + e =~= q5.push(hex_digit(lo)));
        lemma_string_run_step(q, StringPhase::Chars, t, '\\');
        lemma_string_run_step(q1, StringPhase::Escape, t, 'u');
        lemma_string_run_step(q2, StringPhase::Hex(0, 0), t, '0');
        lemma_string_run_step(q3, StringPhase::Hex(1, 0), t, '0');
        lemma_string_run_step(q4, StringPhase::Hex(2, 0), t, hex_digit(hi));
        let code = (hi * 16 + lo) as u32;
        assert(code as int == c as int);
        assert(code_of(c) == code as int);
        assert(char_of_code(code) == c);
        assert(is_scalar_value(code));
        lemma_string_run_step(q5, StringPhase::Hex(3, hi as u32), t, hex_digit(lo));
    } else {
        assert(e == seq![c]);
        assert(q + e =~= q.push(c));
        assert((c as u32) >= 0x20);
        lemma_string_run_step(q, StringPhase::Chars, t, c);
    }
}

proof fn lemma_string_run_escapes(q: Seq<char>, t: Seq<char>, s: Seq<char>)
    requires
        string_run(q) == Ok::<(StringPhase, Seq<char>), ParseError>((StringPhase::Chars, t)),
    ensures
        string_run(q + escape_chars(s)) == Ok::<(StringPhase, Seq<char>), ParseError>(
            (StringPhase::Chars, t + s),
        ),
    decreases s.len(),
{
    if s.len() == 0 {
        assert(q + escape_chars(s) =~= q);
        assert(t + s =~= t);
    } else {
        lemma_string_run_escapes(q, t, s.drop_last());
        assert(q + escape_chars(s) =~= (q + escape_chars(s.drop_last())) + escape_char(s.last()));
        lemma_string_run_escape_char(q + escape_chars(s.drop_last()), t + s.drop_last(), s.last());
        assert((t + s.drop_last()).push(s.last()) =~= t + s);
    }
}

/// Reading the string literal that the encoder writes for `s`, on its own,
/// gives `s` back, for every string.
pub proof fn string_literal_round_trip(s: Seq<char>)
    ensures
        string_result(string_text(s)) == Ok::<Seq<char>, ParseError>(s),
{
    let q = seq!['"'];
    assert(q =~= Seq::<char>::empty().push('"'));
    assert(string_run(Seq::<char>::empty()) == Ok::<(StringPhase, Seq<char>), ParseError>(
        (StringPhase::Start, Seq::empty()),
    ));
    lemma_string_run_step(Seq::<char>::empty(), StringPhase::Start, Seq::empty(), '"');
    lemma_string_run_escapes(q, Seq::empty(), s);
    assert(Seq::<char>::empty() + s =~= s);
    assert(string_text(s) =~= (q + escape_chars(s)).push('"'));
    lemma_string_run_step(q + escape_chars(s), StringPhase::Chars, s, '"');
}

/// Parsing the text of a value gives the value back, for every value that
/// JSON can express (number literals, distinct keys in each object) nested no
/// deeper than the parser's limit, with no string or number longer than its
/// token limit.
pub proof fn parse_of_encoding_is_identity(v: JValue, max_depth: nat, max_token_len: nat)
    requires
        value_wf(v),
        depth(v) <= max_depth,
        value_fits(v, max_token_len),
    ensures
        parse_spec(json_text(v), max_depth, max_token_len) == Ok::<JValue, ParseError>(v),
{
    let m = initial(max_depth, max_token_len);
    lemma_value_run(m, v);
}

} // verus!
