use vstd::prelude::*;
use crate::laws::open_containers_stay_within_limit;
use crate::machine::{
    FrameModel, Mode, ParserModel, Word, after_value, close, deliver, frame_value,
    initial, insert_member, is_first_key, key_index, model_wf, parse_spec, run, step, word_value,
};
use crate::number::{NumberPhase, is_accepting, is_number_literal, number_step};
use crate::roundtrip::{items_wf, keys_unique, members_wf, value_wf};
use crate::string::{StringPhase, string_step};
use crate::value::{JValue, Value, items_view, lemma_array_view, lemma_object_view, members_view};

verus! {

/// The contents of an open container are well formed.
pub open spec fn frame_wf(f: FrameModel) -> bool {
    match f {
        FrameModel::Array(items) => items_wf(items),
        FrameModel::Object(members, _) => members_wf(members) && keys_unique(members),
    }
}

/// Everything the parser has built so far is well formed.
pub open spec fn contents_wf(m: ParserModel) -> bool {
    &&& forall|i: int| 0 <= i < m.stack.len() ==> frame_wf(#[trigger] m.stack[i])
    &&& (m.result matches Some(v) ==> value_wf(v))
}

pub(crate) proof fn lemma_members_wf_all(s: Seq<(Seq<char>, JValue)>)
    ensures
        members_wf(s) <==> forall|i: int| 0 <= i < s.len() ==> value_wf(#[trigger] s[i].1),
    decreases s.len(),
{
    if s.len() > 0 {
        let d = s.drop_last();
        lemma_members_wf_all(d);
        assert forall|i: int| 0 <= i < d.len() implies #[trigger] d[i] == s[i] by {}
        assert(s.last() == s[s.len() - 1]);
        if members_wf(s) {
            assert forall|i: int| 0 <= i < s.len() implies value_wf(#[trigger] s[i].1) by {
                if i < d.len() {
                    assert(d[i] == s[i]);
                }
            }
        }
        if forall|i: int| 0 <= i < s.len() ==> value_wf(#[trigger] s[i].1) {
            assert forall|i: int| 0 <= i < d.len() implies value_wf(#[trigger] d[i].1) by {
                assert(d[i] == s[i]);
                assert(value_wf(s[i].1));
            }
            assert(value_wf(s[s.len() - 1].1));
        }
    }
}

proof fn lemma_items_push(items: Seq<JValue>, v: JValue)
    ensures
        items_wf(items.push(v)) == (items_wf(items) && value_wf(v)),
        items_wf(Seq::<JValue>::empty()),
        members_wf(Seq::<(Seq<char>, JValue)>::empty()),
        keys_unique(Seq::<(Seq<char>, JValue)>::empty()),
{
    assert(items.push(v).drop_last() =~= items);
}

/// Adding a well-formed member keeps an object well formed, its keys
/// distinct included.
proof fn lemma_insert_wf(members: Seq<(Seq<char>, JValue)>, key: Seq<char>, v: JValue)
    requires
        members_wf(members),
        keys_unique(members),
        value_wf(v),
    ensures
        members_wf(insert_member(members, key, v)),
        keys_unique(insert_member(members, key, v)),
{
    lemma_members_wf_all(members);
    let r = insert_member(members, key, v);
    match key_index(members, key) {
        Some(i) => {
            assert(is_first_key(members, key, i));
            assert forall|a: int, b: int| 0 <= a < b < r.len() implies r[a].0 != r[b].0 by {
                assert(r[a].0 == members[a].0 && r[b].0 == members[b].0);
            }
        },
        None => {
            assert forall|j: int| 0 <= j < members.len() implies members[j].0 != key by {
                if members[j].0 == key {
                    assert(is_first_key(members, key, j));
                }
            }
            assert forall|a: int, b: int| 0 <= a < b < r.len() implies r[a].0 != r[b].0 by {
                if b == members.len() {
                    assert(r[a] == members[a]);
                } else {
                    assert(r[a] == members[a] && r[b] == members[b]);
                }
            }
        },
    }
    lemma_members_wf_all(r);
}

proof fn lemma_deliver_contents(m: ParserModel, v: JValue)
    requires
        contents_wf(m),
        value_wf(v),
    ensures
        contents_wf(deliver(m, v)),
{
    if m.stack.len() > 0 {
        let n = m.stack.len() - 1;
        assert(frame_wf(m.stack[n]));
        match m.stack.last() {
            FrameModel::Array(items) => {
                lemma_items_push(items, v);
            },
            FrameModel::Object(members, key) => {
                lemma_insert_wf(members, key, v);
            },
        }
        let r = deliver(m, v);
        assert forall|i: int| 0 <= i < r.stack.len() implies frame_wf(#[trigger] r.stack[i]) by {
            if i < n {
                assert(r.stack[i] == m.stack[i]);
            }
        }
    }
}

proof fn lemma_close_contents(m: ParserModel)
    requires
        contents_wf(m),
        m.stack.len() > 0,
    ensures
        contents_wf(close(m)),
{
    let n = m.stack.len() - 1;
    assert(frame_wf(m.stack[n]));
    let m1 = ParserModel { stack: m.stack.drop_last(), ..m };
    assert forall|i: int| 0 <= i < m1.stack.len() implies frame_wf(#[trigger] m1.stack[i]) by {
        assert(m1.stack[i] == m.stack[i]);
    }
    lemma_deliver_contents(m1, frame_value(m.stack.last()));
}

proof fn lemma_after_value_contents(m: ParserModel, c: char)
    requires
        contents_wf(m),
    ensures
        contents_wf(after_value(m, c)),
{
    if m.stack.len() > 0 {
        lemma_close_contents(m);
    }
}

proof fn lemma_words_wf(w: Word)
    ensures
        value_wf(word_value(w)),
{
}

/// One character keeps what the parser has built well formed.
proof fn lemma_step_contents(m: ParserModel, c: char)
    requires
        model_wf(m),
        contents_wf(m),
    ensures
        contents_wf(step(m, c)),
{
    lemma_after_value_contents(m, c);
    if m.stack.len() > 0 {
        lemma_close_contents(m);
    }
    lemma_items_push(Seq::empty(), JValue::Null);
    lemma_words_wf(Word::Null);
    lemma_words_wf(Word::True);
    lemma_words_wf(Word::False);
    if m.mode is Literal {
        let w = m.mode->Literal_0;
        lemma_deliver_contents(m, word_value(w));
    }
    if m.mode == Mode::Str {
        if let Ok((StringPhase::End, t)) = string_step(m.str_phase, m.str_text, c) {
            lemma_deliver_contents(
                ParserModel { str_phase: StringPhase::Start, str_text: Seq::empty(), ..m },
                JValue::String(t),
            );
        }
    }
    if m.mode == Mode::Number && number_step(m.num_phase, c) is None && is_accepting(m.num_phase) {
        let m1 = ParserModel { num_phase: NumberPhase::Start, num_text: Seq::empty(), ..m };
        assert(is_number_literal(m.num_text));
        lemma_deliver_contents(m1, JValue::Number(m.num_text));
        lemma_after_value_contents(deliver(m1, JValue::Number(m.num_text)), c);
    }
    lemma_open_contents(m, FrameModel::Array(Seq::empty()), Mode::FirstElement);
    lemma_open_contents(m, FrameModel::Object(Seq::empty(), Seq::empty()), Mode::FirstKey);
    if m.mode == Mode::KeyStr {
        if let Ok((StringPhase::End, t)) = string_step(m.str_phase, m.str_text, c) {
            lemma_set_key_contents(m, t);
        }
    }
}

proof fn lemma_open_contents(m: ParserModel, f: FrameModel, mode: Mode)
    requires
        contents_wf(m),
        frame_wf(f),
    ensures
        contents_wf(crate::machine::open_frame(m, f, mode)),
{
    let r = crate::machine::open_frame(m, f, mode);
    assert forall|i: int| 0 <= i < r.stack.len() implies frame_wf(#[trigger] r.stack[i]) by {
        if i < m.stack.len() && r.stack.len() > m.stack.len() {
            assert(r.stack[i] == m.stack[i]);
        }
    }
}

proof fn lemma_set_key_contents(m: ParserModel, key: Seq<char>)
    requires
        contents_wf(m),
        m.stack.len() > 0,
    ensures
        contents_wf(crate::machine::set_key(m, key)),
{
    let n = m.stack.len() - 1;
    assert(frame_wf(m.stack[n]));
    let r = crate::machine::set_key(m, key);
    assert forall|i: int| 0 <= i < r.stack.len() implies frame_wf(#[trigger] r.stack[i]) by {
        if i < n {
            assert(r.stack[i] == m.stack[i]);
        }
    }
}

proof fn lemma_run_contents(s: Seq<char>, max_depth: nat, max_token_len: nat)
    ensures
        contents_wf(run(initial(max_depth, max_token_len), s)),
    decreases s.len(),
{
    if s.len() > 0 {
        lemma_run_contents(s.drop_last(), max_depth, max_token_len);
        open_containers_stay_within_limit(s.drop_last(), max_depth, max_token_len);
        lemma_step_contents(run(initial(max_depth, max_token_len), s.drop_last()), s.last());
    }
}

/// Whatever the input, a value that parsing returns is well formed: its
/// numbers are number literals and no object in it repeats a key (a
/// repeated key keeps its first place and its last value).
pub proof fn parse_output_is_well_formed(s: Seq<char>, max_depth: nat, max_token_len: nat)
    ensures
        parse_spec(s, max_depth, max_token_len) matches Ok(v) ==> value_wf(v),
{
    lemma_run_contents(s, max_depth, max_token_len);
    open_containers_stay_within_limit(s, max_depth, max_token_len);
}

pub(crate) proof fn lemma_items_wf_all(s: Seq<JValue>)
    ensures
        items_wf(s) <==> forall|i: int| 0 <= i < s.len() ==> value_wf(#[trigger] s[i]),
    decreases s.len(),
{
    if s.len() > 0 {
        let d = s.drop_last();
        lemma_items_wf_all(d);
        assert forall|i: int| 0 <= i < d.len() implies #[trigger] d[i] == s[i] by {}
        assert(s.last() == s[s.len() - 1]);
        if items_wf(s) {
            assert forall|i: int| 0 <= i < s.len() implies value_wf(#[trigger] s[i]) by {
                if i < d.len() {
                    assert(d[i] == s[i]);
                }
            }
        }
        if forall|i: int| 0 <= i < s.len() ==> value_wf(#[trigger] s[i]) {
            assert forall|i: int| 0 <= i < d.len() implies value_wf(#[trigger] d[i]) by {
                assert(d[i] == s[i]);
                assert(value_wf(s[i]));
            }
            assert(value_wf(s[s.len() - 1]));
        }
    }
}

/// Whether no two members of an object share a key.
fn keys_distinct(members: &Vec<(String, Value)>) -> (r: bool)
    ensures
        r == keys_unique(members_view(members@)),
{
    let ghost mv = members_view(members@);
    let mut i: usize = 0;
    while i < members.len()
        invariant
            mv == members_view(members@),
            i <= members.len(),
            forall|a: int, b: int| 0 <= a < i && a < b < members.len() ==> mv[a].0 != mv[b].0,
        decreases members.len() - i,
    {
        let mut j: usize = i + 1;
        while j < members.len()
            invariant
                mv == members_view(members@),
                i < members.len(),
                i + 1 <= j <= members.len(),
                forall|a: int, b: int| 0 <= a < i && a < b < members.len() ==> mv[a].0 != mv[b].0,
                forall|b: int| i < b < j ==> mv[i as int].0 != mv[b].0,
            decreases members.len() - j,
        {
            if members[i].0 == members[j].0 {
                assert(mv[i as int].0 == mv[j as int].0);
                return false;
            }
            j = j + 1;
        }
        i = i + 1;
    }
    true
}

impl Value {
    /// Whether this value is one that JSON text can express: its numbers are
    /// number literals and no object in it repeats a key. Parsing the text of
    /// such a value gives it back.
    pub fn is_well_formed(&self) -> (r: bool)
        ensures
            r == value_wf(self@),
        decreases self,
    {
        match self {
            Value::Number(n) => {
                let _ = n.as_str();
                true
            },
            Value::Array(items) => {
                proof {
                    lemma_array_view(*items);
                }
                let ghost iv = items_view(items@);
                let mut i: usize = 0;
                while i < items.len()
                    invariant
                        i <= items.len(),
                        iv == items_view(items@),
                        self@ == JValue::Array(iv),
                        decreases_to!(*self => *items),
                        forall|k: int| 0 <= k < i ==> value_wf(#[trigger] iv[k]),
                    decreases items.len() - i,
                {
                    assert(decreases_to!(*self => items@[i as int]));
                    if !items[i].is_well_formed() {
                        assert(iv[i as int] == items@[i as int]@);
                        assert(!value_wf(iv[i as int]));
                        proof {
                            lemma_items_wf_all(iv);
                        }
                        return false;
                    }
                    i = i + 1;
                }
                proof {
                    lemma_items_wf_all(iv);
                }
                true
            },
            Value::Object(members) => {
                proof {
                    lemma_object_view(*members);
                }
                let ghost mv = members_view(members@);
                let mut i: usize = 0;
                while i < members.len()
                    invariant
                        i <= members.len(),
                        mv == members_view(members@),
                        self@ == JValue::Object(mv),
                        decreases_to!(*self => *members),
                        forall|k: int| 0 <= k < i ==> value_wf(#[trigger] mv[k].1),
                    decreases members.len() - i,
                {
                    assert(decreases_to!(*self => members@[i as int].1));
                    if !members[i].1.is_well_formed() {
                        assert(mv[i as int].1 == members@[i as int].1@);
                        assert(!value_wf(mv[i as int].1));
                        proof {
                            lemma_members_wf_all(mv);
                        }
                        return false;
                    }
                    i = i + 1;
                }
                proof {
                    lemma_members_wf_all(mv);
                }
                keys_distinct(members)
            },
            _ => true,
        }
    }
}

} // verus!
