use vstd::prelude::*;
use crate::text::{chars_of, string_from_chars};
use crate::value::{JValue, Value, items_view, lemma_array_view, lemma_object_view, members_view};

verus! {

broadcast use {vstd::seq::axiom_seq_index_decreases, vstd::seq::axiom_seq_subrange_decreases};

/// The lowercase hex digit of `n`, for `n < 16`.
pub open spec fn hex_digit(n: int) -> char {
    if n == 0 { '0' } else if n == 1 { '1' } else if n == 2 { '2' } else if n == 3 { '3' }
    else if n == 4 { '4' } else if n == 5 { '5' } else if n == 6 { '6' } else if n == 7 { '7' }
    else if n == 8 { '8' } else if n == 9 { '9' } else if n == 10 { 'a' } else if n == 11 { 'b' }
    else if n == 12 { 'c' } else if n == 13 { 'd' } else if n == 14 { 'e' } else { 'f' }
}

/// How one character of a string is written between the quotes: `"` and `\`
/// and the control characters below U+0020 are escaped, all else is written
/// as it is.
pub open spec fn escape_char(c: char) -> Seq<char> {
    if c == '"' {
        seq!['\\', '"']
    } else if c == '\\' {
        seq!['\\', '\\']
    } else if c == '\x08' {
        seq!['\\', 'b']
    } else if c == '\x0c' {
        seq!['\\', 'f']
    } else if c == '\n' {
        seq!['\\', 'n']
    } else if c == '\r' {
        seq!['\\', 'r']
    } else if c == '\t' {
        seq!['\\', 't']
    } else if (c as int) < 0x20 {
        seq!['\\', 'u', '0', '0', hex_digit((c as int) / 16), hex_digit((c as int) % 16)]
    } else {
        seq![c]
    }
}

pub open spec fn escape_chars(s: Seq<char>) -> Seq<char>
    decreases s.len(),
{
    if s.len() == 0 {
        Seq::empty()
    } else {
        escape_chars(s.drop_last()) + escape_char(s.last())
    }
}

/// A string literal: the escaped characters between double quotes.
pub open spec fn string_text(s: Seq<char>) -> Seq<char> {
    seq!['"'] + escape_chars(s) + seq!['"']
}

/// The canonical text of a value: no whitespace, members in their order.
pub open spec fn json_text(v: JValue) -> Seq<char>
    decreases v,
{
    match v {
        JValue::Null => seq!['n', 'u', 'l', 'l'],
        JValue::Boolean(b) => if b {
            seq!['t', 'r', 'u', 'e']
        } else {
            seq!['f', 'a', 'l', 's', 'e']
        },
        JValue::Number(t) => t,
        JValue::String(s) => string_text(s),
        JValue::Array(items) => seq!['['] + items_text(items) + seq![']'],
        JValue::Object(members) => seq!['{'] + members_text(members) + seq!['}'],
    }
}

/// The elements' texts joined by commas.
pub open spec fn items_text(items: Seq<JValue>) -> Seq<char>
    decreases items,
{
    if items.len() == 0 {
        Seq::empty()
    } else if items.len() == 1 {
        json_text(items[0])
    } else {
        items_text(items.drop_last()) + seq![','] + json_text(items.last())
    }
}

/// The members' `"key":value` texts joined by commas.
pub open spec fn members_text(members: Seq<(Seq<char>, JValue)>) -> Seq<char>
    decreases members,
{
    if members.len() == 0 {
        Seq::empty()
    } else if members.len() == 1 {
        string_text(members[0].0) + seq![':'] + json_text(members[0].1)
    } else {
        members_text(members.drop_last()) + seq![','] + string_text(members.last().0) + seq![':']
            + json_text(members.last().1)
    }
}

fn hex_digit_exec(n: u32) -> (r: char)
    requires
        n < 16,
    ensures
        r == hex_digit(n as int),
{
    match n {
        0 => '0',
        1 => '1',
        2 => '2',
        3 => '3',
        4 => '4',
        5 => '5',
        6 => '6',
        7 => '7',
        8 => '8',
        9 => '9',
        10 => 'a',
        11 => 'b',
        12 => 'c',
        13 => 'd',
        14 => 'e',
        _ => 'f',
    }
}

fn write_escaped(c: char, out: &mut Vec<char>)
    ensures
        final(out)@ == old(out)@ + escape_char(c),
{
    let ghost start = out@;
    if c == '"' {
        out.push('\\');
        out.push('"');
    } else if c == '\\' {
        out.push('\\');
        out.push('\\');
    } else if c == '\x08' {
        out.push('\\');
        out.push('b');
    } else if c == '\x0c' {
        out.push('\\');
        out.push('f');
    } else if c == '\n' {
        out.push('\\');
        out.push('n');
    } else if c == '\r' {
        out.push('\\');
        out.push('r');
    } else if c == '\t' {
        out.push('\\');
        out.push('t');
    } else if (c as u32) < 0x20 {
        let code = c as u32;
        out.push('\\');
        out.push('u');
        out.push('0');
        out.push('0');
        out.push(hex_digit_exec(code / 16));
        out.push(hex_digit_exec(code % 16));
    } else {
        out.push(c);
    }
    assert(out@ =~= start + escape_char(c));
}

fn write_string(s: &String, out: &mut Vec<char>)
    ensures
        final(out)@ == old(out)@ + string_text(s@),
{
    let ghost start = out@;
    let chars = chars_of(s.as_str());
    out.push('"');
    let mut i: usize = 0;
    while i < chars.len()
        invariant
            i <= chars.len(),
            chars@ == s@,
            out@ == start + seq!['"'] + escape_chars(chars@.take(i as int)),
        decreases chars.len() - i,
    {
        assert(chars@.take(i + 1).drop_last() == chars@.take(i as int));
        assert(chars@.take(i + 1).last() == chars@[i as int]);
        write_escaped(chars[i], out);
        i = i + 1;
        assert(out@ =~= start + seq!['"'] + escape_chars(chars@.take(i as int)));
    }
    out.push('"');
    assert(chars@.take(i as int) == s@);
    assert(out@ =~= start + string_text(s@));
}

fn write_literal(text: &str, out: &mut Vec<char>)
    ensures
        final(out)@ == old(out)@ + text@,
{
    let mut chars = chars_of(text);
    out.append(&mut chars);
}

fn write_value(v: &Value, out: &mut Vec<char>)
    ensures
        final(out)@ == old(out)@ + json_text(v@),
    decreases v,
{
    let ghost start = out@;
    match v {
        Value::Null => {
            proof { reveal_strlit("null"); }
            write_literal("null", out);
            assert(out@ =~= start + json_text(v@));
        },
        Value::Boolean(b) => {
            if *b {
                proof { reveal_strlit("true"); }
                write_literal("true", out);
            } else {
                proof { reveal_strlit("false"); }
                write_literal("false", out);
            }
            assert(out@ =~= start + json_text(v@));
        },
        Value::Number(n) => {
            write_literal(n.as_str(), out);
        },
        Value::String(s) => {
            write_string(s, out);
        },
        Value::Array(items) => {
            proof {
                lemma_array_view(*items);
            }
            let ghost iv = items_view(items@);
            out.push('[');
            let mut i: usize = 0;
            while i < items.len()
                invariant
                    i <= items.len(),
                    iv == items_view(items@),
                    v@ == JValue::Array(iv),
                    decreases_to!(*v => *items),
                    out@ == start + seq!['['] + items_text(iv.take(i as int)),
                decreases items.len() - i,
            {
                assert(decreases_to!(*v => items@[i as int]));
                let ghost before = out@;
                if i > 0 {
                    out.push(',');
                }
                write_value(&items[i], out);
                proof {
                    let t = iv.take(i + 1);
                    assert(t.drop_last() == iv.take(i as int));
                    assert(t.last() == items@[i as int]@);
                    if i == 0 {
                        assert(out@ =~= start + seq!['['] + items_text(t));
                    } else {
                        assert(out@ =~= start + seq!['['] + items_text(t));
                    }
                }
                i = i + 1;
            }
            out.push(']');
            assert(iv.take(i as int) == iv);
            assert(out@ =~= start + json_text(v@));
        },
        Value::Object(members) => {
            proof {
                lemma_object_view(*members);
            }
            let ghost mv = members_view(members@);
            out.push('{');
            let mut i: usize = 0;
            while i < members.len()
                invariant
                    i <= members.len(),
                    mv == members_view(members@),
                    v@ == JValue::Object(mv),
                    decreases_to!(*v => *members),
                    out@ == start + seq!['{'] + members_text(mv.take(i as int)),
                decreases members.len() - i,
            {
                assert(decreases_to!(*v => members@[i as int].1));
                if i > 0 {
                    out.push(',');
                }
                write_string(&members[i].0, out);
                out.push(':');
                write_value(&members[i].1, out);
                proof {
                    let t = mv.take(i + 1);
                    assert(t.drop_last() == mv.take(i as int));
                    assert(t.last() == (members@[i as int].0@, members@[i as int].1@));
                    assert(out@ =~= start + seq!['{'] + members_text(t));
                }
                i = i + 1;
            }
            out.push('}');
            assert(mv.take(i as int) == mv);
            assert(out@ =~= start + json_text(v@));
        },
    }
}

impl Value {
    /// The canonical JSON text of this value.
    pub fn to_json(&self) -> (r: String)
        ensures
            r@ == json_text(self@),
    {
        let mut out: Vec<char> = Vec::new();
        write_value(self, &mut out);
        assert(out@ =~= json_text(self@));
        string_from_chars(&out)
    }
}

} // verus!
