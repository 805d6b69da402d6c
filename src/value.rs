use vstd::prelude::*;
use crate::number::{NumberPhase, is_number_literal, number_run};

verus! {

broadcast use {vstd::std_specs::vec::axiom_vec_decreases_to_view, vstd::seq::axiom_seq_index_decreases};

/// The mathematical model of a JSON value.
pub enum JValue {
    Null,
    Boolean(bool),
    /// A number, as its decimal literal.
    Number(Seq<char>),
    String(Seq<char>),
    Array(Seq<JValue>),
    /// Members in insertion order.
    Object(Seq<(Seq<char>, JValue)>),
}

/// A JSON number, held as the decimal literal that denotes it, so that no
/// precision is lost; two numbers are equal when their literals are.
#[derive(Debug, PartialEq)]
pub struct Number {
    literal: String,
}

impl Number {
    pub closed spec fn view(&self) -> Seq<char> {
        self.literal@
    }

    /// The text is always a JSON number literal.
    #[verifier::type_invariant]
    spec fn literal_is_valid(&self) -> bool {
        is_number_literal(self.literal@)
    }

    pub(crate) fn from_valid_literal(literal: String) -> (r: Number)
        requires
            is_number_literal(literal@),
        ensures
            r@ == literal@,
    {
        Number { literal }
    }

    pub fn duplicate(&self) -> (r: Number)
        ensures
            r@ == self@,
            is_number_literal(r@),
    {
        proof {
            use_type_invariant(self);
        }
        Number { literal: self.literal.clone() }
    }

    /// The decimal literal of this number.
    pub fn as_str(&self) -> (r: &str)
        ensures
            r@ == self@,
            is_number_literal(r@),
    {
        proof {
            use_type_invariant(self);
        }
        self.literal.as_str()
    }
}

/// Every digit sequence without leading zeros, after an optional `-`, is a
/// number literal.
proof fn lemma_decimal_run(pre: Seq<char>, n: nat)
    requires
        number_run(pre) == Some(NumberPhase::Start) || number_run(pre) == Some(
            NumberPhase::Negative,
        ),
    ensures
        number_run(pre + decimal_text(n)) == Some(
            if n == 0 {
                NumberPhase::Zero
            } else {
                NumberPhase::IntDigits
            },
        ),
    decreases n,
{
    if n < 10 {
        assert((pre + decimal_text(n)).drop_last() =~= pre);
        assert((pre + decimal_text(n)).last() == digit_char(n));
    } else {
        lemma_decimal_run(pre, n / 10);
        assert((pre + decimal_text(n)).drop_last() =~= pre + decimal_text(n / 10));
        assert((pre + decimal_text(n)).last() == digit_char(n % 10));
    }
}

proof fn lemma_integer_literal(n: int)
    ensures
        is_number_literal(integer_text(n)),
{
    if n < 0 {
        let pre = seq!['-'];
        assert(pre.drop_last() =~= Seq::<char>::empty());
        assert(number_run(Seq::<char>::empty()) == Some(NumberPhase::Start));
        assert(number_run(pre) == Some(NumberPhase::Negative));
        lemma_decimal_run(pre, (-n) as nat);
    } else {
        assert(Seq::<char>::empty() + decimal_text(n as nat) =~= decimal_text(n as nat));
        lemma_decimal_run(Seq::<char>::empty(), n as nat);
    }
}

/// The decimal digit for `d < 10`.
pub open spec fn digit_char(d: nat) -> char {
    if d == 0 { '0' } else if d == 1 { '1' } else if d == 2 { '2' } else if d == 3 { '3' }
    else if d == 4 { '4' } else if d == 5 { '5' } else if d == 6 { '6' } else if d == 7 { '7' }
    else if d == 8 { '8' } else { '9' }
}

/// The decimal digits of `n`, without leading zeros.
pub open spec fn decimal_text(n: nat) -> Seq<char>
    decreases n,
{
    if n < 10 {
        seq![digit_char(n)]
    } else {
        decimal_text(n / 10).push(digit_char(n % 10))
    }
}

/// The literal of an integer: a `-` for a negative one, then its digits.
pub open spec fn integer_text(n: int) -> Seq<char> {
    if n < 0 {
        seq!['-'] + decimal_text((-n) as nat)
    } else {
        decimal_text(n as nat)
    }
}

fn digit_char_exec(d: u64) -> (r: char)
    requires
        d < 10,
    ensures
        r == digit_char(d as nat),
{
    match d {
        0 => '0',
        1 => '1',
        2 => '2',
        3 => '3',
        4 => '4',
        5 => '5',
        6 => '6',
        7 => '7',
        8 => '8',
        _ => '9',
    }
}

fn write_decimal(n: u64, out: &mut Vec<char>)
    ensures
        final(out)@ == old(out)@ + decimal_text(n as nat),
    decreases n,
{
    if n < 10 {
        out.push(digit_char_exec(n));
        assert(out@ =~= old(out)@ + decimal_text(n as nat));
    } else {
        write_decimal(n / 10, out);
        out.push(digit_char_exec(n % 10));
        assert(out@ =~= old(out)@ + decimal_text(n as nat));
    }
}

impl Number {
    /// The number with the value of `n`, written in decimal.
    pub fn from_i64(n: i64) -> (r: Number)
        ensures
            r@ == integer_text(n as int),
            is_number_literal(r@),
    {
        proof {
            lemma_integer_literal(n as int);
        }
        let mut out: Vec<char> = Vec::new();
        if n < 0 {
            out.push('-');
            let magnitude: u64 = (0 - (n as i128)) as u64;
            write_decimal(magnitude, &mut out);
        } else {
            write_decimal(n as u64, &mut out);
        }
        assert(out@ =~= integer_text(n as int));
        Number::from_valid_literal(crate::text::string_from_chars(&out))
    }
}

/// A JSON value. An object keeps its members in insertion order.
#[derive(Debug, PartialEq)]
pub enum Value {
    Null,
    Boolean(bool),
    Number(Number),
    String(String),
    Array(Vec<Value>),
    Object(Vec<(String, Value)>),
}

impl Value {
    pub open spec fn view(&self) -> JValue
        decreases self,
    {
        match self {
            Value::Null => JValue::Null,
            Value::Boolean(b) => JValue::Boolean(*b),
            Value::Number(n) => JValue::Number(n@),
            Value::String(s) => JValue::String(s@),
            Value::Array(items) => JValue::Array(
                Seq::new(items.len() as nat, |i: int| if 0 <= i < items.len() { items@[i].view() } else { JValue::Null }),
            ),
            Value::Object(members) => JValue::Object(
                Seq::new(members.len() as nat, |i: int|
                    if 0 <= i < members.len() {
                        (members@[i].0@, members@[i].1.view())
                    } else {
                        (Seq::empty(), JValue::Null)
                    },),
            ),
        }
    }
}

pub open spec fn items_view(items: Seq<Value>) -> Seq<JValue> {
    Seq::new(items.len(), |i: int| items[i]@)
}

pub open spec fn members_view(members: Seq<(String, Value)>) -> Seq<(Seq<char>, JValue)> {
    Seq::new(members.len(), |i: int| (members[i].0@, members[i].1@))
}

pub proof fn lemma_array_view(items: Vec<Value>)
    ensures
        Value::Array(items)@ == JValue::Array(items_view(items@)),
{
    let v = Value::Array(items);
    assert(v@->Array_0 =~= items_view(items@));
}

pub proof fn lemma_object_view(members: Vec<(String, Value)>)
    ensures
        Value::Object(members)@ == JValue::Object(members_view(members@)),
{
    let v = Value::Object(members);
    assert(v@->Object_0 =~= members_view(members@));
}

impl Value {
    /// An independent copy of this value.
    pub fn duplicate(&self) -> (r: Value)
        ensures
            r@ == self@,
        decreases self,
    {
        match self {
            Value::Null => Value::Null,
            Value::Boolean(b) => Value::Boolean(*b),
            Value::Number(n) => Value::Number(n.duplicate()),
            Value::String(s) => Value::String(s.clone()),
            Value::Array(items) => {
                let mut out: Vec<Value> = Vec::new();
                let mut i: usize = 0;
                while i < items.len()
                    invariant
                        i <= items.len(),
                        out@.len() == i,
                        forall|j: int| 0 <= j < i ==> (#[trigger] out@[j])@ == items@[j]@,
                        decreases_to!(*self => *items),
                    decreases items.len() - i,
                {
                    assert(decreases_to!(items => items@));
                    assert(decreases_to!(items@ => items@[i as int]));
                    assert(decreases_to!(*self => items@[i as int]));
                    out.push(items[i].duplicate());
                    i = i + 1;
                }
                proof {
                    lemma_array_view(out);
                    lemma_array_view(*items);
                    assert(items_view(out@) =~= items_view(items@));
                }
                Value::Array(out)
            },
            Value::Object(members) => {
                let mut out: Vec<(String, Value)> = Vec::new();
                let mut i: usize = 0;
                while i < members.len()
                    invariant
                        i <= members.len(),
                        out@.len() == i,
                        forall|j: int|
                            0 <= j < i ==> (#[trigger] out@[j]).0@ == members@[j].0@ && out@[j].1@
                                == members@[j].1@,
                        decreases_to!(*self => *members),
                    decreases members.len() - i,
                {
                    assert(decreases_to!(members => members@));
                    assert(decreases_to!(members@ => members@[i as int]));
                    assert(decreases_to!(*self => members@[i as int].1));
                    let key = members[i].0.clone();
                    let item = members[i].1.duplicate();
                    out.push((key, item));
                    i = i + 1;
                }
                proof {
                    lemma_object_view(out);
                    lemma_object_view(*members);
                    assert(members_view(out@) =~= members_view(members@));
                }
                Value::Object(out)
            },
        }
    }
}

} // verus!
