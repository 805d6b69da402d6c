use vstd::prelude::*;
use crate::encode::json_text;
use crate::value::{JValue, Number, Value, integer_text};

verus! {

/// A record that is written as the JSON object `{"age":<age>}`.
pub struct Person {
    pub age: u8,
}

pub open spec fn age_key() -> Seq<char> {
    seq!['a', 'g', 'e']
}

impl Person {
    pub fn new(age: u8) -> (r: Person)
        ensures
            r.age == age,
    {
        Person { age }
    }

    /// The object that stands for this record.
    pub fn to_value(&self) -> (r: Value)
        ensures
            r@ == JValue::Object(seq![(age_key(), JValue::Number(integer_text(self.age as int)))]),
    {
        let mut key: Vec<char> = Vec::new();
        key.push('a');
        key.push('g');
        key.push('e');
        let mut members: Vec<(String, Value)> = Vec::new();
        members.push((crate::text::string_from_chars(&key), Value::Number(Number::from_i64(self.age as i64))));
        let r = Value::Object(members);
        proof {
            crate::value::lemma_object_view(members);
            assert(key@ =~= age_key());
            assert(r@->Object_0 =~= seq![(age_key(), JValue::Number(integer_text(self.age as int)))]);
        }
        r
    }

    pub fn to_json(&self) -> (r: String)
        ensures
            r@ == json_text(
                JValue::Object(seq![(age_key(), JValue::Number(integer_text(self.age as int)))]),
            ),
    {
        self.to_value().to_json()
    }
}

} // verus!
