use json_fsm::{Number, Person, Value, parse_string};

fn num(n: i64) -> Value {
    Value::Number(Number::from_i64(n))
}

fn text(s: &str) -> Value {
    Value::String(s.to_string())
}

#[test]
fn mod_empty_object_check() {
    let test_object = Value::Object(Vec::new());
    assert_eq!(&test_object.to_json(), "{}");
}

#[test]
fn mod_simple_object_check() {
    let test_object = Value::Object(vec![("name".to_string(), text("James"))]);
    assert_eq!(&test_object.to_json(), "{\"name\":\"James\"}");
}

#[test]
fn mod_array_of_numbers_check() {
    let test_array = Value::Array(vec![num(1), num(2)]);
    assert_eq!(&test_array.to_json(), "[1,2]");
}

#[test]
fn mod_array_of_strings_check() {
    let test_array = Value::Array(vec![text("a"), text("b")]);
    assert_eq!(&test_array.to_json(), "[\"a\",\"b\"]");
}

#[test]
fn mod_array_of_booleans_check() {
    let test_array = Value::Array(vec![Value::Boolean(true), Value::Boolean(false)]);
    assert_eq!(&test_array.to_json(), "[true,false]");
}

#[test]
fn mod_array_of_empty_arrays_check() {
    let test_array = Value::Array(vec![Value::Array(Vec::new()), Value::Array(Vec::new())]);
    assert_eq!(&test_array.to_json(), "[[],[]]");
}

#[test]
fn mod_array_of_empty_objects_check() {
    let test_array = Value::Array(vec![Value::Object(Vec::new()), Value::Object(Vec::new())]);
    assert_eq!(&test_array.to_json(), "[{},{}]");
}

#[test]
fn lib_empty_object_check() {
    let test_object = Value::Object(Vec::new());
    assert_eq!(&test_object.to_json(), "{}");
}

#[test]
fn lib_simple_object_check() {
    let test_object = Value::Object(vec![("name".to_string(), text("James"))]);
    assert_eq!(&test_object.to_json(), "{\"name\":\"James\"}");
}

#[test]
fn struct_as_object_check() {
    let test_person = Person::new(28);
    assert_eq!(&test_person.to_json(), "{\"age\":28}");
}

#[test]
fn lib_array_of_numbers_check() {
    let test_array = Value::Array(vec![num(1), num(2)]);
    assert_eq!(&test_array.to_json(), "[1,2]");
}

#[test]
fn lib_array_of_strings_check() {
    let test_array = Value::Array(vec![text("a"), text("b")]);
    assert_eq!(&test_array.to_json(), "[\"a\",\"b\"]");
}

#[test]
fn lib_array_of_booleans_check() {
    let test_array = Value::Array(vec![Value::Boolean(true), Value::Boolean(false)]);
    assert_eq!(&test_array.to_json(), "[true,false]");
}

#[test]
fn lib_array_of_empty_arrays_check() {
    let test_array = Value::Array(vec![Value::Array(Vec::new()), Value::Array(Vec::new())]);
    assert_eq!(&test_array.to_json(), "[[],[]]");
}

#[test]
fn lib_array_of_empty_objects_check() {
    let test_array = Value::Array(vec![Value::Object(Vec::new()), Value::Object(Vec::new())]);
    assert_eq!(&test_array.to_json(), "[{},{}]");
}

#[test]
fn null_and_nested_values_encode() {
    let v = Value::Object(vec![
        ("a".to_string(), Value::Null),
        ("b".to_string(), Value::Array(vec![num(-7), Value::Object(Vec::new())])),
    ]);
    assert_eq!(&v.to_json(), "{\"a\":null,\"b\":[-7,{}]}");
}

#[test]
fn string_escapes_encode() {
    let v = text("q\"b\\n\nt\tc\u{1}e\u{1f}/é");
    assert_eq!(&v.to_json(), "\"q\\\"b\\\\n\\nt\\tc\\u0001e\\u001f/é\"");
    let w = text("\u{8}\u{c}\r");
    assert_eq!(&w.to_json(), "\"\\b\\f\\r\"");
}

#[test]
fn integers_are_written_in_decimal() {
    assert_eq!(Number::from_i64(0).as_str(), "0");
    assert_eq!(Number::from_i64(1234567).as_str(), "1234567");
    assert_eq!(Number::from_i64(-45).as_str(), "-45");
    assert_eq!(Number::from_i64(i64::MIN).as_str(), "-9223372036854775808");
    assert_eq!(Number::from_i64(i64::MAX).as_str(), "9223372036854775807");
}

#[test]
fn duplicate_copies_deeply() {
    let v = Value::Array(vec![num(3), Value::Object(vec![("k".to_string(), text("v"))])]);
    let w = v.duplicate();
    assert_eq!(v, w);
    assert_eq!(w.to_json(), "[3,{\"k\":\"v\"}]");
}

#[test]
fn string_text_reads_back_through_parse_string() {
    for t in ["", "plain", "q\"b\\s/", "\u{0}\u{1f}\n\t\r\u{8}\u{c}", "é€\u{1F600}\u{7f}"] {
        assert_eq!(parse_string(&text(t).to_json()), Ok(t.to_string()));
    }
}

#[test]
fn well_formedness_is_checked() {
    let good = Value::Object(vec![
        ("a".to_string(), num(1)),
        ("b".to_string(), Value::Array(vec![Value::Null, text("x")])),
    ]);
    assert!(good.is_well_formed());
    let repeated = Value::Object(vec![("a".to_string(), num(1)), ("a".to_string(), num(2))]);
    assert!(!repeated.is_well_formed());
    let nested = Value::Array(vec![Value::Array(vec![repeated.duplicate()])]);
    assert!(!nested.is_well_formed());
    assert!(Value::Array(Vec::new()).is_well_formed());
}
