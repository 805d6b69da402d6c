use json_fsm::{
    JsonParser, NilParser, Number, NumberParser, ParseError, Progress, StringParser, Value, parse,
    parse_string, parse_with_limits, parse_with_max_depth,
};

fn number_value(s: &str) -> f64 {
    Number::from_json(s).unwrap().as_str().parse::<f64>().unwrap()
}

fn parsed_number(s: &str) -> f64 {
    match parse(s).unwrap() {
        Value::Number(n) => n.as_str().parse::<f64>().unwrap(),
        other => panic!("not a number: {:?}", other),
    }
}

fn num(n: i64) -> Value {
    Value::Number(Number::from_i64(n))
}

#[test]
fn number_valid_json_numbers_pass() {
    assert_eq!(number_value("0"), 0 as f64);
    assert_eq!(number_value("0.1"), 0.1 as f64);
    assert_eq!(number_value("-32"), -32 as f64);
    assert_eq!(number_value("4.5e1"), 45 as f64);
    assert_eq!(number_value("3E2"), 300 as f64);
    assert_eq!(number_value("5e-2"), 0.05 as f64);
    assert_eq!(number_value("6E-1"), 0.6 as f64);
    assert_eq!(number_value("3e+3"), 3000 as f64);
}

#[test]
fn number_invalid_json_numbers_fail() {
    assert!(Number::from_json("").is_err());
    assert!(Number::from_json("--").is_err());
    assert!(Number::from_json("0.0.0").is_err());
    assert!(Number::from_json("0.").is_err());
    assert!(Number::from_json("1.2e1.0").is_err());
}

#[test]
fn lib_valid_json_numbers_pass() {
    assert_eq!(number_value("0"), 0 as f64);
}

#[test]
fn lib_invalid_json_numbers_fail() {
    assert!(Number::from_json("--").is_err());
    assert!(Number::from_json("0.0.0").is_err());
    assert!(Number::from_json("0.").is_err());
}

#[test]
fn rust_parse_tests() {
    for s in ["0", "-0", "0.1", "0.1e3", "0.1e+3", "0.1e-3", "0.1E3", "0.1E+3", "0.1E-3"] {
        let n = Number::from_literal(s).unwrap();
        n.as_str().parse::<f64>().unwrap();
    }
    assert_eq!(u64::from_str_radix("0f", 16).unwrap(), 15);
}

#[test]
fn number_errors_name_the_character() {
    assert_eq!(Number::from_json(""), Err(ParseError::EmptyStringGiven));
    assert_eq!(Number::from_json("--"), Err(ParseError::UnexpectedToken('-')));
    assert_eq!(Number::from_json("0.0.0"), Err(ParseError::UnexpectedToken('.')));
    assert_eq!(Number::from_json("0."), Err(ParseError::UnexpectedToken('.')));
    assert_eq!(Number::from_json("01"), Err(ParseError::UnexpectedToken('1')));
    assert!(Number::from_literal("1e").is_none());
    assert!(Number::from_literal("-0.5E-10").is_some());
}

#[test]
fn number_parser_reports_pending_states() {
    let mut p = NumberParser::new();
    assert!(p.get_result().is_err());
    assert_eq!(p.push_token('-'), Ok(()));
    assert_eq!(p.get_result(), Err(ParseError::UnexpectedToken('-')));
    assert_eq!(p.push_token('7'), Ok(()));
    assert_eq!(p.get_result().unwrap().as_str(), "-7");
    assert_eq!(p.push_token('x'), Err(ParseError::UnexpectedToken('x')));
    assert_eq!(p.push_token('8'), Err(ParseError::UnexpectedToken('x')));
    assert_eq!(p.get_result(), Err(ParseError::UnexpectedToken('x')));
}

#[test]
fn lib_parse_an_empty_string() {
    assert_eq!(&parse_string("\"\"").unwrap(), "");
}

#[test]
fn lib_parse_a_non_empty_string() {
    assert_eq!(&parse_string("\"foobar\"").unwrap(), "foobar");
}

#[test]
fn lib_parse_strings_with_escapes() {
    assert_eq!(&parse_string("\"\\n\"").unwrap(), "\n");
    assert_eq!(&parse_string("\"\\u0041\"").unwrap(), "A");
}

#[test]
fn string_parse_an_empty_string() {
    assert_eq!(&parse_string("\"\"").unwrap(), "");
}

#[test]
fn string_parse_a_non_empty_string() {
    assert_eq!(&parse_string("\"foobar\"").unwrap(), "foobar");
}

#[test]
fn string_parse_strings_with_escapes() {
    assert_eq!(&parse_string("\"\\n\"").unwrap(), "\n");
    assert_eq!(&parse_string("\"\\u0041\"").unwrap(), "A");
}

#[test]
fn parse_unterminated_string_fails() {
    assert!(parse_string("\"unterminated string").is_err());
}

#[test]
fn parse_nothingness_fails() {
    assert!(parse_string("").is_err());
}

#[test]
fn parse_invalid_escape_sequence_fails() {
    assert!(parse_string("\\h").is_err());
}

#[test]
fn string_errors_and_escapes() {
    assert_eq!(parse_string(""), Err(ParseError::EmptyStringGiven));
    assert_eq!(parse_string("\"abc"), Err(ParseError::UnterminatedToken('"')));
    assert_eq!(parse_string("\"a\\h\""), Err(ParseError::UnexpectedToken('h')));
    assert_eq!(parse_string("\"a\"b"), Err(ParseError::UnexpectedToken('b')));
    assert_eq!(parse_string("\"\\ud800\""), Err(ParseError::InvalidUnicodeChar(0xD800)));
    assert_eq!(parse_string("\"\\u00g1\""), Err(ParseError::UnexpectedToken('g')));
    assert_eq!(parse_string("\"a\nb\""), Err(ParseError::UnexpectedToken('\n')));
    assert_eq!(
        parse_string("\"\\\"\\\\\\/\\b\\f\\n\\r\\t\\u00e9\\u20AC\"").unwrap(),
        "\"\\/\u{8}\u{c}\n\r\té€"
    );
}

#[test]
fn string_parser_steps() {
    let mut p = StringParser::new();
    assert_eq!(p.get_result(), Err(ParseError::EmptyStringGiven));
    assert_eq!(p.push_token('"'), Ok(()));
    assert_eq!(p.push_token('x'), Ok(()));
    assert_eq!(p.get_result(), Err(ParseError::UnterminatedToken('"')));
    assert_eq!(p.push_token('"'), Ok(()));
    assert_eq!(p.get_result().unwrap(), "x");
    assert_eq!(p.push_token('y'), Err(ParseError::UnexpectedToken('y')));
    assert_eq!(p.get_result(), Err(ParseError::UnexpectedToken('y')));
}

#[test]
fn string_parser_errors_are_final() {
    let mut p = StringParser::new();
    assert_eq!(p.push_token('x'), Err(ParseError::UnexpectedToken('x')));
    assert_eq!(p.push_token('"'), Err(ParseError::UnexpectedToken('x')));
    assert_eq!(p.push_token('"'), Err(ParseError::UnexpectedToken('x')));
    assert_eq!(p.get_result(), Err(ParseError::UnexpectedToken('x')));
}

#[test]
fn nil_parser_fails_everything() {
    assert!(NilParser::parse("").is_err());
    assert_eq!(NilParser::parse("x"), Err(ParseError::UnexpectedToken('x')));
    let mut p = NilParser::new();
    assert_eq!(p.push_token('a'), Err(ParseError::UnexpectedToken('a')));
    assert_eq!(p.get_result(), Err(ParseError::EmptyStringGiven));
}

#[test]
fn invalid_objects_fail() {
    assert!(parse("[").is_err());
    assert!(parse("{a").is_err());
}

#[test]
fn empty_containers_parse() {
    assert_eq!(parse("{}"), Ok(Value::Object(Vec::new())));
    assert_eq!(parse("[]"), Ok(Value::Array(Vec::new())));
}

#[test]
fn array_of_four_numbers_parses() {
    assert_eq!(parse("[1,2,3,4]"), Ok(Value::Array(vec![num(1), num(2), num(3), num(4)])));
}

#[test]
fn strings_with_escapes_parse() {
    assert_eq!(parse("\"a\\nb\""), Ok(Value::String("a\nb".to_string())));
    assert_eq!(parse("\"\\u0041\""), Ok(Value::String("A".to_string())));
}

#[test]
fn numbers_parse_and_fail() {
    assert_eq!(parsed_number("-32"), -32.0);
    assert_eq!(parsed_number("4.5e1"), 45.0);
    assert_eq!(parsed_number("6E-1"), 0.6);
    assert!(parse("0.").is_err());
    assert!(parse("--").is_err());
    assert!(parse("1.2e1.0").is_err());
    assert!(parse("0.0.0").is_err());
}

#[test]
fn incremental_feeding_reports_after_each_character() {
    let mut p = JsonParser::new();
    let input: Vec<char> = "[1,2]".chars().collect();
    for (i, c) in input.iter().enumerate() {
        let r = p.push(*c);
        if i + 1 < input.len() {
            assert_eq!(r, Progress::Incomplete);
        } else {
            assert_eq!(r, Progress::Complete(Value::Array(vec![num(1), num(2)])));
        }
    }
    assert_eq!(p.finish(), Ok(Value::Array(vec![num(1), num(2)])));
}

#[test]
fn depth_limit_is_reported() {
    let deep: String = "[".repeat(200);
    assert_eq!(parse(&deep), Err(ParseError::DepthLimitExceeded));
    assert_eq!(parse_with_max_depth("[[[]]]", 2), Err(ParseError::DepthLimitExceeded));
    assert_eq!(
        parse_with_max_depth("[[]]", 2),
        Ok(Value::Array(vec![Value::Array(Vec::new())]))
    );
    let very_deep: String = "[".repeat(100000);
    assert_eq!(parse(&very_deep), Err(ParseError::DepthLimitExceeded));
}

#[test]
fn whitespace_between_tokens_is_skipped() {
    let v = parse(" { \"a\" : [ 1 , true ] ,\n\t\"b\" : null } \r\n").unwrap();
    assert_eq!(
        v,
        Value::Object(vec![
            ("a".to_string(), Value::Array(vec![num(1), Value::Boolean(true)])),
            ("b".to_string(), Value::Null),
        ])
    );
    assert_eq!(parse(" 12 "), Ok(num(12)));
}

#[test]
fn duplicate_keys_keep_the_last_value() {
    assert_eq!(
        parse("{\"a\":1,\"b\":2,\"a\":3}"),
        Ok(Value::Object(vec![("a".to_string(), num(3)), ("b".to_string(), num(2))]))
    );
}

#[test]
fn parse_errors_by_kind() {
    assert_eq!(parse(""), Err(ParseError::EmptyStringGiven));
    assert_eq!(parse("   "), Err(ParseError::UnexpectedEndOfInput));
    assert_eq!(parse("tru"), Err(ParseError::UnexpectedEndOfInput));
    assert_eq!(parse("[1,2"), Err(ParseError::UnterminatedToken(']')));
    assert_eq!(parse("{\"a\":1"), Err(ParseError::UnterminatedToken('}')));
    assert_eq!(parse("[\"ab"), Err(ParseError::UnterminatedToken('"')));
    assert_eq!(parse("[1,]"), Err(ParseError::UnexpectedToken(']')));
    assert_eq!(parse("nul1"), Err(ParseError::UnexpectedToken('1')));
    assert_eq!(parse("[1] 2"), Err(ParseError::UnexpectedToken('2')));
    assert_eq!(parse("{1:2}"), Err(ParseError::UnexpectedToken('1')));
    assert_eq!(parse("\"\\udfff\""), Err(ParseError::InvalidUnicodeChar(0xDFFF)));
    assert_eq!(parse("x"), Err(ParseError::UnexpectedToken('x')));
}

#[test]
fn literals_parse() {
    assert_eq!(parse("null"), Ok(Value::Null));
    assert_eq!(parse("true"), Ok(Value::Boolean(true)));
    assert_eq!(parse("[false]"), Ok(Value::Array(vec![Value::Boolean(false)])));
}

#[test]
fn round_trip_examples() {
    let v = Value::Object(vec![
        ("name".to_string(), Value::String("J\"a\\m\u{1}es\n".to_string())),
        ("list".to_string(), Value::Array(vec![num(-1), Value::Null, Value::Array(Vec::new())])),
        ("n".to_string(), Value::Number(Number::from_literal("-0.5e+7").unwrap())),
        ("o".to_string(), Value::Object(vec![("x".to_string(), Value::Boolean(false))])),
    ]);
    assert_eq!(parse(&v.to_json()), Ok(v.duplicate()));
    let s = Value::String("é€\u{1F600}".to_string());
    assert_eq!(parse(&s.to_json()), Ok(s.duplicate()));
}

#[test]
fn failed_parser_stays_failed() {
    let mut p = JsonParser::new();
    assert_eq!(p.push('x'), Progress::Error(ParseError::UnexpectedToken('x')));
    assert_eq!(p.push('1'), Progress::Error(ParseError::UnexpectedToken('x')));
    assert_eq!(p.finish(), Err(ParseError::UnexpectedToken('x')));
}

#[test]
fn top_level_number_completes_at_finish() {
    let mut p = JsonParser::new();
    assert_eq!(p.push('4'), Progress::Incomplete);
    assert_eq!(p.push('2'), Progress::Incomplete);
    assert_eq!(p.finish(), Ok(num(42)));
}

#[test]
fn token_limit_is_reported() {
    assert_eq!(parse_with_limits("\"abc\"", 8, 3), Ok(Value::String("abc".to_string())));
    assert_eq!(parse_with_limits("\"abcd\"", 8, 3), Err(ParseError::TokenTooLong));
    assert_eq!(parse_with_limits("\"\\u0041bc\"", 8, 3), Ok(Value::String("Abc".to_string())));
    assert_eq!(parse_with_limits("123", 8, 3), Ok(num(123)));
    assert_eq!(parse_with_limits("[1234]", 8, 3), Err(ParseError::TokenTooLong));
    assert_eq!(parse_with_limits("{\"long\":1}", 8, 3), Err(ParseError::TokenTooLong));
    assert_eq!(parse_with_limits("7", 8, 0), Err(ParseError::TokenTooLong));
}

#[test]
fn parsed_values_are_well_formed() {
    let v = parse("{\"a\":[1,{\"b\":2,\"b\":3}],\"a\":null}").unwrap();
    assert!(v.is_well_formed());
}
