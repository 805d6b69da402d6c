//! A JSON value model with an incremental, character-at-a-time parser and a
//! canonical encoder, verified with Verus.
use vstd::prelude::*;

pub mod error;
pub mod value;
pub mod text;
pub mod number;
pub mod string;
pub mod machine;
pub mod parser;
pub mod encode;
pub mod nil;
pub mod person;
pub mod laws;
pub mod roundtrip;
pub mod output;

pub use error::ParseError;
pub use nil::NilParser;
pub use number::NumberParser;
pub use parser::{
    DEFAULT_MAX_DEPTH, DEFAULT_MAX_TOKEN_LEN, JsonParser, Progress, parse, parse_with_limits,
    parse_with_max_depth,
};
pub use person::Person;
pub use string::{StringParser, parse_string};
pub use value::{Number, Value};

verus! {

} // verus!
