//! A dynamically typed value, its bracketed text notation, its JSON form,
//! and the byte payload that a value can carry.

pub mod base64_codec;
pub mod binary_util;
pub mod dict;
pub mod document;
pub mod equality;
pub mod grammar;
pub mod grammar_laws;
pub mod json;
pub mod json_laws;
pub mod json_tree;
pub mod number;
pub mod parser;
pub mod render;
pub mod round_trip;
pub mod scan;
pub mod value;

pub use binary_util::Binary;
pub use number::Number;
pub use parser::{ParseError, ValueParser};
pub use value::DValue;
