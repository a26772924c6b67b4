//! A parser and value model for the SYM notation: a line-oriented notation
//! for nested data, with symbols, numbers in several radices, variables and
//! merge, replace and append semantics for repeated keys.

pub mod bridge;
pub mod convert;
pub mod cursor;
pub mod document;
pub mod error;
pub mod number;
pub mod parser;
pub mod roundtrip;
pub mod scalar;
pub mod structure;
pub mod text;
pub mod value;

pub use error::SymError;
pub use parser::{parse, parse_with_vars, Parser};
pub use structure::KeyModifier;
pub use value::{Entry, Object, Value};
