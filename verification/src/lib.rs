//! Parser for the ADF configuration language: section headers (absolute or
//! relative), key/value pairs, quoted multiline blocks, constraint
//! annotations, and implicit arrays of scalars or objects, parsed into a
//! path-addressable document tree.

use vstd::prelude::*;

mod chars;
mod document;
mod error;
mod lexer;
mod literals;
mod parser;
mod value;

pub use document::Document;
pub use error::AdfError;
pub use lexer::Lexer;
pub use lexer::Token;
pub use lexer::TokenType;
pub use parser::ParseOptions;
pub use parser::Parser;
pub use parser::parse;
pub use parser::parse_with_options;
pub use value::Value;
pub use value::object_get;

verus! {

} // verus!
