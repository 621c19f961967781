//! Error values: lexical/structural parse failures, path-conflict validation
//! failures, and the wrappers the surrounding application uses for file and
//! encoding failures.

use vstd::prelude::*;

verus! {

/// An error from parsing or from a path-addressed document operation.
#[derive(Debug)]
pub enum AdfError {
    /// A lexical or structural failure, with its source line.
    ParseError { line: usize, message: String, context: Option<String> },
    /// A nested-path type conflict during set or merge.
    ValidationError { path: String, message: String },
    /// A failure reading an external file, as reported by the caller.
    IoError(String),
    /// Invalid character data, as reported by the caller.
    EncodingError(String),
    /// Any other failure.
    Other(String),
}

impl AdfError {
    /// A `ParseError` without context.
    pub fn parse_error(line: usize, message: String) -> (r: AdfError)
        ensures
            r == (AdfError::ParseError { line, message, context: Option::<String>::None }),
    {
        AdfError::ParseError { line, message, context: None }
    }

    /// A `ParseError` with context.
    pub fn parse_error_with_context(line: usize, message: String, context: String) -> (r: AdfError)
        ensures
            r == (AdfError::ParseError { line, message, context: Option::Some(context) }),
    {
        AdfError::ParseError { line, message, context: Some(context) }
    }

    /// A `ValidationError`.
    pub fn validation_error(path: String, message: String) -> (r: AdfError)
        ensures
            r == (AdfError::ValidationError { path, message }),
    {
        AdfError::ValidationError { path, message }
    }
}

} // verus!
