//! Malformed YAML input, located within the text.

use vstd::prelude::*;

use crate::error::{location_offset, source_offset};

verus! {

/// A YAML parse failure: the parser's message, the input, and the byte
/// offset of the location that the parser reported.
#[derive(Debug)]
pub struct YamlSerdeError {
    /// The parser's description of the failure.
    pub cause: String,
    /// The input that caused the error.
    pub input: String,
    /// The byte offset at which the error occurred.
    pub source_offset: usize,
}

impl YamlSerdeError {
    /// The error for `input` that the parser rejected with `cause`, at the
    /// 1-based `(line, column)` location it reported, if it reported one
    /// (otherwise at line 0, column 0).
    pub fn from(input: String, location: Option<(usize, usize)>, cause: String) -> (error: YamlSerdeError)
        ensures
            error.cause@ == cause@,
            error.input@ == input@,
            error.source_offset == match location {
                Some((line, column)) => location_offset(input@, line, column),
                None => location_offset(input@, 0, 0),
            },
    {
        let (line, column) = match location {
            Some(location) => location,
            None => (0, 0),
        };
        let offset = source_offset(input.as_str(), line, column);
        YamlSerdeError { cause, input, source_offset: offset }
    }

    /// The message describing this error.
    pub fn to_string(&self) -> (text: String)
        ensures
            text@ == "malformed yaml"@,
    {
        String::from_str("malformed yaml")
    }
}

} // verus!
