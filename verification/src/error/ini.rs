//! Malformed INI input, located within the text.

use vstd::prelude::*;

use crate::error::{location_offset, source_offset, LabeledSpan};

verus! {

broadcast use vstd::string::group_string_axioms;

/// A parse failure of INI input: the parser's message, the input, and the
/// byte offset of the character at which the parser stopped.
#[derive(Debug)]
pub struct IniError {
    /// The reason that the input could not be parsed, without a position prefix.
    pub message: String,
    /// The input that caused the error.
    pub input: String,
    /// The byte offset at which the error occurred; the label covers one byte there.
    pub offset: usize,
}

impl IniError {
    /// The error for `input` that the parser rejected at 1-based `line` and
    /// `column` with `message`. The parser only reports where it gave up, so
    /// the location covers the single character that it stopped at.
    pub fn from(input: String, line: usize, column: usize, message: String) -> (error: IniError)
        ensures
            error.message@ == message@,
            error.input@ == input@,
            error.offset == location_offset(input@, line, column),
    {
        let offset = source_offset(input.as_str(), line, column);
        IniError { message, input, offset }
    }

    /// The message describing this error.
    pub fn to_string(&self) -> (text: String)
        ensures
            text@ == "malformed ini"@,
    {
        String::from_str("malformed ini")
    }

    /// The labelled location of this error: one byte at its offset, labelled
    /// with the parser's message.
    pub fn labels(&self) -> (labels: Option<Vec<LabeledSpan>>)
        ensures
            labels matches Some(v) && v@.len() == 1 && v@[0].label_text() == Some(self.message@)
                && v@[0].offset_spec() == self.offset && v@[0].len_spec() == 1,
    {
        let mut labels = Vec::new();
        labels.push(LabeledSpan::new(Some(self.message.clone()), self.offset, 1));
        Some(labels)
    }
}

} // verus!
