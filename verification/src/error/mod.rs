//! Errors that point into the text that caused them.

use vstd::prelude::*;

use crate::text::{char_utf8_len, option_text};

pub mod ini;
pub mod yaml_serde;

verus! {

/// The byte offset that miette gives to a 1-based `line` and `column` of
/// `source`, walking it from line 0, column 0 (a newline starts the next line
/// at column 0): the bytes of the characters before the first position at
/// which `line + 1 >= loc_line` and `column + 1 >= loc_column`, or of the
/// whole text if there is none.
pub open spec fn location_offset_from(
    source: Seq<char>,
    loc_line: int,
    loc_column: int,
    line: int,
    column: int,
) -> nat
    decreases source.len(),
{
    if source.len() == 0 || (line + 1 >= loc_line && column + 1 >= loc_column) {
        0
    } else if source[0] == '\n' {
        char_utf8_len(source[0]) + location_offset_from(source.drop_first(), loc_line, loc_column, line + 1, 0)
    } else {
        char_utf8_len(source[0]) + location_offset_from(
            source.drop_first(),
            loc_line,
            loc_column,
            line,
            column + 1,
        )
    }
}

/// The byte offset of the 1-based `line` and `column` of `source`.
pub open spec fn location_offset(source: Seq<char>, line: usize, column: usize) -> nat {
    location_offset_from(source, line as int, column as int, 0, 0)
}

/// Calls miette's `SourceOffset::from_location`, which converts a 1-based line
/// and column of `source` into a byte offset, as [`location_offset`] states.
#[verifier::external_body]
pub(crate) fn source_offset(source: &str, line: usize, column: usize) -> (offset: usize)
    ensures
        offset == location_offset(source@, line, column),
{
    miette::SourceOffset::from_location(source, line, column).offset()
}

/// A labelled range of bytes within the text that an error points into.
#[derive(Debug, PartialEq, Eq)]
pub struct LabeledSpan {
    label: Option<String>,
    offset: usize,
    length: usize,
}

impl LabeledSpan {
    /// A range of `length` bytes at `offset`, labelled with `label`.
    pub fn new(label: Option<String>, offset: usize, length: usize) -> (span: LabeledSpan)
        ensures
            span.label_text() == option_text(label),
            span.offset_spec() == offset,
            span.len_spec() == length,
    {
        LabeledSpan { label, offset, length }
    }

    /// The label's text, if it has one.
    pub closed spec fn label_text(&self) -> Option<Seq<char>> {
        option_text(self.label)
    }

    /// The byte offset at which the range starts.
    pub closed spec fn offset_spec(&self) -> usize {
        self.offset
    }

    /// The number of bytes in the range.
    pub closed spec fn len_spec(&self) -> usize {
        self.length
    }

    /// The label, if there is one.
    pub fn label(&self) -> (label: Option<&str>)
        ensures
            match label {
                Some(l) => self.label_text() == Some(l@),
                None => self.label_text() is None,
            },
    {
        match &self.label {
            Some(l) => Some(l.as_str()),
            None => None,
        }
    }

    /// The byte offset at which the range starts.
    pub fn offset(&self) -> (offset: usize)
        ensures
            offset == self.offset_spec(),
    {
        self.offset
    }

    /// The number of bytes in the range.
    pub fn len(&self) -> (length: usize)
        ensures
            length == self.len_spec(),
    {
        self.length
    }
}

} // verus!
