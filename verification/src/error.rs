//! The reasons for which a parse is given up.

use vstd::prelude::*;

verus! {

/// A violation of the grammar. A parse stops at the first one.
#[derive(Clone, Copy, Debug, PartialEq, Eq, Structural)]
pub enum ParseError {
    /// A colon stands where a label should start.
    EmptyLabel,
    /// A byte that is neither a label byte nor a colon stands in a label.
    InvalidLabelByte,
    /// The stream ends before the colon that closes a label.
    UnterminatedLabel,
    /// A NUL byte stands in a value.
    InvalidValueByte,
    /// A carriage return is not followed by a line feed.
    DanglingCarriageReturn,
}

impl ParseError {
    /// The text of the description of each error.
    pub open spec fn message_text(self) -> Seq<char> {
        match self {
            ParseError::EmptyLabel => "label is empty"@,
            ParseError::InvalidLabelByte => "invalid byte detected in field label"@,
            ParseError::UnterminatedLabel => "EOF while parsing field label"@,
            ParseError::InvalidValueByte => "invalid byte detected in field value"@,
            ParseError::DanglingCarriageReturn => "CR detected, but not provided with LF"@,
        }
    }

    /// A description of the error for people to read.
    pub fn message(&self) -> (text: &'static str)
        ensures
            text@ == self.message_text(),
    {
        match self {
            ParseError::EmptyLabel => "label is empty",
            ParseError::InvalidLabelByte => "invalid byte detected in field label",
            ParseError::UnterminatedLabel => "EOF while parsing field label",
            ParseError::InvalidValueByte => "invalid byte detected in field value",
            ParseError::DanglingCarriageReturn => "CR detected, but not provided with LF",
        }
    }
}

} // verus!
