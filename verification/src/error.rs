//! What an encoder refuses.

use crate::text::{decimal, push_decimal};
use vstd::prelude::*;
use vstd::string::StringExecFns;

verus! {

/// Why an encoder refused its input. Each kind is a broken invariant of the
/// format, not a fault of the data source.
#[derive(Debug, Clone, Copy, PartialEq, Eq)]
pub enum EncodeError {
    /// A count or an offset does not fit the field that the format gives it.
    TooLarge,
    /// A row with a number of values other than the number of columns.
    RowArity { expected: usize, found: usize },
    /// A value of the wrong kind for its column; `column` is the first such
    /// column, counted from zero.
    ValueType { column: usize },
    /// A file that was declared with one number of rows and given another.
    RowCount { declared: usize, written: usize },
}

impl EncodeError {
    /// The text of the message.
    pub open spec fn message_text(self) -> Seq<char> {
        match self {
            EncodeError::TooLarge => "Too large for the file format"@,
            EncodeError::RowArity { expected, found } => "Expected "@ + decimal(expected as nat)
                + " values, got "@ + decimal(found as nat),
            EncodeError::ValueType { column } => "Wrong kind of value in column "@ + decimal(
                column as nat,
            ),
            EncodeError::RowCount { declared, written } => "Expected "@ + decimal(declared as nat)
                + " rows, got "@ + decimal(written as nat),
        }
    }

    /// A short message for the user.
    pub fn message(&self) -> (text: String)
        ensures
            text@ == self.message_text(),
    {
        match self {
            EncodeError::TooLarge => "Too large for the file format".to_owned(),
            EncodeError::RowArity { expected, found } => {
                let mut text = "Expected ".to_owned();
                push_decimal(&mut text, *expected);
                text.append(" values, got ");
                push_decimal(&mut text, *found);
                text
            },
            EncodeError::ValueType { column } => {
                let mut text = "Wrong kind of value in column ".to_owned();
                push_decimal(&mut text, *column);
                text
            },
            EncodeError::RowCount { declared, written } => {
                let mut text = "Expected ".to_owned();
                push_decimal(&mut text, *declared);
                text.append(" rows, got ");
                push_decimal(&mut text, *written);
                text
            },
        }
    }
}

} // verus!
