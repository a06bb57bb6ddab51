//! Rows of typed values, and what makes a row fit its columns.

use crate::dictionary::{segments, ColType};
use crate::error::EncodeError;
use vstd::prelude::*;

verus! {

/// One value of a row.
#[derive(Debug, Clone)]
pub enum Value {
    /// A number, as the bits of an IEEE 754 double; `None` is
    /// system-missing.
    Number(Option<u64>),
    /// The bytes of a string, passed through as they are.
    String(Vec<u8>),
}

/// Whether a value is of the kind that its column stores.
pub open spec fn fits(col_type: ColType, value: Value) -> bool {
    match (col_type, value) {
        (ColType::Numeric, Value::Number(_)) => true,
        (ColType::String(_), Value::String(_)) => true,
        _ => false,
    }
}

/// A row is valid under its columns when it has one value per column and
/// each value fits its column.
pub open spec fn row_valid(types: Seq<ColType>, values: Seq<Value>) -> bool {
    &&& values.len() == types.len()
    &&& forall|i: int| 0 <= i < types.len() ==> fits(types[i], #[trigger] values[i])
}

/// What a row check reports: nothing for a valid row; the two counts where
/// they differ; else the first column whose value does not fit.
pub open spec fn row_verdict(
    types: Seq<ColType>,
    values: Seq<Value>,
    verdict: Result<(), EncodeError>,
) -> bool {
    match verdict {
        Ok(_) => row_valid(types, values),
        Err(EncodeError::RowArity { expected, found }) => {
            &&& values.len() != types.len()
            &&& expected == types.len()
            &&& found == values.len()
        },
        Err(EncodeError::ValueType { column }) => {
            &&& values.len() == types.len()
            &&& column < types.len()
            &&& !fits(types[column as int], values[column as int])
            &&& forall|j: int| 0 <= j < column ==> fits(types[j], #[trigger] values[j])
        },
        Err(EncodeError::TooLarge) => false,
        Err(EncodeError::RowCount { .. }) => false,
    }
}

/// The image of a string in a column of width `w`: as many 8-byte segments
/// as the column has, holding the first `w` bytes of the string and spaces
/// after them.
pub open spec fn string_image(bytes: Seq<u8>, w: u16) -> Seq<u8> {
    Seq::new(
        8 * segments(ColType::String(w)),
        |i: int|
            if i < bytes.len() && i < w {
                bytes[i]
            } else {
                0x20u8
            },
    )
}

/// Whether `value` fits a column of type `col_type`.
pub fn value_fits(col_type: &ColType, value: &Value) -> (ok: bool)
    ensures
        ok == fits(*col_type, *value),
{
    match col_type {
        ColType::Numeric => match value {
            Value::Number(_) => true,
            Value::String(_) => false,
        },
        ColType::String(_) => match value {
            Value::Number(_) => false,
            Value::String(_) => true,
        },
    }
}

/// Checks a row against its columns.
pub fn check_row(types: &[ColType], values: &[Value]) -> (verdict: Result<(), EncodeError>)
    ensures
        row_verdict(types@, values@, verdict),
{
    if values.len() != types.len() {
        return Err(EncodeError::RowArity { expected: types.len(), found: values.len() });
    }
    let mut i: usize = 0;
    while i < types.len()
        invariant
            i <= types.len(),
            values.len() == types.len(),
            forall|j: int| 0 <= j < i ==> fits(types@[j], #[trigger] values@[j]),
        decreases types.len() - i,
    {
        if !value_fits(&types[i], &values[i]) {
            return Err(EncodeError::ValueType { column: i });
        }
        i += 1;
    }
    Ok(())
}

} // verus!
