//! The library's error type.

use vstd::prelude::*;

verus! {

/// What can go wrong while building or writing a column.
#[derive(Debug)]
pub enum Error {
    /// A row's bytes are not valid UTF-8. `row` is the first offending row;
    /// `length` is the byte length of that element, so the offending range is
    /// the whole of row `row`'s storage.
    InvalidUtf8 { row: usize, length: u32 },
    /// The chunk's column count does not match the schema's field count.
    SchemaMismatch { columns: usize, fields: usize },
    /// The chunk's columns do not all have the same number of rows.
    LengthMismatch { column: usize },
    /// The byte sink rejected a write, or the stream outgrew the addressable
    /// offset range.
    WriteFailed,
}

impl Error {
    /// The name of the error's kind, one fixed string per variant.
    pub fn name(&self) -> (r: &'static str)
        ensures
            self is InvalidUtf8 ==> r@ == "InvalidUtf8"@,
            self is SchemaMismatch ==> r@ == "SchemaMismatch"@,
            self is LengthMismatch ==> r@ == "LengthMismatch"@,
            self is WriteFailed ==> r@ == "WriteFailed"@,
    {
        match self {
            Error::InvalidUtf8 { .. } => "InvalidUtf8",
            Error::SchemaMismatch { .. } => "SchemaMismatch",
            Error::LengthMismatch { .. } => "LengthMismatch",
            Error::WriteFailed => "WriteFailed",
        }
    }
}

} // verus!
