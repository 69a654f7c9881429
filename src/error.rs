use vstd::prelude::*;

verus! {

/// The kinds of failure that the library reports to its callers.
#[derive(Clone, Copy, Debug, PartialEq, Eq, Structural)]
pub enum DbError {
    /// Duplicate table name, unknown column, or a row that does not fit the columns.
    Schema,
    /// A row with the same primary key is already stored.
    KeyConflict,
    /// A secondary index already maps the row's indexed values.
    IndexIntegrity,
    /// Stored or given bytes are truncated or malformed.
    Decoding,
    /// The key-value store reported a failure.
    Store,
    /// Operands of an operator have types that it does not accept.
    Type,
    /// Division by zero, or a result outside the 64-bit range.
    Arithmetic,
    /// A string whose UTF-8 form is longer than 255 bytes cannot be encoded.
    TooLong,
}

} // verus!
