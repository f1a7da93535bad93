//! The failure taxonomy: every operation of the engine reports its failures
//! as one of these recoverable, typed values.

use vstd::prelude::*;

verus! {

/// Why a statement, an evaluation or a storage operation was refused.
#[derive(Debug, Clone, PartialEq)]
pub enum Error {
    /// A meta command line that names no known command.
    InvalidMetaCommand(String),
    /// An input/output failure at the snapshot boundary, as text.
    IOError(String),
    /// A snapshot that could not be decoded back into a database.
    DeserializingError(String),
    /// A statement that could not be parsed, as text.
    ParsingError(String),
    /// A type or shape mismatch in a query.
    InvalidQuery(String),
    /// A named column that the target table does not have.
    ColumnNotFound { col: String, table: String },
    /// An action that is recognized but not allowed.
    InvalidOperation(String),
    /// A statement that names a table the database does not have.
    TableNotFound(String),
    /// A table creation under a name that is already taken.
    TableAlreadyExists(String),
    /// A recognized but unimplemented construct.
    Unsupported(String),
    /// An expression that cannot be evaluated in its context.
    EvaluationError(String),
    Unknown,
}

} // verus!
