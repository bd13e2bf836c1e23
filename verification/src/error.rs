//! Errors of the store.
use vstd::prelude::*;
use vstd::string::*;
use crate::text;

verus! {

/// Why an operation of the store did not succeed.
#[derive(Debug)]
pub enum IcmError {
    /// The database refused a statement.
    Database(String),
    /// There is no such item.
    NotFound(String),
    /// The caller's input breaks a rule of the store.
    InvalidInput(String),
    /// The store was opened read-only; the name of the refused operation.
    ReadOnly(String),
}

/// The outcome of an operation of the store.
pub type IcmResult<T> = Result<T, IcmError>;

/// The mathematical reading of an error.
#[verifier::ext_equal]
pub enum ErrorV {
    Database(Seq<char>),
    NotFound(Seq<char>),
    InvalidInput(Seq<char>),
    ReadOnly(Seq<char>),
}

impl View for IcmError {
    type V = ErrorV;

    open spec fn view(&self) -> ErrorV {
        match self {
            IcmError::Database(m) => ErrorV::Database(m@),
            IcmError::NotFound(m) => ErrorV::NotFound(m@),
            IcmError::InvalidInput(m) => ErrorV::InvalidInput(m@),
            IcmError::ReadOnly(op) => ErrorV::ReadOnly(op@),
        }
    }
}

/// A `Database` error with the given message.
pub fn db_err(message: &str) -> (r: IcmError)
    ensures
        r@ == ErrorV::Database(message@),
{
    IcmError::Database(message.to_owned())
}

/// Whether a database message says that a table is missing.
pub fn is_missing_table(message: &str) -> (r: bool)
    ensures
        r == text::has_part(message@, "no such table"@),
{
    text::contains_text(message, "no such table")
}

/// The reading of an error tells its kind and its text.
pub proof fn lemma_errors_are_read_as_they_are(s: String)
    ensures
        IcmError::Database(s)@ == ErrorV::Database(s@),
        IcmError::NotFound(s)@ == ErrorV::NotFound(s@),
        IcmError::InvalidInput(s)@ == ErrorV::InvalidInput(s@),
        IcmError::ReadOnly(s)@ == ErrorV::ReadOnly(s@),
{
}

} // verus!
