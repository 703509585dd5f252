//! Errors of the storage boundary.

use crate::journal::JournalError;
use vstd::prelude::*;

verus! {

/// Source-preserving storage error.
#[derive(Debug, Clone, Copy, PartialEq, Eq)]
pub struct FsError(pub JournalError);

impl From<JournalError> for FsError {
    fn from(error: JournalError) -> (wrapped: FsError) {
        FsError(error)
    }
}

impl vstd::std_specs::convert::FromSpecImpl<JournalError> for FsError {
    open spec fn obeys_from_spec() -> bool {
        true
    }

    open spec fn from_spec(error: JournalError) -> FsError {
        FsError(error)
    }
}

impl FsError {
    /// The underlying journal error.
    pub fn source(&self) -> (error: &JournalError)
        ensures
            *error == self.0,
    {
        &self.0
    }

    /// Extract the underlying journal error.
    pub fn into_journal(self) -> (error: JournalError)
        ensures
            error == self.0,
    {
        self.0
    }
}

/// The answer of storage with its error wrapped.
pub open spec fn fs_answer<T>(answer: Result<T, JournalError>) -> Result<T, FsError> {
    match answer {
        Ok(value) => Ok(value),
        Err(e) => Err(FsError(e)),
    }
}

} // verus!
