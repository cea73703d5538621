//! The ways in which a store operation can fail.

use vstd::prelude::*;

verus! {

/// Why a store operation was refused or could not be carried out.
#[derive(Clone, Copy, Debug, PartialEq, Eq, Structural)]
pub enum StoreError {
    /// The store could not be opened or reached.
    Connection,
    /// A row with the same title and project is already present.
    Constraint,
    /// A stored row does not hold text where text is expected.
    RowAccess,
    /// The hand-over between the readers of note files and the writer broke.
    Channel,
}

impl StoreError {
    /// A short description of the failure, for messages to the user.
    pub fn message(&self) -> (text: &'static str)
        ensures
            text@ == match *self {
                StoreError::Connection => "the store could not be reached"@,
                StoreError::Constraint => "a note with this title and project is already stored"@,
                StoreError::RowAccess => "a stored row is malformed"@,
                StoreError::Channel => "the rebuild pipeline broke down"@,
            },
    {
        match self {
            StoreError::Connection => "the store could not be reached",
            StoreError::Constraint => "a note with this title and project is already stored",
            StoreError::RowAccess => "a stored row is malformed",
            StoreError::Channel => "the rebuild pipeline broke down",
        }
    }
}

} // verus!
