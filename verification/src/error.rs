use vstd::prelude::*;

verus! {

/// Why an operation on the store was turned down.
#[derive(Clone, Copy, Debug, PartialEq, Eq, Structural)]
pub enum ContractError {
    /// The referenced id has no record.
    NotFound,
    /// The declared owner is not the owner stored with the record.
    Unauthorized,
}

impl ContractError {
    /// A short text for the error, for messages and logs.
    pub fn message(&self) -> (text: String)
        ensures
            text@ == (match *self {
                ContractError::NotFound => "entry not found"@,
                ContractError::Unauthorized => "Unauthorized"@,
            }),
    {
        match self {
            ContractError::NotFound => "entry not found".to_string(),
            ContractError::Unauthorized => "Unauthorized".to_string(),
        }
    }
}

} // verus!
