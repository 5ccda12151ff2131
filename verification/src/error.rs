use vstd::prelude::*;

verus! {

/// Why a ranking or a configuration was refused.
#[derive(Clone, Copy, Debug, PartialEq, Eq, Structural)]
pub enum RboError {
    /// A ranking names the same identifier more than once.
    DuplicateIdentifier,
    /// A comparison parameter lies outside its valid range.
    InvalidParameter,
}

impl RboError {
    /// A short description of the error, fit for showing to a caller.
    pub fn message(&self) -> (text: &'static str)
        ensures
            text@ == match *self {
                RboError::DuplicateIdentifier => "ranked list contains duplicate ids"@,
                RboError::InvalidParameter => "parameter outside its valid range"@,
            },
    {
        match self {
            RboError::DuplicateIdentifier => "ranked list contains duplicate ids",
            RboError::InvalidParameter => "parameter outside its valid range",
        }
    }
}

} // verus!
