//! What can go wrong with a request to the ledger.

use vstd::prelude::*;
use vstd::string::*;

verus! {

/// Why the ledger refused a request. A refused request changes nothing.
#[derive(Clone, Copy, Debug, PartialEq, Eq, Structural)]
pub enum LedgerError {
    /// A month or a date was given that is none.
    InvalidInput,
    /// A project was named that the ledger does not hold.
    NotFound,
    /// A project's code was given that another project bears.
    Conflict,
    /// The ledger cannot take what it was asked to hold.
    StoreUnavailable,
}

impl LedgerError {
    /// The error in words.
    pub fn message(&self) -> (r: String)
        ensures
            r@ == (match *self {
                LedgerError::InvalidInput => "invalid month or date"@,
                LedgerError::NotFound => "no such project"@,
                LedgerError::Conflict => "project code already in use"@,
                LedgerError::StoreUnavailable => "ledger store unavailable"@,
            }),
    {
        match self {
            LedgerError::InvalidInput => String::from_str("invalid month or date"),
            LedgerError::NotFound => String::from_str("no such project"),
            LedgerError::Conflict => String::from_str("project code already in use"),
            LedgerError::StoreUnavailable => String::from_str("ledger store unavailable"),
        }
    }
}

} // verus!
