//! Reasons for which a call on the receipt log is rejected.

use vstd::prelude::*;

verus! {

/// Why the receipt log rejected a call. A rejected call changes nothing.
#[derive(Clone, Copy, Debug, PartialEq, Eq)]
pub enum PaymentsError {
    /// The log already has an administrator.
    AlreadyInitialized,
    /// The log has no administrator yet.
    AdminNotSet,
    /// The call was not authorised by the administrator.
    NotAuthorized,
    /// The amount of a receipt must be positive.
    InvalidAmount,
    /// The page size must be between 1 and 100.
    InvalidLimit,
    /// The counter that numbers receipts cannot go further.
    CounterExhausted,
}

impl PaymentsError {
    /// The text of the rejection.
    pub open spec fn spec_message(self) -> Seq<char> {
        match self {
            PaymentsError::AlreadyInitialized => "already initialized"@,
            PaymentsError::AdminNotSet => "admin not set"@,
            PaymentsError::NotAuthorized => "not authorized"@,
            PaymentsError::InvalidAmount => "amount must be positive"@,
            PaymentsError::InvalidLimit => "limit must be between 1 and 100"@,
            PaymentsError::CounterExhausted => "counter exhausted"@,
        }
    }

    /// The text of the rejection.
    pub fn message(&self) -> (text: &'static str)
        ensures
            text@ == self.spec_message(),
    {
        match self {
            PaymentsError::AlreadyInitialized => "already initialized",
            PaymentsError::AdminNotSet => "admin not set",
            PaymentsError::NotAuthorized => "not authorized",
            PaymentsError::InvalidAmount => "amount must be positive",
            PaymentsError::InvalidLimit => "limit must be between 1 and 100",
            PaymentsError::CounterExhausted => "counter exhausted",
        }
    }
}

} // verus!
