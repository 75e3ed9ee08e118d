//! The failure taxonomy of the contract.

use vstd::prelude::*;

verus! {

/// Every way a request can fail. Each failure is terminal for the request:
/// a mutating operation either fully applies its state change or none of it.
///
/// `NotAdmin` and `NotOnTheBlacklist` are part of the taxonomy but are not
/// returned by any current operation: admin and hook checks surface as
/// `Unauthorized`, and removing an absent address from the blacklist is a
/// no-op rather than an error.
#[derive(Clone, Copy, Debug, PartialEq, Eq, Structural)]
pub enum ContractError {
    /// The caller lacks the required capability: admin or blacklist
    /// mutation by a non-admin, or an opponent response sent by anyone but
    /// the challenged opponent.
    Unauthorized {},
    /// Reserved: the caller is not the administrator.
    NotAdmin {},
    /// A game already exists for this exact (host, opponent) pair.
    OneGameAtATime {},
    /// No game exists for the requested (host, opponent) pair.
    NoGameFound {},
    /// The would-be host is on the blacklist.
    OnTheBlacklist {},
    /// Reserved: the given address is not on the blacklist.
    NotOnTheBlacklist {},
}

impl ContractError {
    /// The human-readable text of this error.
    pub fn text(&self) -> (r: &'static str)
        ensures
            r@ == self.spec_text(),
    {
        match self {
            ContractError::Unauthorized {} => "Unauthorized",
            ContractError::NotAdmin {} => "Caller is not admin",
            ContractError::OneGameAtATime {} => {
                "Only One Game At A Time For The Same Host And Opponent"
            },
            ContractError::NoGameFound {} => "No Game Found",
            ContractError::OnTheBlacklist {} => {
                "Given Address Already Registered On The Blacklist"
            },
            ContractError::NotOnTheBlacklist {} => {
                "Given Address Is Not Registered On The Blacklist"
            },
        }
    }

    /// The text each error carries.
    pub open spec fn spec_text(&self) -> Seq<char> {
        match self {
            ContractError::Unauthorized {} => "Unauthorized"@,
            ContractError::NotAdmin {} => "Caller is not admin"@,
            ContractError::OneGameAtATime {} => {
                "Only One Game At A Time For The Same Host And Opponent"@
            },
            ContractError::NoGameFound {} => "No Game Found"@,
            ContractError::OnTheBlacklist {} => {
                "Given Address Already Registered On The Blacklist"@
            },
            ContractError::NotOnTheBlacklist {} => {
                "Given Address Is Not Registered On The Blacklist"@
            },
        }
    }
}

} // verus!
