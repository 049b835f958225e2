//! The failure kinds that the engine's operations report.

use vstd::prelude::*;

verus! {

/// Every operation fails fast with one of these kinds, before any state is
/// written; each kind carries a fixed human-readable message.
#[derive(Clone, Copy, PartialEq, Eq, Structural, Debug)]
pub enum ErrorCode {
    /// A purchase was attempted against a listing that is not active.
    NotListed,
    /// The amount offered for a purchase differs from the listed price.
    IncorrectAmount,
    /// The payer's balance does not strictly exceed the amount due.
    InsufficientBalance,
    /// The presence registry already holds its maximum number of users.
    MaxUsersReached,
    /// A byte buffer is not a well-formed feed-list document, or an outline
    /// field holds a byte that cannot appear in well-formed markup.
    DocumentCorrupt,
    /// A serialized document would exceed the fixed document capacity.
    DocumentCapacityExceeded,
}

impl ErrorCode {
    /// The fixed message for this failure kind.
    pub fn message(&self) -> (m: &'static str)
        ensures
            *self is NotListed ==> m@ == "not listed"@,
            *self is IncorrectAmount ==> m@ == "incorrect amount"@,
            *self is InsufficientBalance ==> m@ == "Insufficient balance."@,
            *self is MaxUsersReached ==> m@ == "Max users reached."@,
            *self is DocumentCorrupt ==> m@ == "Document corrupt."@,
            *self is DocumentCapacityExceeded ==> m@ == "Document capacity exceeded."@,
    {
        match self {
            ErrorCode::NotListed => "not listed",
            ErrorCode::IncorrectAmount => "incorrect amount",
            ErrorCode::InsufficientBalance => "Insufficient balance.",
            ErrorCode::MaxUsersReached => "Max users reached.",
            ErrorCode::DocumentCorrupt => "Document corrupt.",
            ErrorCode::DocumentCapacityExceeded => "Document capacity exceeded.",
        }
    }
}

} // verus!
