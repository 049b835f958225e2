//! Identity keys.

use vstd::prelude::*;

verus! {

/// An identity key of the surrounding ledger.  The engine never inspects a
/// key: it only compares keys for equality and hands them back in transfer
/// requests and subscription records, so a key is held as one opaque number.
#[derive(Clone, Copy, PartialEq, Eq, Structural, Debug, Hash)]
pub struct UserKey {
    pub id: u64,
}

impl UserKey {
    /// The key with the given raw value.
    pub fn new(id: u64) -> (r: UserKey)
        ensures
            r.id == id,
    {
        UserKey { id }
    }
}

} // verus!
