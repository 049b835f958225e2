//! A seller's marketplace listing.

use vstd::prelude::*;

use crate::keys::UserKey;

verus! {

/// One seller's marketplace entry.  Two states: not listed (`is_active`
/// false, and then `price` is zero) and listed at `price`.  Transitions go
/// only through `list_rss_source` and `cancel_list_rss_source`.
#[derive(Clone, Copy, PartialEq, Eq, Structural, Debug)]
pub struct Listing {
    pub seller: UserKey,
    pub price: u64,
    pub is_active: bool,
}

impl Listing {
    /// The initial, inactive listing for `seller`.
    pub fn new(seller: UserKey) -> (r: Listing)
        ensures
            r == (Listing { seller, price: 0, is_active: false }),
    {
        Listing { seller, price: 0, is_active: false }
    }
}

} // verus!
