//! The payment-split policy and transfer requests for the payment rail.

use vstd::prelude::*;

use crate::keys::UserKey;

verus! {

/// How an incoming payment is divided between the seller and the platform.
#[derive(Clone, Copy, PartialEq, Eq, Structural, Debug)]
pub enum PaymentPolicy {
    /// The entire price goes to the seller.
    FlatPrice,
    /// A five percent platform fee is deducted; the seller receives the rest.
    FeeSplit,
    /// The marketplace purchase flow: the entire price goes to the seller.
    Marketplace,
}

/// One request for the external payment rail: move `amount` from `from`
/// to `to`.  The engine only issues these; executing them is the rail's.
#[derive(Clone, Copy, PartialEq, Eq, Structural, Debug)]
pub struct TransferRequest {
    pub from: UserKey,
    pub to: UserKey,
    pub amount: u64,
}

/// The platform fee on `price` under the fee-split policy: five percent,
/// by integer floor division.
pub open spec fn fee_of(price: u64) -> int {
    price as int / 20
}

/// Splits `price` into the seller's net amount and the platform fee under
/// `policy`.  For every price and policy the two parts sum back to `price`.
pub fn split_payment(policy: PaymentPolicy, price: u64) -> (r: (u64, u64))
    ensures
        r.0 + r.1 == price,
        policy is FeeSplit ==> r.1 == fee_of(price) && r.0 == price - fee_of(price),
        !(policy is FeeSplit) ==> r.0 == price && r.1 == 0,
{
    match policy {
        PaymentPolicy::FeeSplit => {
            let fee = price / 20;
            (price - fee, fee)
        },
        _ => (price, 0),
    }
}

} // verus!
