//! The exposed operations of the engine: account initialization, listing,
//! purchase and subscription.
//!
//! Each operation validates its preconditions in order and fails fast with
//! the first violated one, before any state is written.  Fund movement is
//! not performed here: a successful payment-bearing operation returns the
//! transfer requests the external payment rail must execute as part of the
//! same unit of work.

use vstd::prelude::*;

use crate::codec::DOCUMENT_CAPACITY;
use crate::codec::DocModel;
use crate::codec::serialize_spec;
use crate::document::RssSource;
use crate::document::default_doc;
use crate::document::merge;
use crate::document::merge_spec;
use crate::errors::ErrorCode;
use crate::keys::UserKey;
use crate::listing::Listing;
use crate::payment::PaymentPolicy;
use crate::payment::TransferRequest;
use crate::payment::fee_of;
use crate::payment::split_payment;
use crate::subscription::DURATION_ONE_MONTH;
use crate::subscription::SubscriptionPrice;
use crate::subscription::Subscriptions;
use crate::subscription::upsert_spec;

verus! {

/// Creates a user's starting state: the default feed-list document with
/// its one sample outline, an inactive listing, an empty subscription
/// ledger, and the advertised monthly price.
pub fn initialize(user: UserKey, price: u64) -> (r: (
    RssSource,
    Listing,
    Subscriptions,
    SubscriptionPrice,
))
    ensures
        r.0.wf(),
        r.0@ == default_doc(),
        r.1 == (Listing { seller: user, price: 0, is_active: false }),
        r.2@ == Seq::<crate::subscription::Subscription>::empty(),
        r.3 == (SubscriptionPrice { price_one_month: price }),
{
    (
        RssSource::default(),
        Listing::new(user),
        Subscriptions::new(),
        SubscriptionPrice { price_one_month: price },
    )
}

/// Puts the document up for sale at `price`.  Zero is permitted.
pub fn list_rss_source(listing: &mut Listing, price: u64)
    ensures
        *final(listing) == (Listing { seller: old(listing).seller, price, is_active: true }),
{
    listing.price = price;
    listing.is_active = true;
}

/// Takes the document off the market and clears the price.
pub fn cancel_list_rss_source(listing: &mut Listing)
    ensures
        *final(listing) == (Listing { seller: old(listing).seller, price: 0, is_active: false }),
{
    listing.price = 0;
    listing.is_active = false;
}

/// Buys the seller's document outright.  Checked in order, first failure
/// wins and nothing is mutated: the listing must be active (`NotListed`),
/// the amount must equal the listed price (`IncorrectAmount`), and the
/// buyer's balance must strictly exceed the amount (`InsufficientBalance`).
/// On success the seller's document is folded into the buyer's (falling
/// back to `DocumentCapacityExceeded` if the union would not fit) and one
/// transfer of the full amount to the seller is issued.  The listing stays
/// active: repeated purchases merge again, which the dedup rule makes
/// harmless.
pub fn purchase_rss_source(
    listing: &Listing,
    amount: u64,
    buyer: UserKey,
    buyer_balance: u64,
    buyer_document: &mut RssSource,
    seller_document: &RssSource,
) -> (r: Result<TransferRequest, ErrorCode>)
    requires
        old(buyer_document).wf(),
        seller_document.wf(),
    ensures
        final(buyer_document).wf(),
        !listing.is_active ==> r == Err::<TransferRequest, ErrorCode>(ErrorCode::NotListed)
            && final(buyer_document)@ == old(buyer_document)@,
        listing.is_active && amount != listing.price ==> r == Err::<TransferRequest, ErrorCode>(
            ErrorCode::IncorrectAmount,
        ) && final(buyer_document)@ == old(buyer_document)@,
        listing.is_active && amount == listing.price && buyer_balance <= amount ==> r == Err::<
            TransferRequest,
            ErrorCode,
        >(ErrorCode::InsufficientBalance) && final(buyer_document)@ == old(buyer_document)@,
        listing.is_active && amount == listing.price && buyer_balance > amount ==> ({
            let m2 = DocModel {
                title: old(buyer_document)@.title,
                outlines: merge_spec(old(buyer_document)@.outlines, seller_document@.outlines),
            };
            if serialize_spec(m2).len() <= DOCUMENT_CAPACITY {
                r == Ok::<TransferRequest, ErrorCode>(
                    TransferRequest { from: buyer, to: listing.seller, amount },
                ) && final(buyer_document)@ == m2
            } else {
                r == Err::<TransferRequest, ErrorCode>(ErrorCode::DocumentCapacityExceeded)
                    && final(buyer_document)@ == old(buyer_document)@
            }
        }),
{
    if !listing.is_active {
        return Err(ErrorCode::NotListed);
    }
    if amount != listing.price {
        return Err(ErrorCode::IncorrectAmount);
    }
    if buyer_balance <= amount {
        return Err(ErrorCode::InsufficientBalance);
    }
    match merge(buyer_document, seller_document) {
        Ok(()) => Ok(TransferRequest { from: buyer, to: listing.seller, amount }),
        Err(e) => Err(e),
    }
}

/// Pays one month of subscription to `seller`.  The buyer's balance must
/// strictly exceed the price (`InsufficientBalance`, nothing mutated).
/// The payment is split by `policy` — under the fee-split policy a five
/// percent platform fee goes to `fee_account`, otherwise everything goes
/// to the seller — and the buyer's ledger gains or extends the record for
/// `seller` as `upsert_spec` describes.
pub fn subscribe(
    buyer: UserKey,
    seller: UserKey,
    fee_account: UserKey,
    price: u64,
    buyer_balance: u64,
    now: i64,
    policy: PaymentPolicy,
    subscriptions_account: &mut Subscriptions,
) -> (r: Result<Vec<TransferRequest>, ErrorCode>)
    requires
        now + DURATION_ONE_MONTH <= i64::MAX,
        forall|i: int|
            0 <= i < old(subscriptions_account)@.len() ==> (#[trigger] old(
                subscriptions_account,
            )@[i]).duration < i64::MAX,
    ensures
        buyer_balance <= price ==> r == Err::<Vec<TransferRequest>, ErrorCode>(
            ErrorCode::InsufficientBalance,
        ) && final(subscriptions_account)@ == old(subscriptions_account)@,
        buyer_balance > price ==> {
            &&& final(subscriptions_account)@ == upsert_spec(
                old(subscriptions_account)@,
                seller,
                now,
            )
            &&& policy is FeeSplit ==> (r matches Ok(ts) && ts@ == seq![
                TransferRequest {
                    from: buyer,
                    to: seller,
                    amount: (price - fee_of(price)) as u64,
                },
                TransferRequest { from: buyer, to: fee_account, amount: fee_of(price) as u64 },
            ])
            &&& !(policy is FeeSplit) ==> (r matches Ok(ts) && ts@ == seq![
                TransferRequest { from: buyer, to: seller, amount: price },
            ])
        },
{
    if buyer_balance <= price {
        return Err(ErrorCode::InsufficientBalance);
    }
    let split = split_payment(policy, price);
    let mut transfers: Vec<TransferRequest> = Vec::new();
    transfers.push(TransferRequest { from: buyer, to: seller, amount: split.0 });
    match policy {
        PaymentPolicy::FeeSplit => {
            transfers.push(TransferRequest { from: buyer, to: fee_account, amount: split.1 });
            proof {
                assert(transfers@ =~= seq![
                    TransferRequest {
                        from: buyer,
                        to: seller,
                        amount: (price - fee_of(price)) as u64,
                    },
                    TransferRequest {
                        from: buyer,
                        to: fee_account,
                        amount: fee_of(price) as u64,
                    },
                ]);
            }
        },
        _ => {
            proof {
                assert(transfers@ =~= seq![
                    TransferRequest { from: buyer, to: seller, amount: price },
                ]);
            }
        },
    }
    subscriptions_account.record_payment(seller, now);
    Ok(transfers)
}

} // verus!
