//! Verified state engine for a small marketplace of RSS feed lists.
//!
//! Users keep a feed-list document (an ordered list of outlines serialized
//! as a markup byte buffer), may list it for sale, and may pay to subscribe
//! to or purchase another user's list.  This crate holds the document codec,
//! the document store with its add/remove/merge operations, the listing and
//! purchase rules, the subscription time accounting, the payment-split
//! policy, and the bounded presence registry.  Identity resolution, the
//! serializing ledger and the payment rail are external collaborators: the
//! engine receives entities and balances as values and hands transfer
//! requests back.

pub mod codec;
pub mod document;
pub mod errors;
pub mod flows;
pub mod keys;
pub mod listing;
pub mod payment;
pub mod presence;
pub mod responses;
pub mod subscription;

pub use codec::DOCUMENT_CAPACITY;
pub use codec::FeedDocument;
pub use codec::Outline;
pub use codec::parse;
pub use codec::serialize;
pub use document::RssSource;
pub use document::add_item;
pub use document::merge;
pub use document::remove_item;
pub use errors::ErrorCode;
pub use flows::cancel_list_rss_source;
pub use flows::initialize;
pub use flows::list_rss_source;
pub use flows::purchase_rss_source;
pub use flows::subscribe;
pub use keys::UserKey;
pub use listing::Listing;
pub use payment::PaymentPolicy;
pub use payment::TransferRequest;
pub use payment::split_payment;
pub use presence::LoggedInUsers;
pub use presence::MAX_USERS;
pub use presence::add_logged_in_user;
pub use presence::initialize_logged_in_users;
pub use responses::OPMLResponse;
pub use responses::OPMLResponses;
pub use subscription::DURATION_ONE_MONTH;
pub use subscription::Subscription;
pub use subscription::SubscriptionPrice;
pub use subscription::Subscriptions;
pub use subscription::get_active_subscriptions;
