use rssss::DURATION_ONE_MONTH;
use rssss::ErrorCode;
use rssss::PaymentPolicy;
use rssss::Subscription;
use rssss::TransferRequest;
use rssss::UserKey;
use rssss::add_item;
use rssss::add_logged_in_user;
use rssss::get_active_subscriptions;
use rssss::initialize;
use rssss::initialize_logged_in_users;
use rssss::list_rss_source;
use rssss::cancel_list_rss_source;
use rssss::parse;
use rssss::purchase_rss_source;
use rssss::split_payment;
use rssss::subscribe;

#[test]
fn subscription_activity_boundary() {
    let sub = Subscription {
        seller: UserKey::new(7),
        start_time: 0,
        duration: 1,
        last_payment_time: 0,
    };
    assert!(sub.is_active(2591999));
    assert!(!sub.is_active(2592000));
    assert_eq!(DURATION_ONE_MONTH, 2592000);
}

#[test]
fn needs_renewal_negates_activity() {
    let sub = Subscription {
        seller: UserKey::new(7),
        start_time: 1000,
        duration: 2,
        last_payment_time: 1000,
    };
    assert!(!sub.needs_renewal(1000));
    assert!(sub.needs_renewal(1000 + 2 * DURATION_ONE_MONTH));
}

#[test]
fn subscription_active_before_start() {
    let sub = Subscription {
        seller: UserKey::new(7),
        start_time: 5000,
        duration: 1,
        last_payment_time: 5000,
    };
    // times before the start give a negative month count, below duration
    assert!(sub.is_active(0));
}

#[test]
fn update_duration_extends_and_records_payment() {
    let mut sub = Subscription {
        seller: UserKey::new(7),
        start_time: 0,
        duration: 1,
        last_payment_time: 10,
    };
    sub.update_duration(1, 99);
    assert_eq!(sub.duration, 2);
    assert_eq!(sub.last_payment_time, 99);
    assert_eq!(sub.start_time, 0);
}

#[test]
fn fee_split_arithmetic() {
    assert_eq!(split_payment(PaymentPolicy::FeeSplit, 100), (95, 5));
    assert_eq!(split_payment(PaymentPolicy::FlatPrice, 100), (100, 0));
    assert_eq!(split_payment(PaymentPolicy::Marketplace, 100), (100, 0));
    for price in [0u64, 1, 19, 20, 21, 12345, u64::MAX] {
        let (net, fee) = split_payment(PaymentPolicy::FeeSplit, price);
        assert_eq!(net + fee, price);
        assert_eq!(fee, price / 20);
    }
}

#[test]
fn subscribe_creates_a_fresh_record() {
    let buyer = UserKey::new(1);
    let seller = UserKey::new(2);
    let fee_account = UserKey::new(3);
    let (_, _, mut subs, _) = initialize(buyer, 0);
    let transfers = subscribe(
        buyer,
        seller,
        fee_account,
        100,
        200,
        1000,
        PaymentPolicy::FeeSplit,
        &mut subs,
    )
    .unwrap();
    assert_eq!(
        transfers,
        vec![
            TransferRequest { from: buyer, to: seller, amount: 95 },
            TransferRequest { from: buyer, to: fee_account, amount: 5 },
        ]
    );
    assert_eq!(subs.len(), 1);
    let rec = subs.record_at(0);
    assert_eq!(rec.seller, seller);
    assert_eq!(rec.start_time, 1000);
    assert_eq!(rec.duration, 1);
    // a fresh record is stamped one period ahead
    assert_eq!(rec.last_payment_time, 1000 + DURATION_ONE_MONTH);
}

#[test]
fn subscribe_extends_an_existing_record() {
    let buyer = UserKey::new(1);
    let seller = UserKey::new(2);
    let fee_account = UserKey::new(3);
    let (_, _, mut subs, _) = initialize(buyer, 0);
    subscribe(buyer, seller, fee_account, 100, 200, 1000, PaymentPolicy::FeeSplit, &mut subs)
        .unwrap();
    subscribe(buyer, seller, fee_account, 100, 200, 5000, PaymentPolicy::FeeSplit, &mut subs)
        .unwrap();
    assert_eq!(subs.len(), 1);
    let rec = subs.record_at(0);
    assert_eq!(rec.start_time, 1000);
    assert_eq!(rec.duration, 2);
    // an extension is stamped with the payment time itself
    assert_eq!(rec.last_payment_time, 5000);
}

#[test]
fn subscribe_flat_price_sends_everything_to_the_seller() {
    let buyer = UserKey::new(1);
    let seller = UserKey::new(2);
    let fee_account = UserKey::new(3);
    let (_, _, mut subs, _) = initialize(buyer, 0);
    let transfers = subscribe(
        buyer,
        seller,
        fee_account,
        100,
        200,
        1000,
        PaymentPolicy::FlatPrice,
        &mut subs,
    )
    .unwrap();
    assert_eq!(transfers, vec![TransferRequest { from: buyer, to: seller, amount: 100 }]);
}

#[test]
fn subscribe_rejects_insufficient_balance() {
    let buyer = UserKey::new(1);
    let seller = UserKey::new(2);
    let fee_account = UserKey::new(3);
    let (_, _, mut subs, _) = initialize(buyer, 0);
    let r = subscribe(
        buyer,
        seller,
        fee_account,
        100,
        100,
        1000,
        PaymentPolicy::FeeSplit,
        &mut subs,
    );
    assert_eq!(r, Err(ErrorCode::InsufficientBalance));
    assert_eq!(subs.len(), 0);
}

#[test]
fn active_subscriptions_filter_in_ledger_order() {
    let buyer = UserKey::new(1);
    let expired_seller = UserKey::new(2);
    let active_seller = UserKey::new(3);
    let fee_account = UserKey::new(9);
    let (_, _, mut subs, _) = initialize(buyer, 0);
    subscribe(buyer, expired_seller, fee_account, 10, 20, 0, PaymentPolicy::FeeSplit, &mut subs)
        .unwrap();
    let later = 2 * DURATION_ONE_MONTH;
    subscribe(buyer, active_seller, fee_account, 10, 20, later, PaymentPolicy::FeeSplit, &mut subs)
        .unwrap();
    let active = get_active_subscriptions(&subs, later);
    assert_eq!(active, vec![active_seller]);
    let early = get_active_subscriptions(&subs, 0);
    assert_eq!(early, vec![expired_seller, active_seller]);
}

#[test]
fn listing_state_machine() {
    let seller = UserKey::new(2);
    let (_, mut listing, _, _) = initialize(seller, 0);
    assert!(!listing.is_active);
    assert_eq!(listing.price, 0);
    list_rss_source(&mut listing, 100);
    assert!(listing.is_active);
    assert_eq!(listing.price, 100);
    cancel_list_rss_source(&mut listing);
    assert!(!listing.is_active);
    assert_eq!(listing.price, 0);
}

#[test]
fn purchase_rejects_mismatched_amount() {
    let seller = UserKey::new(2);
    let buyer = UserKey::new(1);
    let (seller_doc, mut listing, _, _) = initialize(seller, 0);
    let (mut buyer_doc, _, _, _) = initialize(buyer, 0);
    list_rss_source(&mut listing, 100);
    let before_buyer = buyer_doc.document().clone();
    let before_seller = seller_doc.document().clone();
    let r = purchase_rss_source(&listing, 50, buyer, 1000, &mut buyer_doc, &seller_doc);
    assert_eq!(r, Err(ErrorCode::IncorrectAmount));
    assert_eq!(buyer_doc.document(), &before_buyer);
    assert_eq!(seller_doc.document(), &before_seller);
    assert!(listing.is_active);
    assert_eq!(listing.price, 100);
}

#[test]
fn purchase_rejects_inactive_listing() {
    let seller = UserKey::new(2);
    let buyer = UserKey::new(1);
    let (seller_doc, listing, _, _) = initialize(seller, 0);
    let (mut buyer_doc, _, _, _) = initialize(buyer, 0);
    let r = purchase_rss_source(&listing, 0, buyer, 1000, &mut buyer_doc, &seller_doc);
    assert_eq!(r, Err(ErrorCode::NotListed));
}

#[test]
fn purchase_rejects_insufficient_balance() {
    let seller = UserKey::new(2);
    let buyer = UserKey::new(1);
    let (seller_doc, mut listing, _, _) = initialize(seller, 0);
    let (mut buyer_doc, _, _, _) = initialize(buyer, 0);
    list_rss_source(&mut listing, 100);
    // the balance must strictly exceed the amount
    let r = purchase_rss_source(&listing, 100, buyer, 100, &mut buyer_doc, &seller_doc);
    assert_eq!(r, Err(ErrorCode::InsufficientBalance));
}

#[test]
fn end_to_end_purchase() {
    let seller = UserKey::new(2);
    let buyer = UserKey::new(1);
    let (mut seller_doc, mut listing, _, _) = initialize(seller, 0);
    add_item(
        &mut seller_doc,
        b"seller feed".to_vec(),
        b"http://seller.example/".to_vec(),
        b"http://seller.example/feed".to_vec(),
    )
    .unwrap();
    list_rss_source(&mut listing, 10);
    let (mut buyer_doc, _, _, _) = initialize(buyer, 0);
    let mut buyer_balance: u64 = 25;
    let mut seller_balance: u64 = 0;
    let transfer =
        purchase_rss_source(&listing, 10, buyer, buyer_balance, &mut buyer_doc, &seller_doc)
            .unwrap();
    assert_eq!(transfer, TransferRequest { from: buyer, to: seller, amount: 10 });
    // the payment rail executes the returned request
    buyer_balance -= transfer.amount;
    seller_balance += transfer.amount;
    assert_eq!(buyer_balance, 15);
    assert_eq!(seller_balance, 10);
    // the buyer's document is the union: the shared default outline once,
    // then the seller's extra feed
    let doc = parse(buyer_doc.document()).unwrap();
    assert_eq!(doc.outlines.len(), 2);
    assert_eq!(doc.outlines[0].text, b"24 ways".to_vec());
    assert_eq!(doc.outlines[1].text, b"seller feed".to_vec());
    // the listing is not deactivated: a second purchase runs the same merge
    let again =
        purchase_rss_source(&listing, 10, buyer, buyer_balance, &mut buyer_doc, &seller_doc)
            .unwrap();
    assert_eq!(again.amount, 10);
    let doc2 = parse(buyer_doc.document()).unwrap();
    assert_eq!(doc2.outlines.len(), 2);
}

#[test]
fn presence_registry_capacity() {
    let mut registry = initialize_logged_in_users();
    assert_eq!(registry.users.len(), 0);
    for i in 0..1000u64 {
        add_logged_in_user(&mut registry, UserKey::new(i)).unwrap();
    }
    assert_eq!(registry.users.len(), 1000);
    let r = add_logged_in_user(&mut registry, UserKey::new(1000));
    assert_eq!(r, Err(ErrorCode::MaxUsersReached));
    assert_eq!(registry.users.len(), 1000);
}

#[test]
fn presence_registry_keeps_duplicates() {
    let mut registry = initialize_logged_in_users();
    add_logged_in_user(&mut registry, UserKey::new(5)).unwrap();
    add_logged_in_user(&mut registry, UserKey::new(5)).unwrap();
    assert_eq!(registry.users.len(), 2);
    assert_eq!(registry.users[0], UserKey::new(5));
    assert_eq!(registry.users[1], UserKey::new(5));
}
