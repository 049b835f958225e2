//! Subscription records and the per-buyer subscription ledger.

use vstd::prelude::*;

use crate::keys::UserKey;

verus! {

/// One subscription billing period, thirty days, in seconds.
pub const DURATION_ONE_MONTH: i64 = 60 * 60 * 24 * 30;

/// A seller's advertised price for one month of subscription.
#[derive(Clone, Copy, PartialEq, Eq, Structural, Debug)]
pub struct SubscriptionPrice {
    pub price_one_month: u64,
}

/// One record of a buyer's recurring payment terms with one seller.
/// `duration` counts whole months and only ever grows while the record
/// exists; expiry is computed from it, never stored.
#[derive(Clone, Copy, PartialEq, Eq, Structural, Debug)]
pub struct Subscription {
    pub seller: UserKey,
    /// Subscription start, as a Unix timestamp in seconds.
    pub start_time: i64,
    /// Paid-for duration, as a count of whole months.
    pub duration: i64,
    /// Time of the most recent payment, as a Unix timestamp in seconds.
    pub last_payment_time: i64,
}

impl Subscription {
    /// Whole months elapsed from `start_time` to `current_time`, rounding
    /// down (also for times before the start).
    pub open spec fn elapsed_months(self, current_time: i64) -> int {
        (current_time - self.start_time) / (DURATION_ONE_MONTH as int)
    }

    /// The subscription is active at `current_time` iff fewer whole months
    /// have elapsed than have been paid for.
    pub open spec fn is_active_spec(self, current_time: i64) -> bool {
        self.elapsed_months(current_time) < self.duration
    }

    /// Whether the subscription is active at `current_time`.
    pub fn is_active(&self, current_time: i64) -> (r: bool)
        requires
            i64::MIN <= current_time - self.start_time <= i64::MAX,
        ensures
            r == self.is_active_spec(current_time),
    {
        if current_time >= self.start_time {
            let diff: i64 = current_time - self.start_time;
            let months: u64 = (diff as u64) / (DURATION_ONE_MONTH as u64);
            if self.duration <= 0 {
                proof {
                    vstd::arithmetic::div_mod::lemma_div_pos_is_pos(
                        diff as int,
                        DURATION_ONE_MONTH as int,
                    );
                }
                false
            } else {
                months < self.duration as u64
            }
        } else {
            // `current_time - start_time` is negative: its floor quotient is
            // `-((d - 1) / m + 1)` for the positive difference `d`.
            let diff: i64 = current_time - self.start_time;
            let d_u: u64 = if diff == i64::MIN {
                9223372036854775808u64
            } else {
                (-diff) as u64
            };
            proof {
                assert(d_u == self.start_time - current_time);
            }
            let q: u64 = (d_u - 1) / (DURATION_ONE_MONTH as u64) + 1;
            proof {
                lemma_div_stays_small(d_u as int - 1, DURATION_ONE_MONTH as int);
                lemma_div_of_negative(d_u as int, DURATION_ONE_MONTH as int);
            }
            let neg_q: i64 = -(q as i64);
            neg_q < self.duration
        }
    }

    /// Extends the paid-for duration and records the payment time.
    pub fn update_duration(&mut self, additional_months: i64, payment_time: i64)
        requires
            i64::MIN <= old(self).duration + additional_months <= i64::MAX,
        ensures
            final(self).seller == old(self).seller,
            final(self).start_time == old(self).start_time,
            final(self).duration == old(self).duration + additional_months,
            final(self).last_payment_time == payment_time,
    {
        self.duration = self.duration + additional_months;
        self.last_payment_time = payment_time;
    }

    /// A subscription needs renewal exactly when it is no longer active.
    pub fn needs_renewal(&self, current_time: i64) -> (r: bool)
        requires
            i64::MIN <= current_time - self.start_time <= i64::MAX,
        ensures
            r == !self.is_active_spec(current_time),
    {
        !self.is_active(current_time)
    }
}

/// A nonnegative value below `u64::MAX`, divided by a whole month of
/// seconds or more, leaves a quotient far below `i64::MAX`.
proof fn lemma_div_stays_small(x: int, m: int)
    requires
        0 <= x <= u64::MAX,
        DURATION_ONE_MONTH <= m,
    ensures
        0 <= x / m < 0x80000000000,
{
    let k = x / m;
    vstd::arithmetic::div_mod::lemma_div_pos_is_pos(x, m);
    vstd::arithmetic::div_mod::lemma_fundamental_div_mod(x, m);
    vstd::arithmetic::div_mod::lemma_mod_bound(x, m);
    if k >= 0x80000000000 {
        vstd::arithmetic::mul::lemma_mul_inequality(0x80000000000, k, m);
        vstd::arithmetic::mul::lemma_mul_is_commutative(k, m);
        vstd::arithmetic::mul::lemma_mul_inequality(
            DURATION_ONE_MONTH as int,
            m,
            0x80000000000,
        );
        assert(false);
    }
}

/// Floor division of a negative dividend `-d` by a positive `m`, written
/// over the nonnegative quotient `(d - 1) / m`.
proof fn lemma_div_of_negative(d: int, m: int)
    requires
        d > 0,
        m > 0,
    ensures
        (-d) / m == -((d - 1) / m + 1),
{
    let k = (d - 1) / m;
    let r = (d - 1) % m;
    vstd::arithmetic::div_mod::lemma_fundamental_div_mod(d - 1, m);
    vstd::arithmetic::div_mod::lemma_mod_bound(d - 1, m);
    assert(-d == (-(k + 1)) * m + (m - r - 1)) by {
        assert(d - 1 == m * k + r);
        assert((-(k + 1)) * m == -(m * k) - m) by (nonlinear_arith);
    }
    vstd::arithmetic::div_mod::lemma_fundamental_div_mod_converse(-d, m, -(k + 1), m - r - 1);
}

/// The per-buyer table of subscription records, one per seller.
#[derive(PartialEq, Eq, Debug)]
pub struct Subscriptions {
    subscriptions: Vec<Subscription>,
}

/// The record written by a successful payment at `now`: the first record
/// for `seller` gains one month and `last_payment_time` becomes `now`; a
/// buyer with no record for `seller` gains a fresh one-month record whose
/// `last_payment_time` is one period past `now`.  (The two branches stamp
/// `last_payment_time` asymmetrically; the asymmetry is kept as it stands
/// and flagged for the product owner rather than unified by guesswork.)
pub open spec fn upsert_spec(s: Seq<Subscription>, seller: UserKey, now: i64) -> Seq<Subscription>
    decreases s.len(),
{
    if s.len() == 0 {
        seq![
            Subscription {
                seller,
                start_time: now,
                duration: 1,
                last_payment_time: (now + DURATION_ONE_MONTH) as i64,
            },
        ]
    } else if s.first().seller == seller {
        seq![
            Subscription {
                seller: s.first().seller,
                start_time: s.first().start_time,
                duration: (s.first().duration + 1) as i64,
                last_payment_time: now,
            },
        ] + s.drop_first()
    } else {
        seq![s.first()] + upsert_spec(s.drop_first(), seller, now)
    }
}

/// The sellers of the records in `s` that are active at `current_time`,
/// in ledger order.
pub open spec fn active_sellers_spec(s: Seq<Subscription>, current_time: i64) -> Seq<UserKey>
    decreases s.len(),
{
    if s.len() == 0 {
        Seq::empty()
    } else if s.first().is_active_spec(current_time) {
        seq![s.first().seller] + active_sellers_spec(s.drop_first(), current_time)
    } else {
        active_sellers_spec(s.drop_first(), current_time)
    }
}

impl Subscriptions {
    /// The ledger as the sequence of its records.
    pub closed spec fn view(&self) -> Seq<Subscription> {
        self.subscriptions@
    }

    /// Creates an empty ledger.
    pub fn new() -> (r: Subscriptions)
        ensures
            r@ == Seq::<Subscription>::empty(),
    {
        Subscriptions { subscriptions: Vec::new() }
    }

    /// Records a successful subscription payment to `seller` at `now`:
    /// extends the first existing record for `seller`, or appends a fresh
    /// one-month record.
    pub fn record_payment(&mut self, seller: UserKey, now: i64)
        requires
            now + DURATION_ONE_MONTH <= i64::MAX,
            forall|i: int| 0 <= i < old(self)@.len() ==> old(self)@[i].duration < i64::MAX,
        ensures
            final(self)@ == upsert_spec(old(self)@, seller, now),
    {
        let ghost s0 = self.subscriptions@;
        proof {
            assert forall|k: int| 0 <= k < s0.len() implies s0[k].duration < i64::MAX by {
                assert(s0[k] == old(self)@[k]);
            }
        }
        let n = self.subscriptions.len();
        let mut i: usize = 0;
        while i < n
            invariant
                n == s0.len(),
                0 <= i <= n,
                self.subscriptions@ == s0,
                old(self)@ == s0,
                forall|k: int| 0 <= k < s0.len() ==> s0[k].duration < i64::MAX,
                forall|k: int| 0 <= k < i ==> s0[k].seller != seller,
            decreases n - i,
        {
            if self.subscriptions[i].seller == seller {
                let old_rec = self.subscriptions[i];
                let updated = Subscription {
                    seller: old_rec.seller,
                    start_time: old_rec.start_time,
                    duration: old_rec.duration + 1,
                    last_payment_time: now,
                };
                let _ = self.subscriptions.remove(i);
                self.subscriptions.insert(i, updated);
                proof {
                    assert(self.subscriptions@ =~= s0.update(i as int, updated));
                    lemma_upsert_updates_first(s0, seller, now, i as int);
                    assert(old(self)@ == s0);
                    assert(self.subscriptions@ == upsert_spec(old(self)@, seller, now));
                }
                return ;
            }
            i = i + 1;
        }
        let fresh = Subscription {
            seller,
            start_time: now,
            duration: 1,
            last_payment_time: now + DURATION_ONE_MONTH,
        };
        self.subscriptions.push(fresh);
        proof {
            lemma_upsert_appends(s0, seller, now);
            assert(self.subscriptions@ =~= s0.push(fresh));
        }
    }

    /// The number of records in the ledger.
    pub fn len(&self) -> (r: usize)
        ensures
            r == self@.len(),
    {
        self.subscriptions.len()
    }

    /// The record at position `i`, in ledger order.
    pub fn record_at(&self, i: usize) -> (r: Subscription)
        requires
            i < self@.len(),
        ensures
            r == self@[i as int],
    {
        self.subscriptions[i]
    }
}

/// When no record in `s` belongs to `seller`, the upsert appends a fresh
/// one-month record at the end.
proof fn lemma_upsert_appends(s: Seq<Subscription>, seller: UserKey, now: i64)
    requires
        forall|i: int| 0 <= i < s.len() ==> s[i].seller != seller,
    ensures
        upsert_spec(s, seller, now) == s.push(
            Subscription {
                seller,
                start_time: now,
                duration: 1,
                last_payment_time: (now + DURATION_ONE_MONTH) as i64,
            },
        ),
    decreases s.len(),
{
    let fresh = Subscription {
        seller,
        start_time: now,
        duration: 1,
        last_payment_time: (now + DURATION_ONE_MONTH) as i64,
    };
    if s.len() == 0 {
        assert(upsert_spec(s, seller, now) =~= s.push(fresh));
    } else {
        assert(s.first().seller != seller);
        lemma_upsert_appends(s.drop_first(), seller, now);
        assert(seq![s.first()] + s.drop_first().push(fresh) =~= s.push(fresh));
    }
}

/// When position `i` holds the first record of `seller` in `s`, the upsert
/// replaces exactly that record with its one-month extension.
proof fn lemma_upsert_updates_first(s: Seq<Subscription>, seller: UserKey, now: i64, i: int)
    requires
        0 <= i < s.len(),
        s[i].seller == seller,
        s[i].duration < i64::MAX,
        forall|k: int| 0 <= k < i ==> s[k].seller != seller,
    ensures
        upsert_spec(s, seller, now) == s.update(
            i,
            Subscription {
                seller: s[i].seller,
                start_time: s[i].start_time,
                duration: (s[i].duration + 1) as i64,
                last_payment_time: now,
            },
        ),
    decreases s.len(),
{
    let updated = Subscription {
        seller: s[i].seller,
        start_time: s[i].start_time,
        duration: (s[i].duration + 1) as i64,
        last_payment_time: now,
    };
    if i == 0 {
        assert(upsert_spec(s, seller, now) =~= s.update(0, updated));
    } else {
        lemma_upsert_updates_first(s.drop_first(), seller, now, i - 1);
        assert(s.drop_first()[i - 1] == s[i]);
        assert(seq![s.first()] + s.drop_first().update(i - 1, updated) =~= s.update(i, updated));
    }
}

/// Returns the sellers with an active subscription at `current_time`, in
/// ledger order, without mutating the ledger.
pub fn get_active_subscriptions(subscriptions: &Subscriptions, current_time: i64) -> (r: Vec<
    UserKey,
>)
    requires
        forall|i: int|
            0 <= i < subscriptions@.len() ==> i64::MIN <= current_time - (
            #[trigger] subscriptions@[i]).start_time <= i64::MAX,
    ensures
        r@ == active_sellers_spec(subscriptions@, current_time),
{
    let ghost s0 = subscriptions@;
    let mut active_subscribers: Vec<UserKey> = Vec::new();
    proof {
        assert forall|k: int|
            0 <= k < s0.len() implies i64::MIN <= current_time - (#[trigger] s0[k]).start_time
            <= i64::MAX by {
            assert(s0[k] == subscriptions@[k]);
        }
        assert(s0.skip(0) =~= s0);
        assert(active_subscribers@ + active_sellers_spec(s0, current_time) =~= active_sellers_spec(
            s0,
            current_time,
        ));
    }
    let n = subscriptions.len();
    let mut i: usize = 0;
    while i < n
        invariant
            n == s0.len(),
            0 <= i <= n,
            subscriptions@ == s0,
            forall|k: int|
                0 <= k < s0.len() ==> i64::MIN <= current_time - (#[trigger] s0[k]).start_time
                    <= i64::MAX,
            active_sellers_spec(s0, current_time) == active_subscribers@ + active_sellers_spec(
                s0.skip(i as int),
                current_time,
            ),
        decreases n - i,
    {
        let record = subscriptions.record_at(i);
        let ghost acc0 = active_subscribers@;
        let ghost rest = active_sellers_spec(s0.skip(i as int + 1), current_time);
        proof {
            assert(s0.skip(i as int).first() == s0[i as int]);
            assert(s0.skip(i as int).drop_first() =~= s0.skip(i as int + 1));
        }
        if record.is_active(current_time) {
            active_subscribers.push(record.seller);
            proof {
                assert(acc0 + (seq![s0[i as int].seller] + rest) =~= active_subscribers@ + rest);
            }
        }
        i = i + 1;
    }
    proof {
        assert(s0.skip(n as int) =~= Seq::<Subscription>::empty());
        assert(active_sellers_spec(s0, current_time) =~= active_subscribers@);
    }
    active_subscribers
}

} // verus!
