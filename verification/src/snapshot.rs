use vstd::prelude::*;
use crate::address::Address;
use crate::math::MAX_COMMISSION_BPS;
use crate::logic::execute::list_shares_for_sale::lemma_listed;
use crate::logic::helpers::{
    check_shares, has_duplicate, has_negative, holders_of, lemma_recorded, recorded, share_error,
    units_in, update_shares,
};
use crate::logic::query::list_all_sales;
use crate::logic::query::list_all_sales::open_offers;
use crate::logic::query::list_shares;
use crate::logic::query::list_shares::share_records;
use crate::storage::{
    claimed_in, claims_on, lemma_claims_finite, lemma_save_allocation, AllocationDataKey,
    AllocationKey, AllocationRecord, CommissionConfig, ConfigDataKey, Env, SaleListingDataKey,
    ShareDataKey, State,
};
use crate::sums::{lemma_sum_insert, value_at};

verus! {

/// Everything that a pool remembers, as plain lists: the form in which it
/// is kept between two operations.
#[derive(Debug, PartialEq, Eq)]
pub struct Snapshot {
    pub config: Option<ConfigDataKey>,
    pub commission: Option<CommissionConfig>,
    /// The share records, in the order in which the holders joined.
    pub shares: Vec<ShareDataKey>,
    /// The claims.
    pub allocations: Vec<AllocationRecord>,
    /// The open offers, in the order in which their sellers listed.
    pub listings: Vec<SaleListingDataKey>,
}

/// The claims that the records make, each under its holder and asset.
pub open spec fn claims_of(records: Seq<AllocationRecord>) -> Map<AllocationKey, i128>
    decreases records.len(),
{
    if records.len() == 0 {
        Map::empty()
    } else {
        claims_of(records.drop_last()).insert(records.last().key(), records.last().amount)
    }
}

/// The total of the claims on each asset on which anything is claimed.
pub open spec fn totals_of(claims: Map<AllocationKey, i128>) -> Map<Address, i128> {
    Map::new(|t: Address| claimed_in(claims, t) > 0, |t: Address| claimed_in(claims, t) as i128)
}

/// The offers, each under its seller.
pub open spec fn offers_of(listings: Seq<SaleListingDataKey>) -> Map<Address, SaleListingDataKey>
    decreases listings.len(),
{
    if listings.len() == 0 {
        Map::empty()
    } else {
        offers_of(listings.drop_last()).insert(listings.last().seller, listings.last())
    }
}

/// The sellers of the offers, in the order of the offers.
pub open spec fn sellers_of(listings: Seq<SaleListingDataKey>) -> Seq<Address> {
    Seq::new(listings.len(), |i: int| listings[i].seller)
}

/// No claim is negative and none is made twice.
pub open spec fn claims_distinct(records: Seq<AllocationRecord>) -> bool {
    &&& forall|i: int| 0 <= i < records.len() ==> (#[trigger] records[i]).amount >= 0
    &&& forall|i: int, j: int|
        0 <= i < j < records.len() ==> (#[trigger] records[i]).key() != (
        #[trigger] records[j]).key()
}

/// The claims can be kept: none is negative, none is made twice, and the
/// claims on each asset add up to an amount that fits the integer type.
pub open spec fn claims_sound(records: Seq<AllocationRecord>) -> bool {
    &&& claims_distinct(records)
    &&& forall|t: Address| #[trigger] claimed_in(claims_of(records), t) <= i128::MAX
}

/// The offers can be kept: each is for a positive number of units at a
/// positive price, and no seller has two.
pub open spec fn offers_sound(listings: Seq<SaleListingDataKey>) -> bool {
    &&& forall|i: int|
        0 <= i < listings.len() ==> (#[trigger] listings[i]).shares_for_sale > 0
            && listings[i].price_per_share > 0
    &&& forall|i: int, j: int|
        0 <= i < j < listings.len() ==> (#[trigger] listings[i]).seller != (
        #[trigger] listings[j]).seller
}

/// The commission policy can be kept: where there is one, its rates are in range.
pub open spec fn policy_sound(commission: Option<CommissionConfig>) -> bool {
    match commission {
        Some(c) => 0 <= c.buy_rate_bps <= MAX_COMMISSION_BPS && 0 <= c.distribution_rate_bps
            <= MAX_COMMISSION_BPS,
        None => true,
    }
}

impl Snapshot {
    /// Whether this is what a pool in order remembers.
    pub open spec fn sound(&self) -> bool {
        &&& policy_sound(self.commission)
        &&& match self.config {
            Some(_) => share_error(self.shares@) is None,
            None => self.shares@.len() == 0,
        }
        &&& claims_sound(self.allocations@)
        &&& offers_sound(self.listings@)
    }

    /// The pool that remembers this, before anybody's consent.
    pub open spec fn state(&self) -> State {
        State {
            all_authorized: false,
            signers: Set::empty(),
            config: self.config,
            commission: self.commission,
            shareholders: holders_of(self.shares@),
            shares: recorded(Map::empty(), self.shares@),
            allocations: claims_of(self.allocations@),
            total_allocations: totals_of(claims_of(self.allocations@)),
            listings: offers_of(self.listings@),
            active_listings: sellers_of(self.listings@),
        }
    }
}

/// In a ledger in order the recorded totals are those of the claims.
pub proof fn lemma_totals_of(s: State)
    requires
        s.ledger_ok(),
    ensures
        s.total_allocations == totals_of(s.allocations),
{
    assert forall|t: Address|
        s.total_allocations.contains_key(t) <==> totals_of(s.allocations).contains_key(t) by {
        assert(value_at(s.total_allocations, t) == claimed_in(s.allocations, t));
    }
    assert forall|t: Address| s.total_allocations.contains_key(t) implies s.total_allocations[t]
        == totals_of(s.allocations)[t] by {
        assert(value_at(s.total_allocations, t) == claimed_in(s.allocations, t));
    }
    assert(s.total_allocations =~= totals_of(s.allocations));
}

/// Distinct claims are kept as they were made: each under its key, and nothing else.
pub proof fn lemma_claims_of(records: Seq<AllocationRecord>)
    requires
        claims_distinct(records),
    ensures
        claims_of(records).dom().finite(),
        forall|i: int|
            0 <= i < records.len() ==> claims_of(records).contains_key(
                (#[trigger] records[i]).key(),
            ) && claims_of(records)[records[i].key()] == records[i].amount,
        forall|k: AllocationKey|
            claims_of(records).contains_key(k) ==> exists|i: int|
                0 <= i < records.len() && (#[trigger] records[i]).key() == k,
        forall|k: AllocationKey| claims_of(records).contains_key(k) ==> claims_of(records)[k] >= 0,
    decreases records.len(),
{
    if records.len() != 0 {
        let rest = records.drop_last();
        let last = records.last();
        assert(claims_distinct(rest)) by {
            assert forall|i: int| 0 <= i < rest.len() implies (#[trigger] rest[i]).amount >= 0 by {
                assert(records[i].amount >= 0);
            }
            assert forall|i: int, j: int| 0 <= i < j < rest.len() implies (#[trigger] rest[i]).key()
                != (#[trigger] rest[j]).key() by {
                assert(records[i].key() != records[j].key());
            }
        }
        lemma_claims_of(rest);
        let n = records.len() - 1;
        assert(records[n] == last);
        assert forall|i: int| 0 <= i < records.len() implies claims_of(records).contains_key(
            (#[trigger] records[i]).key(),
        ) && claims_of(records)[records[i].key()] == records[i].amount by {
            if i < n {
                assert(rest[i] == records[i]);
                assert(records[i].key() != records[n].key());
            }
        }
        assert forall|k: AllocationKey| claims_of(records).contains_key(k) implies exists|i: int|
            0 <= i < records.len() && (#[trigger] records[i]).key() == k by {
            if k == last.key() {
                assert(records[n].key() == k);
            } else {
                let i = choose|i: int| 0 <= i < rest.len() && (#[trigger] rest[i]).key() == k;
                assert(records[i].key() == k);
            }
        }
        assert forall|k: AllocationKey| claims_of(records).contains_key(k) implies claims_of(
            records,
        )[k] >= 0 by {
            if k == last.key() {
                assert(records[n].amount >= 0);
            }
        }
    }
}

/// Among distinct claims, the first of them add up to no more on any asset
/// than all of them.
pub proof fn lemma_claims_grow(records: Seq<AllocationRecord>, n: int, token: Address)
    requires
        claims_distinct(records),
        0 <= n <= records.len(),
    ensures
        claimed_in(claims_of(records.take(n)), token) <= claimed_in(claims_of(records), token),
    decreases records.len() - n,
{
    if n == records.len() {
        assert(records.take(n) =~= records);
    } else {
        lemma_claims_grow(records, n + 1, token);
        let first = records.take(n);
        let next = records.take(n + 1);
        assert(next.drop_last() =~= first);
        assert(next.last() == records[n]);
        assert(claims_distinct(first)) by {
            assert forall|i: int| 0 <= i < first.len() implies (#[trigger] first[i]).amount
                >= 0 by {
                assert(records[i].amount >= 0);
            }
            assert forall|i: int, j: int| 0 <= i < j < first.len() implies (
            #[trigger] first[i]).key() != (#[trigger] first[j]).key() by {
                assert(records[i].key() != records[j].key());
            }
        }
        lemma_claims_of(first);
        let key = records[n].key();
        assert(!claims_of(first).contains_key(key)) by {
            if claims_of(first).contains_key(key) {
                let i = choose|i: int| 0 <= i < first.len() && (#[trigger] first[i]).key() == key;
                assert(records[i].key() == records[n].key());
            }
        }
        lemma_step_claimed(claims_of(first), records[n], token);
        assert(records[n].amount >= 0);
    }
}

/// One more claim, not made before, adds its amount to the claims on its
/// asset and nothing to those on another.
pub proof fn lemma_step_claimed(
    claims: Map<AllocationKey, i128>,
    record: AllocationRecord,
    token: Address,
)
    requires
        claims.dom().finite(),
        !claims.contains_key(record.key()),
    ensures
        claimed_in(claims.insert(record.key(), record.amount), token) == claimed_in(claims, token)
            + (if record.token == token {
            record.amount as int
        } else {
            0
        }),
{
    let after = claims.insert(record.key(), record.amount);
    lemma_claims_finite(claims, token);
    if record.token == token {
        lemma_sum_insert(claims.restrict(claims_on(token)), record.key(), record.amount);
        assert(after.restrict(claims_on(token)) =~= claims.restrict(claims_on(token)).insert(
            record.key(),
            record.amount,
        ));
    } else {
        assert(after.restrict(claims_on(token)) =~= claims.restrict(claims_on(token)));
    }
}

/// Offers of distinct sellers are kept as they were made: each under its
/// seller, and nothing else.
pub proof fn lemma_offers_of(listings: Seq<SaleListingDataKey>)
    requires
        forall|i: int, j: int|
            0 <= i < j < listings.len() ==> (#[trigger] listings[i]).seller != (
            #[trigger] listings[j]).seller,
    ensures
        offers_of(listings).dom().finite(),
        sellers_of(listings).no_duplicates(),
        forall|i: int|
            0 <= i < listings.len() ==> offers_of(listings).contains_key(
                (#[trigger] listings[i]).seller,
            ) && offers_of(listings)[listings[i].seller] == listings[i],
        forall|a: Address|
            offers_of(listings).contains_key(a) <==> sellers_of(listings).contains(a),
    decreases listings.len(),
{
    let sellers = sellers_of(listings);
    if listings.len() != 0 {
        let rest = listings.drop_last();
        let last = listings.last();
        let n = listings.len() - 1;
        assert forall|i: int, j: int| 0 <= i < j < rest.len() implies (#[trigger] rest[i]).seller
            != (#[trigger] rest[j]).seller by {
            assert(listings[i].seller != listings[j].seller);
        }
        lemma_offers_of(rest);
        assert(listings[n] == last);
        assert forall|i: int| 0 <= i < listings.len() implies offers_of(listings).contains_key(
            (#[trigger] listings[i]).seller,
        ) && offers_of(listings)[listings[i].seller] == listings[i] by {
            if i < n {
                assert(rest[i] == listings[i]);
                assert(listings[i].seller != listings[n].seller);
            }
        }
        assert forall|a: Address| offers_of(listings).contains_key(a) <==> sellers.contains(
            a,
        ) by {
            if offers_of(listings).contains_key(a) {
                if a == last.seller {
                    assert(sellers[n] == a);
                } else {
                    assert(sellers_of(rest).contains(a));
                    let i = choose|i: int| 0 <= i < rest.len() && sellers_of(rest)[i] == a;
                    assert(sellers[i] == a);
                }
            }
            if sellers.contains(a) {
                let i = choose|i: int| 0 <= i < sellers.len() && sellers[i] == a;
                assert(listings[i].seller == a);
            }
        }
        assert forall|i: int, j: int|
            0 <= i < sellers.len() && 0 <= j < sellers.len() && i != j implies sellers[i]
            != sellers[j] by {
            if i < j {
                assert(listings[i].seller != listings[j].seller);
            } else {
                assert(listings[j].seller != listings[i].seller);
            }
        }
    }
}

/// A registry in order is the one that its own share records make.
pub proof fn lemma_registry_of(s: State)
    requires
        s.finite(),
        s.registry_ok(),
    ensures
        holders_of(share_records(s)) == s.shareholders,
        recorded(Map::empty(), share_records(s)) == s.shares,
        units_in(share_records(s)) == s.total_units(),
        !has_negative(share_records(s)),
        !has_duplicate(share_records(s)),
{
    let records = share_records(s);
    assert(holders_of(records) =~= s.shareholders);
    assert forall|i: int| 0 <= i < records.len() implies (#[trigger] records[i]).share >= 0 by {
        assert(s.shareholders.contains(s.shareholders[i]));
    }
    assert forall|i: int, j: int| 0 <= i < j < records.len() implies (
    #[trigger] records[i]).shareholder != (#[trigger] records[j]).shareholder by {
        assert(s.shareholders[i] != s.shareholders[j]);
    }
    lemma_recorded(records);
    let made = recorded(Map::empty(), records);
    assert forall|a: Address| made.contains_key(a) <==> s.shares.contains_key(a) by {
        assert(holders_of(records).contains(a) <==> made.contains_key(a));
        assert(s.shareholders.contains(a) <==> s.shares.contains_key(a));
    }
    assert forall|a: Address| made.contains_key(a) implies made[a] == s.shares[a] by {
        assert(holders_of(records).contains(a));
        let i = choose|i: int| 0 <= i < records.len() && holders_of(records)[i] == a;
        assert(records[i].shareholder == a);
    }
    assert(made =~= s.shares);
}

/// A marketplace in order is the one that its own open offers make.
pub proof fn lemma_market_of(s: State)
    requires
        s.market_ok(),
    ensures
        sellers_of(open_offers(s)) == s.active_listings,
        offers_of(open_offers(s)) == s.listings,
        offers_sound(open_offers(s)),
{
    let offers = open_offers(s);
    assert forall|i: int| 0 <= i < offers.len() implies (#[trigger] offers[i]).seller
        == s.active_listings[i] && offers[i].shares_for_sale > 0 && offers[i].price_per_share
        > 0 by {
        assert(s.active_listings.contains(s.active_listings[i]));
        assert(s.listings.contains_key(s.active_listings[i]));
    }
    assert(sellers_of(offers) =~= s.active_listings);
    assert forall|i: int, j: int| 0 <= i < j < offers.len() implies (#[trigger] offers[i]).seller
        != (#[trigger] offers[j]).seller by {
        assert(s.active_listings[i] != s.active_listings[j]);
    }
    lemma_offers_of(offers);
    let made = offers_of(offers);
    assert forall|a: Address| made.contains_key(a) <==> s.listings.contains_key(a) by {
        assert(sellers_of(offers).contains(a) <==> made.contains_key(a));
        assert(s.active_listings.contains(a) <==> s.listings.contains_key(a));
    }
    assert forall|a: Address| made.contains_key(a) implies made[a] == s.listings[a] by {
        assert(sellers_of(offers).contains(a));
        let i = choose|i: int| 0 <= i < offers.len() && sellers_of(offers)[i] == a;
        assert(offers[i].seller == a);
    }
    assert(made =~= s.listings);
}

impl Snapshot {
    /// What the pool remembers, to be kept until the next operation.
    pub fn take(env: &Env) -> (r: Snapshot)
        requires
            env.consistent(),
        ensures
            r.sound(),
            r.state() == (State { all_authorized: false, signers: Set::empty(), ..env@ }),
    {
        let shares = if ConfigDataKey::is_initialized(env) {
            match list_shares(env) {
                Ok(shares) => shares,
                Err(_) => Vec::new(),
            }
        } else {
            Vec::new()
        };
        let listings = match list_all_sales(env) {
            Ok(listings) => listings,
            Err(_) => Vec::new(),
        };
        let allocations = AllocationDataKey::list_allocations(env);
        proof {
            let s = env@;
            env.lemma_finite();
            lemma_registry_of(s);
            lemma_market_of(s);
            if s.config is None {
                assert(shares@ =~= share_records(s));
            }
            assert(claims_distinct(allocations@));
            lemma_claims_of(allocations@);
            assert(claims_of(allocations@) =~= s.allocations);
            lemma_totals_of(s);
            assert forall|t: Address| #[trigger]
                claimed_in(claims_of(allocations@), t) <= i128::MAX by {
                assert(value_at(s.total_allocations, t) == claimed_in(s.allocations, t));
            }
        }
        Snapshot {
            config: ConfigDataKey::get(env),
            commission: CommissionConfig::load(env),
            shares,
            allocations,
            listings,
        }
    }

    /// The pool that remembers this, before anybody's consent; none where
    /// this is not what a pool in order remembers.
    pub fn restore(&self) -> (r: Option<Env>)
        ensures
            match r {
                Some(env) => self.sound() && env.consistent() && env@ == self.state(),
                None => !self.sound(),
            },
    {
        let mut env = Env::new();
        match self.commission {
            Some(c) => {
                if c.buy_rate_bps < 0 || c.buy_rate_bps > MAX_COMMISSION_BPS
                    || c.distribution_rate_bps < 0 || c.distribution_rate_bps
                    > MAX_COMMISSION_BPS {
                    return None;
                }
                CommissionConfig::save(&mut env, c);
            },
            None => {},
        }
        match self.config {
            Some(c) => {
                if check_shares(&self.shares).is_err() {
                    return None;
                }
                ConfigDataKey::init(&mut env, c.admin, c.mutable);
                update_shares(&mut env, &self.shares);
                proof {
                    lemma_recorded(self.shares@);
                }
            },
            None => {
                if self.shares.len() != 0 {
                    return None;
                }
                proof {
                    assert(holders_of(self.shares@) =~= Seq::<Address>::empty());
                }
            },
        }
        let ghost base = env@;
        proof {
            env.lemma_finite();
            assert(self.allocations@.take(0) =~= Seq::<AllocationRecord>::empty());
            assert(self.listings@.take(0) =~= Seq::<SaleListingDataKey>::empty());
            assert(env@.consistent());
        }
        let mut i: usize = 0;
        while i < self.allocations.len()
            invariant
                i <= self.allocations@.len(),
                env.wf(),
                env@.consistent(),
                claims_distinct(self.allocations@.take(i as int)),
                env@.allocations == claims_of(self.allocations@.take(i as int)),
                env@ == (State {
                    allocations: env@.allocations,
                    total_allocations: env@.total_allocations,
                    ..base
                }),
            decreases self.allocations@.len() - i,
        {
            let record = self.allocations[i];
            let ghost first = self.allocations@.take(i as int);
            let ghost next = self.allocations@.take(i + 1);
            let ghost before = env@;
            proof {
                assert(next.drop_last() =~= first);
                assert(next.last() == record);
                lemma_claims_of(first);
                env.lemma_finite();
            }
            if record.amount < 0 {
                return None;
            }
            if AllocationDataKey::get_allocation(&env, &record.shareholder, &record.token).is_some() {
                proof {
                    let j = choose|j: int| 0 <= j < first.len() && (#[trigger] first[j]).key()
                        == record.key();
                    assert(self.allocations@[j].key() == self.allocations@[i as int].key());
                }
                return None;
            }
            let total: i128 = match AllocationDataKey::get_total_allocation(&env, &record.token) {
                Some(total) => total,
                None => 0,
            };
            proof {
                assert(value_at(before.total_allocations, record.token) == claimed_in(
                    before.allocations,
                    record.token,
                ));
                lemma_step_claimed(before.allocations, record, record.token);
                assert(claims_distinct(next) || !claims_distinct(self.allocations@)) by {
                    assert forall|a: int| 0 <= a < next.len() implies (#[trigger] next[a]).amount
                        >= 0 by {
                        if a < i {
                            assert(first[a] == next[a]);
                        }
                    }
                    assert forall|a: int, b: int| 0 <= a < b < next.len() implies (
                    #[trigger] next[a]).key() != (#[trigger] next[b]).key() by {
                        assert(first[a] == next[a]);
                        if b < i {
                            assert(first[b] == next[b]);
                        }
                    }
                }
                if claims_distinct(self.allocations@) {
                    lemma_claims_grow(self.allocations@, i + 1, record.token);
                }
            }
            if total.checked_add(record.amount).is_none() {
                return None;
            }
            AllocationDataKey::save_allocation(
                &mut env,
                &record.shareholder,
                &record.token,
                record.amount,
            );
            proof {
                lemma_save_allocation(before, record.shareholder, record.token, record.amount);
            }
            i = i + 1;
        }
        proof {
            assert(self.allocations@.take(i as int) =~= self.allocations@);
            lemma_totals_of(env@);
        }
        let ghost kept = env@;
        let mut j: usize = 0;
        while j < self.listings.len()
            invariant
                j <= self.listings@.len(),
                env.wf(),
                env@.consistent(),
                offers_sound(self.listings@.take(j as int)),
                env@.listings == offers_of(self.listings@.take(j as int)),
                env@.active_listings == sellers_of(self.listings@.take(j as int)),
                base.listings == Map::<Address, SaleListingDataKey>::empty(),
                base.active_listings == Seq::<Address>::empty(),
                env@ == (State {
                    listings: env@.listings,
                    active_listings: env@.active_listings,
                    ..kept
                }),
            decreases self.listings@.len() - j,
        {
            let listing = self.listings[j];
            let ghost first = self.listings@.take(j as int);
            let ghost next = self.listings@.take(j + 1);
            let ghost before = env@;
            proof {
                assert(next.drop_last() =~= first);
                assert(next.last() == listing);
                lemma_offers_of(first);
            }
            if listing.shares_for_sale <= 0 || listing.price_per_share <= 0 {
                return None;
            }
            if SaleListingDataKey::get_listing(&env, &listing.seller).is_some() {
                proof {
                    assert(offers_of(first).contains_key(listing.seller));
                    assert(sellers_of(first).contains(listing.seller));
                    let k = choose|k: int| 0 <= k < first.len() && sellers_of(first)[k]
                        == listing.seller;
                    assert(first[k].seller == listing.seller);
                    assert(self.listings@[k].seller == self.listings@[j as int].seller);
                }
                return None;
            }
            proof {
                lemma_listed(
                    before,
                    listing.seller,
                    listing.shares_for_sale,
                    listing.price_per_share,
                    listing.payment_token,
                );
                assert(offers_sound(next)) by {
                    assert forall|a: int| 0 <= a < next.len() implies (
                    #[trigger] next[a]).shares_for_sale > 0 && next[a].price_per_share > 0 by {
                        if a < j {
                            assert(first[a] == next[a]);
                        }
                    }
                    assert forall|a: int, b: int| 0 <= a < b < next.len() implies (
                    #[trigger] next[a]).seller != (#[trigger] next[b]).seller by {
                        assert(first[a] == next[a]);
                        assert(sellers_of(first)[a] == first[a].seller);
                        if b < j {
                            assert(first[b] == next[b]);
                        }
                    }
                }
                assert(sellers_of(next) =~= sellers_of(first).push(listing.seller));
            }
            SaleListingDataKey::save_listing(
                &mut env,
                listing.seller,
                listing.shares_for_sale,
                listing.price_per_share,
                listing.payment_token,
            );
            j = j + 1;
        }
        proof {
            assert(self.listings@.take(j as int) =~= self.listings@);
            lemma_totals_of(env@);
            assert forall|t: Address| #[trigger]
                claimed_in(claims_of(self.allocations@), t) <= i128::MAX by {
                assert(value_at(env@.total_allocations, t) == claimed_in(env@.allocations, t));
            }
        }
        Some(env)
    }
}

} // verus!
