use vstd::prelude::*;
use crate::address::{Address, AddressKind};
use crate::errors::Error;
use crate::math::{mul_div, portion, MAX_COMMISSION_BPS, TOTAL_SHARES};
use crate::sums::{
    lemma_sum_bounds, lemma_sum_empty, lemma_sum_insert, lemma_sum_remove, sum_values, value_at,
};
use crate::table::{position, Key, Table};

verus! {

/// How many units one holder owns.
#[derive(Clone, Copy, Debug, PartialEq, Eq, Structural)]
pub struct ShareDataKey {
    pub shareholder: Address,
    pub share: i128,
}

/// Who administers the pool, and whether the registry may still be replaced.
#[derive(Clone, Copy, Debug, PartialEq, Eq, Structural)]
pub struct ConfigDataKey {
    pub admin: Address,
    pub mutable: bool,
}

/// A standing offer of one seller.
#[derive(Clone, Copy, Debug, PartialEq, Eq, Structural)]
pub struct SaleListingDataKey {
    pub seller: Address,
    pub shares_for_sale: i128,
    pub price_per_share: i128,
    pub payment_token: Address,
}

/// Who receives commissions, and at what rates, in basis points.
#[derive(Clone, Copy, Debug, PartialEq, Eq, Structural)]
pub struct CommissionConfig {
    pub recipient: Address,
    pub buy_rate_bps: i128,
    pub distribution_rate_bps: i128,
}

/// The entry point to the claims of holders on assets.
#[derive(Clone, Copy, Debug, PartialEq, Eq, Structural)]
pub struct AllocationDataKey {}

/// Names one claim: that of a holder on an asset.
#[derive(Clone, Copy, Debug, PartialEq, Eq, Structural)]
pub struct AllocationKey {
    pub shareholder: Address,
    pub token: Address,
}

impl Key for AllocationKey {
    fn same(&self, other: &Self) -> (r: bool) {
        *self == *other
    }
}

/// One claim with its amount.
#[derive(Clone, Copy, Debug, PartialEq, Eq, Structural)]
pub struct AllocationRecord {
    pub shareholder: Address,
    pub token: Address,
    pub amount: i128,
}

impl AllocationRecord {
    /// The claim that the record is about.
    pub open spec fn key(self) -> AllocationKey {
        AllocationKey { shareholder: self.shareholder, token: self.token }
    }
}

/// The recipient of commissions until another one is set.
pub open spec fn spec_default_commission_address() -> Address {
    Address {
        kind: AddressKind::Account,
        hi: 0xb0149ee6e262e190b1adce5b0cf18424,
        lo: 0x4c602cd3f9deb09b718931523382579a,
    }
}

/// The recipient of commissions until another one is set.
#[verifier::when_used_as_spec(spec_default_commission_address)]
pub fn default_commission_address() -> (a: Address)
    ensures
        a == spec_default_commission_address(),
{
    Address::account(0xb0149ee6e262e190b1adce5b0cf18424, 0x4c602cd3f9deb09b718931523382579a)
}

/// The commission on purchases until another rate is set: 1.5%.
pub const BUY_COMMISSION_BPS: i128 = 150;

/// The commission on distributions until another rate is set: 0.5%.
pub const DISTRIBUTION_COMMISSION_BPS: i128 = 50;

/// The commission policy of a pool on which none was ever set.
pub open spec fn default_commission() -> CommissionConfig {
    CommissionConfig {
        recipient: default_commission_address(),
        buy_rate_bps: BUY_COMMISSION_BPS,
        distribution_rate_bps: DISTRIBUTION_COMMISSION_BPS,
    }
}

/// The claims on `token`, among all claims.
pub open spec fn claims_on(token: Address) -> Set<AllocationKey> {
    Set::new(|k: AllocationKey| k.token == token)
}

/// The sum of the claims on `token`, among all claims.
pub open spec fn claimed_in(allocations: Map<AllocationKey, i128>, token: Address) -> int {
    sum_values(allocations.restrict(claims_on(token)))
}

/// `totals` with the total of `token` set to `amount`; a total that is not
/// positive is not kept.
pub open spec fn with_total(totals: Map<Address, i128>, token: Address, amount: int) -> Map<
    Address,
    i128,
> {
    if amount <= 0 {
        totals.remove(token)
    } else {
        totals.insert(token, amount as i128)
    }
}

/// `list` with `who` at its end, unless `who` is in it already.
pub open spec fn with_member(list: Seq<Address>, who: Address) -> Seq<Address> {
    if list.contains(who) {
        list
    } else {
        list.push(who)
    }
}

/// Everything that the pool remembers, and who consents to the operation at hand.
pub struct State {
    /// Whether every identity consents.
    pub all_authorized: bool,
    /// The identities that consent, where not every one does.
    pub signers: Set<Address>,
    pub config: Option<ConfigDataKey>,
    pub commission: Option<CommissionConfig>,
    /// The holders, in the order in which they joined.
    pub shareholders: Seq<Address>,
    /// The units of each holder.
    pub shares: Map<Address, i128>,
    /// What each holder can claim of each asset.
    pub allocations: Map<AllocationKey, i128>,
    /// What all holders together can claim of each asset.
    pub total_allocations: Map<Address, i128>,
    /// The open offer of each seller.
    pub listings: Map<Address, SaleListingDataKey>,
    /// The sellers with an open offer, in the order in which they listed.
    pub active_listings: Seq<Address>,
}

impl State {
    /// A pool that remembers nothing, before anybody's consent.
    pub open spec fn empty() -> State {
        State {
            all_authorized: false,
            signers: Set::empty(),
            config: None,
            commission: None,
            shareholders: Seq::empty(),
            shares: Map::empty(),
            allocations: Map::empty(),
            total_allocations: Map::empty(),
            listings: Map::empty(),
            active_listings: Seq::empty(),
        }
    }

    /// Whether `who` consents to the operation at hand.
    pub open spec fn authorizes(self, who: Address) -> bool {
        self.all_authorized || self.signers.contains(who)
    }

    /// The share record of `who`, if `who` holds units.
    pub open spec fn share_of(self, who: Address) -> Option<ShareDataKey> {
        if self.shares.contains_key(who) {
            Some(ShareDataKey { shareholder: who, share: self.shares[who] })
        } else {
            None
        }
    }

    /// The units of `who`; none where `who` is no holder.
    pub open spec fn units_of(self, who: Address) -> int {
        value_at(self.shares, who)
    }

    /// The units of all holders together.
    pub open spec fn total_units(self) -> int {
        sum_values(self.shares)
    }

    /// What `who` can claim of `token`; nothing where no claim is recorded.
    pub open spec fn allocation(self, who: Address, token: Address) -> int {
        value_at(self.allocations, AllocationKey { shareholder: who, token })
    }

    /// The recorded total of the claims on `token`; nothing where none is recorded.
    pub open spec fn total_allocation(self, token: Address) -> int {
        value_at(self.total_allocations, token)
    }

    /// The sum of the claims of all holders on `token`.
    pub open spec fn allocated(self, token: Address) -> int {
        claimed_in(self.allocations, token)
    }

    /// The commission policy in force.
    pub open spec fn commission_in_force(self) -> CommissionConfig {
        match self.commission {
            Some(c) => c,
            None => default_commission(),
        }
    }

    /// What `who` can claim of `token`, as it is recorded.
    pub open spec fn allocation_record(self, who: Address, token: Address) -> Option<i128> {
        let key = AllocationKey { shareholder: who, token };
        if self.allocations.contains_key(key) {
            Some(self.allocations[key])
        } else {
            None
        }
    }

    /// The total of the claims on `token`, as it is recorded.
    pub open spec fn total_allocation_record(self, token: Address) -> Option<i128> {
        if self.total_allocations.contains_key(token) {
            Some(self.total_allocations[token])
        } else {
            None
        }
    }

    /// The pool after the claim of `who` on `token` was set to `amount`: the
    /// recorded total moves by as much as the claim does.
    pub open spec fn save_allocation(self, who: Address, token: Address, amount: i128) -> State {
        let delta = amount - self.allocation(who, token);
        State {
            allocations: self.allocations.insert(AllocationKey { shareholder: who, token }, amount),
            total_allocations: if delta == 0 {
                self.total_allocations
            } else {
                with_total(self.total_allocations, token, self.total_allocation(token) + delta)
            },
            ..self
        }
    }

    /// The pool after the claim of `who` on `token` was struck out: a
    /// recorded total gives up what the claim held.
    pub open spec fn remove_allocation(self, who: Address, token: Address) -> State {
        State {
            allocations: self.allocations.remove(AllocationKey { shareholder: who, token }),
            total_allocations: if self.total_allocations.contains_key(token) {
                with_total(
                    self.total_allocations,
                    token,
                    self.total_allocation(token) - self.allocation(who, token),
                )
            } else {
                self.total_allocations
            },
            ..self
        }
    }

    /// The pool holds finitely many records.
    pub open spec fn finite(self) -> bool {
        &&& self.shares.dom().finite()
        &&& self.allocations.dom().finite()
        &&& self.total_allocations.dom().finite()
        &&& self.listings.dom().finite()
    }

    /// The registry: the list of holders names each holder once, no holder
    /// owns a negative number of units, and once the pool is configured the
    /// units add up to its supply.
    pub open spec fn registry_ok(self) -> bool {
        &&& self.shareholders.no_duplicates()
        &&& forall|a: Address| self.shareholders.contains(a) <==> self.shares.contains_key(a)
        &&& forall|a: Address| self.shares.contains_key(a) ==> self.shares[a] >= 0
        &&& self.config is Some ==> self.total_units() == TOTAL_SHARES
        &&& self.config is None ==> self.shareholders.len() == 0
    }

    /// The ledger: no claim is negative, and for every asset the recorded
    /// total is the sum of the claims on it, kept only while it is positive.
    pub open spec fn ledger_ok(self) -> bool {
        &&& forall|k: AllocationKey| self.allocations.contains_key(k) ==> self.allocations[k] >= 0
        &&& forall|t: Address| self.total_allocations.contains_key(t) ==> self.total_allocations[t] > 0
        &&& forall|t: Address| #[trigger]
            value_at(self.total_allocations, t) == claimed_in(self.allocations, t)
    }

    /// The marketplace: the list of sellers names each seller with an open
    /// offer once, and every offer is for a positive number of units at a
    /// positive price, under its seller's name.
    pub open spec fn market_ok(self) -> bool {
        &&& self.active_listings.no_duplicates()
        &&& forall|a: Address| self.active_listings.contains(a) <==> self.listings.contains_key(a)
        &&& forall|a: Address| #[trigger]
            self.listings.contains_key(a) ==> {
                &&& self.listings[a].seller == a
                &&& self.listings[a].shares_for_sale > 0
                &&& self.listings[a].price_per_share > 0
            }
    }

    /// The commission policy: both rates lie between nothing and the highest
    /// rate that can be set.
    pub open spec fn commission_ok(self) -> bool {
        &&& 0 <= self.commission_in_force().buy_rate_bps <= MAX_COMMISSION_BPS
        &&& 0 <= self.commission_in_force().distribution_rate_bps <= MAX_COMMISSION_BPS
    }

    /// All that holds of the pool between two operations.
    pub open spec fn consistent(self) -> bool {
        &&& self.finite()
        &&& self.registry_ok()
        &&& self.ledger_ok()
        &&& self.market_ok()
        &&& self.commission_ok()
    }
}

/// A pool that remembers nothing is in order.
pub proof fn lemma_empty_consistent()
    ensures
        State::empty().consistent(),
{
    let s = State::empty();
    lemma_sum_empty::<AllocationKey>();
    assert forall|t: Address| #[trigger]
        value_at(s.total_allocations, t) == claimed_in(s.allocations, t) by {
        assert(s.allocations.restrict(claims_on(t)) =~= Map::<AllocationKey, i128>::empty());
    }
}

/// The pool's memory, and the consent given to the operation at hand.
pub struct Env {
    all_authorized: bool,
    signers: Vec<Address>,
    config: Option<ConfigDataKey>,
    commission: Option<CommissionConfig>,
    shareholders: Vec<Address>,
    shares: Table<Address, i128>,
    allocations: Table<AllocationKey, i128>,
    total_allocations: Table<Address, i128>,
    listings: Table<Address, SaleListingDataKey>,
    active_listings: Vec<Address>,
}

impl View for Env {
    type V = State;

    closed spec fn view(&self) -> State {
        State {
            all_authorized: self.all_authorized,
            signers: self.signers@.to_set(),
            config: self.config,
            commission: self.commission,
            shareholders: self.shareholders@,
            shares: self.shares@,
            allocations: self.allocations@,
            total_allocations: self.total_allocations@,
            listings: self.listings@,
            active_listings: self.active_listings@,
        }
    }
}

/// A copy of a list of identities.
pub fn copy_addresses(list: &Vec<Address>) -> (r: Vec<Address>)
    ensures
        r@ == list@,
{
    let mut r: Vec<Address> = Vec::new();
    let mut i: usize = 0;
    while i < list.len()
        invariant
            i <= list@.len(),
            r@ == list@.take(i as int),
        decreases list@.len() - i,
    {
        r.push(list[i]);
        proof {
            assert(list@.take(i + 1) =~= list@.take(i as int).push(list@[i as int]));
        }
        i = i + 1;
    }
    proof {
        assert(list@.take(i as int) =~= list@);
    }
    r
}

impl Env {
    /// The records are kept as they should be: each under one name.
    pub closed spec fn wf(&self) -> bool {
        &&& self.shares.wf()
        &&& self.allocations.wf()
        &&& self.total_allocations.wf()
        &&& self.listings.wf()
    }

    /// The memory is in order and so is what it holds.
    pub open spec fn consistent(&self) -> bool {
        self.wf() && self@.consistent()
    }

    /// A memory in order holds finitely many records.
    pub proof fn lemma_finite(&self)
        requires
            self.wf(),
        ensures
            self@.finite(),
    {
        self.shares.lemma_finite();
        self.allocations.lemma_finite();
        self.total_allocations.lemma_finite();
        self.listings.lemma_finite();
    }

    /// A pool that remembers nothing, before anybody's consent.
    pub fn new() -> (e: Env)
        ensures
            e.consistent(),
            e@ == State::empty(),
    {
        proof {
            lemma_empty_consistent();
        }
        let e = Env {
            all_authorized: false,
            signers: Vec::new(),
            config: None,
            commission: None,
            shareholders: Vec::new(),
            shares: Table::new(),
            allocations: Table::new(),
            total_allocations: Table::new(),
            listings: Table::new(),
            active_listings: Vec::new(),
        };
        proof {
            assert(e.signers@.to_set() =~= Set::<Address>::empty());
        }
        e
    }

    /// Records the consent of `who` to the operations that follow.
    pub fn authorize(&mut self, who: Address)
        requires
            old(self).wf(),
        ensures
            final(self).wf(),
            final(self)@ == (State { signers: old(self)@.signers.insert(who), ..old(self)@ }),
    {
        self.signers.push(who);
        proof {
            let before = old(self).signers@;
            let after = self.signers@;
            assert forall|a: Address| after.to_set().contains(a) <==> before.to_set().insert(
                who,
            ).contains(a) by {
                if before.contains(a) {
                    let j = choose|j: int| 0 <= j < before.len() && before[j] == a;
                    assert(after[j] == a);
                }
                if a == who {
                    assert(after[before.len() as int] == a);
                }
            }
            assert(after.to_set() =~= before.to_set().insert(who));
        }
    }

    /// Records the consent of every identity to the operations that follow.
    pub fn authorize_all(&mut self)
        requires
            old(self).wf(),
        ensures
            final(self).wf(),
            final(self)@ == (State { all_authorized: true, ..old(self)@ }),
    {
        self.all_authorized = true;
    }

    /// Forgets every consent given so far.
    pub fn revoke_all(&mut self)
        requires
            old(self).wf(),
        ensures
            final(self).wf(),
            final(self)@ == (State {
                all_authorized: false,
                signers: Set::empty(),
                ..old(self)@
            }),
    {
        self.all_authorized = false;
        self.signers = Vec::new();
        proof {
            assert(self.signers@.to_set() =~= Set::<Address>::empty());
        }
    }

    /// Whether `who` consents to the operation at hand.
    pub fn authorizes(&self, who: &Address) -> (r: bool)
        ensures
            r == self@.authorizes(*who),
    {
        self.all_authorized || position(&self.signers, who).is_some()
    }

    /// Succeeds where `who` consents to the operation at hand.
    pub fn require_auth(&self, who: &Address) -> (r: Result<(), Error>)
        ensures
            r == (if self@.authorizes(*who) {
                Ok::<(), Error>(())
            } else {
                Err::<(), Error>(Error::Unauthorized)
            }),
    {
        if self.authorizes(who) {
            Ok(())
        } else {
            Err(Error::Unauthorized)
        }
    }
}

impl Default for Env {
    /// A pool that remembers nothing, before anybody's consent.
    fn default() -> (e: Env)
        ensures
            e.consistent(),
            e@ == State::empty(),
    {
        Env::new()
    }
}

impl ShareDataKey {
    /// Records that `shareholder` owns `share` units.
    pub fn save_share(e: &mut Env, shareholder: Address, share: i128)
        requires
            old(e).wf(),
        ensures
            final(e).wf(),
            final(e)@ == (State {
                shares: old(e)@.shares.insert(shareholder, share),
                ..old(e)@
            }),
    {
        e.shares.set(shareholder, share);
    }

    /// The share record of `shareholder`, if they hold units.
    pub fn get_share(e: &Env, shareholder: &Address) -> (r: Option<ShareDataKey>)
        requires
            e.wf(),
        ensures
            r == e@.share_of(*shareholder),
    {
        match e.shares.get(shareholder) {
            Some(share) => Some(ShareDataKey { shareholder: *shareholder, share }),
            None => None,
        }
    }

    /// Forgets the share record of `shareholder`.
    pub fn remove_share(e: &mut Env, shareholder: &Address)
        requires
            old(e).wf(),
        ensures
            final(e).wf(),
            final(e)@ == (State { shares: old(e)@.shares.remove(*shareholder), ..old(e)@ }),
    {
        e.shares.remove(shareholder);
    }

    /// Replaces the list of holders.
    pub fn save_shareholders(e: &mut Env, shareholders: Vec<Address>)
        requires
            old(e).wf(),
        ensures
            final(e).wf(),
            final(e)@ == (State { shareholders: shareholders@, ..old(e)@ }),
    {
        e.shareholders = shareholders;
    }

    /// The holders, in the order in which they joined.
    pub fn get_shareholders(e: &Env) -> (r: Vec<Address>)
        ensures
            r@ == e@.shareholders,
    {
        copy_addresses(&e.shareholders)
    }

    /// Empties the list of holders.
    pub fn remove_shareholders(e: &mut Env)
        requires
            old(e).wf(),
        ensures
            final(e).wf(),
            final(e)@ == (State { shareholders: Seq::empty(), ..old(e)@ }),
    {
        e.shareholders = Vec::new();
    }
}

impl ConfigDataKey {
    /// Configures the pool.
    pub fn init(e: &mut Env, admin: Address, mutable: bool)
        requires
            old(e).wf(),
        ensures
            final(e).wf(),
            final(e)@ == (State { config: Some(ConfigDataKey { admin, mutable }), ..old(e)@ }),
    {
        e.config = Some(ConfigDataKey { admin, mutable });
    }

    /// The configuration, if the pool has one.
    pub fn get(e: &Env) -> (r: Option<ConfigDataKey>)
        ensures
            r == e@.config,
    {
        e.config
    }

    /// Locks the registry against replacement, for good.
    pub fn lock_contract(e: &mut Env)
        requires
            old(e).wf(),
        ensures
            final(e).wf(),
            final(e)@ == (State {
                config: match old(e)@.config {
                    Some(c) => Some(ConfigDataKey { admin: c.admin, mutable: false }),
                    None => None,
                },
                ..old(e)@
            }),
    {
        match e.config {
            Some(c) => {
                e.config = Some(ConfigDataKey { admin: c.admin, mutable: false });
            },
            None => {},
        }
    }

    /// Whether the pool is configured.
    pub fn is_initialized(e: &Env) -> (r: bool)
        ensures
            r == e@.config is Some,
    {
        e.config.is_some()
    }

    /// Succeeds where the pool is configured and its administrator consents
    /// to the operation at hand.
    pub fn require_admin(e: &Env) -> (r: Result<(), Error>)
        ensures
            r == (match e@.config {
                None => Err::<(), Error>(Error::NotInitialized),
                Some(c) => if e@.authorizes(c.admin) {
                    Ok::<(), Error>(())
                } else {
                    Err::<(), Error>(Error::Unauthorized)
                },
            }),
    {
        match e.config {
            None => Err(Error::NotInitialized),
            Some(c) => e.require_auth(&c.admin),
        }
    }

    /// Whether the registry can no longer be replaced: it was locked, or the
    /// pool was never configured.
    pub fn is_contract_locked(e: &Env) -> (r: bool)
        ensures
            r == (match e@.config {
                Some(c) => !c.mutable,
                None => true,
            }),
    {
        match e.config {
            Some(c) => !c.mutable,
            None => true,
        }
    }
}

/// The claims on an asset are finitely many.
pub proof fn lemma_claims_finite(allocations: Map<AllocationKey, i128>, token: Address)
    requires
        allocations.dom().finite(),
    ensures
        allocations.restrict(claims_on(token)).dom().finite(),
{
    assert(allocations.restrict(claims_on(token)).dom() =~= allocations.dom().intersect(
        claims_on(token),
    ));
}

/// Setting one claim moves the sum of the claims on its asset by the
/// difference, and leaves the sums of the other assets alone.
pub proof fn lemma_save_allocation(s: State, who: Address, token: Address, amount: i128)
    requires
        s.allocations.dom().finite(),
    ensures
        s.save_allocation(who, token, amount).allocated(token) == s.allocated(token) + amount
            - s.allocation(who, token),
        forall|t: Address|
            t != token ==> #[trigger] s.save_allocation(who, token, amount).allocated(t)
                == s.allocated(t),
        s.ledger_ok() && amount >= 0 && s.allocated(token) + amount - s.allocation(who, token)
            <= i128::MAX ==> s.save_allocation(who, token, amount).ledger_ok(),
{
    let key = AllocationKey { shareholder: who, token };
    let after = s.save_allocation(who, token, amount);
    lemma_claims_finite(s.allocations, token);
    lemma_sum_insert(s.allocations.restrict(claims_on(token)), key, amount);
    assert(after.allocations.restrict(claims_on(token)) =~= s.allocations.restrict(
        claims_on(token),
    ).insert(key, amount));
    assert forall|t: Address| t != token implies #[trigger] after.allocated(t) == s.allocated(
        t,
    ) by {
        assert(after.allocations.restrict(claims_on(t)) =~= s.allocations.restrict(claims_on(t)));
    }
    if s.ledger_ok() && amount >= 0 && s.allocated(token) + amount - s.allocation(who, token)
        <= i128::MAX {
        lemma_claims_finite(after.allocations, token);
        lemma_sum_bounds(after.allocations.restrict(claims_on(token)));
        assert(s.total_allocation(token) == s.allocated(token));
        assert(after.allocated(token) >= 0);
        assert(after.total_allocation(token) == after.allocated(token));
        assert forall|t: Address| #[trigger]
            value_at(after.total_allocations, t) == claimed_in(after.allocations, t) by {
            if t != token {
                assert(s.total_allocation(t) == s.allocated(t));
                assert(after.allocated(t) == s.allocated(t));
                assert(after.total_allocations.contains_key(t)
                    == s.total_allocations.contains_key(t));
            }
        }
    }
}

/// Striking out one claim takes what it held from the sum of the claims on
/// its asset, and leaves the sums of the other assets alone.
pub proof fn lemma_remove_allocation(s: State, who: Address, token: Address)
    requires
        s.allocations.dom().finite(),
    ensures
        s.remove_allocation(who, token).allocated(token) == s.allocated(token) - s.allocation(
            who,
            token,
        ),
        forall|t: Address|
            t != token ==> #[trigger] s.remove_allocation(who, token).allocated(t) == s.allocated(
                t,
            ),
        s.ledger_ok() ==> s.remove_allocation(who, token).ledger_ok(),
{
    let key = AllocationKey { shareholder: who, token };
    let after = s.remove_allocation(who, token);
    let claims = s.allocations.restrict(claims_on(token));
    lemma_claims_finite(s.allocations, token);
    if s.allocations.contains_key(key) {
        lemma_sum_remove(claims, key);
    } else {
        assert(claims.remove(key) =~= claims);
    }
    assert(after.allocations.restrict(claims_on(token)) =~= claims.remove(key));
    assert forall|t: Address| t != token implies #[trigger] after.allocated(t) == s.allocated(
        t,
    ) by {
        assert(after.allocations.restrict(claims_on(t)) =~= s.allocations.restrict(claims_on(t)));
    }
    if s.ledger_ok() {
        lemma_claims_finite(after.allocations, token);
        lemma_sum_bounds(after.allocations.restrict(claims_on(token)));
        assert(s.total_allocation(token) == s.allocated(token));
        assert(after.allocated(token) >= 0);
        assert(after.total_allocation(token) == after.allocated(token));
        assert forall|t: Address| #[trigger]
            value_at(after.total_allocations, t) == claimed_in(after.allocations, t) by {
            if t != token {
                assert(s.total_allocation(t) == s.allocated(t));
                assert(after.allocated(t) == s.allocated(t));
                assert(after.total_allocations.contains_key(t)
                    == s.total_allocations.contains_key(t));
            }
        }
    }
}

impl AllocationDataKey {
    /// Sets what `shareholder` can claim of `token` to `new_allocation`, and
    /// moves the recorded total of `token` by as much as the claim moved.
    pub fn save_allocation(e: &mut Env, shareholder: &Address, token: &Address, new_allocation: i128)
        requires
            old(e).wf(),
            i128::MIN <= new_allocation - old(e)@.allocation(*shareholder, *token) <= i128::MAX,
            i128::MIN <= old(e)@.total_allocation(*token) + new_allocation - old(e)@.allocation(
                *shareholder,
                *token,
            ) <= i128::MAX,
        ensures
            final(e).wf(),
            final(e)@ == old(e)@.save_allocation(*shareholder, *token, new_allocation),
    {
        let old_allocation: i128 = match Self::get_allocation(e, shareholder, token) {
            Some(a) => a,
            None => 0,
        };
        let delta: i128 = new_allocation - old_allocation;
        if delta != 0 {
            match Self::get_total_allocation(e, token) {
                Some(total_allocation) => {
                    let new_total: i128 = total_allocation + delta;
                    if new_total <= 0 {
                        Self::remove_total_allocation(e, token);
                    } else {
                        Self::save_total_allocation(e, token, new_total);
                    }
                },
                None => {
                    if delta > 0 {
                        Self::save_total_allocation(e, token, delta);
                    }
                },
            }
        }
        e.allocations.set(AllocationKey { shareholder: *shareholder, token: *token }, new_allocation);
        proof {
            let expected = old(e)@.save_allocation(*shareholder, *token, new_allocation);
            assert(e@.total_allocations =~= expected.total_allocations);
            assert(e@.allocations =~= expected.allocations);
        }
    }

    /// Strikes out what `shareholder` can claim of `token`, and takes it from
    /// the recorded total of `token`.
    pub fn remove_allocation(e: &mut Env, shareholder: &Address, token: &Address)
        requires
            old(e).wf(),
            i128::MIN <= old(e)@.total_allocation(*token) - old(e)@.allocation(
                *shareholder,
                *token,
            ) <= i128::MAX,
        ensures
            final(e).wf(),
            final(e)@ == old(e)@.remove_allocation(*shareholder, *token),
    {
        match Self::get_total_allocation(e, token) {
            Some(total_allocation) => {
                let allocation: i128 = match Self::get_allocation(e, shareholder, token) {
                    Some(a) => a,
                    None => 0,
                };
                let new_total_allocation: i128 = total_allocation - allocation;
                if new_total_allocation <= 0 {
                    Self::remove_total_allocation(e, token);
                } else {
                    Self::save_total_allocation(e, token, new_total_allocation);
                }
            },
            None => {},
        }
        e.allocations.remove(&AllocationKey { shareholder: *shareholder, token: *token });
        proof {
            let expected = old(e)@.remove_allocation(*shareholder, *token);
            assert(e@.total_allocations =~= expected.total_allocations);
            assert(e@.allocations =~= expected.allocations);
        }
    }

    /// What `shareholder` can claim of `token`, if a claim is recorded.
    pub fn get_allocation(e: &Env, shareholder: &Address, token: &Address) -> (r: Option<i128>)
        requires
            e.wf(),
        ensures
            r == e@.allocation_record(*shareholder, *token),
    {
        e.allocations.get(&AllocationKey { shareholder: *shareholder, token: *token })
    }

    /// Records `total_allocation` as the total of the claims on `token`.
    pub fn save_total_allocation(e: &mut Env, token: &Address, total_allocation: i128)
        requires
            old(e).wf(),
        ensures
            final(e).wf(),
            final(e)@ == (State {
                total_allocations: old(e)@.total_allocations.insert(*token, total_allocation),
                ..old(e)@
            }),
    {
        e.total_allocations.set(*token, total_allocation);
    }

    /// Forgets the total of the claims on `token`.
    pub fn remove_total_allocation(e: &mut Env, token: &Address)
        requires
            old(e).wf(),
        ensures
            final(e).wf(),
            final(e)@ == (State {
                total_allocations: old(e)@.total_allocations.remove(*token),
                ..old(e)@
            }),
    {
        e.total_allocations.remove(token);
    }

    /// All recorded claims, each once.
    pub fn list_allocations(e: &Env) -> (r: Vec<AllocationRecord>)
        requires
            e.wf(),
        ensures
            forall|i: int|
                0 <= i < r@.len() ==> e@.allocations.contains_key((#[trigger] r@[i]).key())
                    && e@.allocations[r@[i].key()] == r@[i].amount,
            forall|i: int, j: int|
                0 <= i < j < r@.len() ==> (#[trigger] r@[i]).key() != (#[trigger] r@[j]).key(),
            forall|k: AllocationKey|
                e@.allocations.contains_key(k) ==> exists|i: int|
                    0 <= i < r@.len() && (#[trigger] r@[i]).key() == k,
    {
        let entries = e.allocations.entries();
        let mut r: Vec<AllocationRecord> = Vec::new();
        let mut i: usize = 0;
        while i < entries.len()
            invariant
                i <= entries@.len(),
                r@.len() == i,
                forall|j: int|
                    0 <= j < i ==> (#[trigger] r@[j]).key() == entries@[j].0 && r@[j].amount
                        == entries@[j].1,
            decreases entries@.len() - i,
        {
            let entry = entries[i];
            r.push(
                AllocationRecord {
                    shareholder: entry.0.shareholder,
                    token: entry.0.token,
                    amount: entry.1,
                },
            );
            i = i + 1;
        }
        proof {
            assert forall|k: AllocationKey| e@.allocations.contains_key(k) implies exists|i: int|
                0 <= i < r@.len() && (#[trigger] r@[i]).key() == k by {
                let j = choose|j: int| 0 <= j < entries@.len() && (#[trigger] entries@[j]).0 == k;
                assert(r@[j].key() == k);
            }
            assert forall|i: int| 0 <= i < r@.len() implies e@.allocations.contains_key(
                (#[trigger] r@[i]).key(),
            ) && e@.allocations[r@[i].key()] == r@[i].amount by {
                assert(entries@[i].0 == r@[i].key());
            }
            assert forall|i: int, j: int| 0 <= i < j < r@.len() implies (#[trigger] r@[i]).key() != (
            #[trigger] r@[j]).key() by {
                assert(entries@[i].0 != entries@[j].0);
            }
        }
        r
    }

    /// The recorded total of the claims on `token`, if there is one.
    pub fn get_total_allocation(e: &Env, token: &Address) -> (r: Option<i128>)
        requires
            e.wf(),
        ensures
            r == e@.total_allocation_record(*token),
    {
        e.total_allocations.get(token)
    }
}

/// Takes the first occurrence of `who` out of `list`; says whether there was one.
pub fn remove_address(list: &mut Vec<Address>, who: &Address) -> (found: bool)
    ensures
        found == old(list)@.contains(*who),
        final(list)@ == old(list)@.remove_value(*who),
{
    proof {
        old(list)@.index_of_first_ensures(*who);
    }
    match position(list, who) {
        Some(index) => {
            proof {
                let first: int = old(list)@.index_of_first(*who).unwrap();
                if first < index {
                    assert(old(list)@.take(index as int)[first] == *who);
                }
            }
            list.remove(index);
            true
        },
        None => false,
    }
}

impl SaleListingDataKey {
    /// Records the offer of `seller`, in place of the one they had, and puts
    /// them on the list of sellers if they are not on it.
    pub fn save_listing(
        e: &mut Env,
        seller: Address,
        shares_for_sale: i128,
        price_per_share: i128,
        payment_token: Address,
    )
        requires
            old(e).wf(),
        ensures
            final(e).wf(),
            final(e)@ == (State {
                listings: old(e)@.listings.insert(
                    seller,
                    SaleListingDataKey { seller, shares_for_sale, price_per_share, payment_token },
                ),
                active_listings: with_member(old(e)@.active_listings, seller),
                ..old(e)@
            }),
    {
        let listing = SaleListingDataKey { seller, shares_for_sale, price_per_share, payment_token };
        e.listings.set(seller, listing);
        Self::add_to_active_listings(e, &seller);
    }

    /// The offer of `seller`, if they have one.
    pub fn get_listing(e: &Env, seller: &Address) -> (r: Option<SaleListingDataKey>)
        requires
            e.wf(),
        ensures
            r == e@.listings.get(*seller),
    {
        e.listings.get(seller)
    }

    /// Forgets the offer of `seller`, and takes them off the list of sellers.
    pub fn remove_listing(e: &mut Env, seller: &Address)
        requires
            old(e).wf(),
        ensures
            final(e).wf(),
            final(e)@ == (State {
                listings: old(e)@.listings.remove(*seller),
                active_listings: old(e)@.active_listings.remove_value(*seller),
                ..old(e)@
            }),
    {
        e.listings.remove(seller);
        Self::remove_from_active_listings(e, seller);
    }

    /// The sellers with an open offer, in the order in which they listed.
    pub fn get_active_listings(e: &Env) -> (r: Vec<Address>)
        ensures
            r@ == e@.active_listings,
    {
        copy_addresses(&e.active_listings)
    }

    fn add_to_active_listings(e: &mut Env, seller: &Address)
        requires
            old(e).wf(),
        ensures
            final(e).wf(),
            final(e)@ == (State {
                active_listings: with_member(old(e)@.active_listings, *seller),
                ..old(e)@
            }),
    {
        if position(&e.active_listings, seller).is_none() {
            e.active_listings.push(*seller);
        }
    }

    fn remove_from_active_listings(e: &mut Env, seller: &Address)
        requires
            old(e).wf(),
        ensures
            final(e).wf(),
            final(e)@ == (State {
                active_listings: old(e)@.active_listings.remove_value(*seller),
                ..old(e)@
            }),
    {
        remove_address(&mut e.active_listings, seller);
    }
}

impl CommissionConfig {
    /// The commission policy in force. A pool that has none yet gets the
    /// default policy, and keeps it.
    pub fn get(e: &mut Env) -> (r: CommissionConfig)
        requires
            old(e).wf(),
        ensures
            final(e).wf(),
            r == old(e)@.commission_in_force(),
            final(e)@ == (State { commission: Some(r), ..old(e)@ }),
    {
        match e.commission {
            Some(config) => config,
            None => {
                let default_config = CommissionConfig {
                    recipient: default_commission_address(),
                    buy_rate_bps: BUY_COMMISSION_BPS,
                    distribution_rate_bps: DISTRIBUTION_COMMISSION_BPS,
                };
                e.commission = Some(default_config);
                default_config
            },
        }
    }

    /// The commission policy on record, if there is one.
    pub fn load(e: &Env) -> (r: Option<CommissionConfig>)
        ensures
            r == e@.commission,
    {
        e.commission
    }

    /// Puts a commission policy on record.
    pub fn save(e: &mut Env, config: CommissionConfig)
        requires
            old(e).wf(),
        ensures
            final(e).wf(),
            final(e)@ == (State { commission: Some(config), ..old(e)@ }),
    {
        e.commission = Some(config);
    }

    /// The commission policy in force, read without touching the pool.
    pub fn peek(e: &Env) -> (r: CommissionConfig)
        ensures
            r == e@.commission_in_force(),
    {
        match e.commission {
            Some(config) => config,
            None => CommissionConfig {
                recipient: default_commission_address(),
                buy_rate_bps: BUY_COMMISSION_BPS,
                distribution_rate_bps: DISTRIBUTION_COMMISSION_BPS,
            },
        }
    }

    /// Names a new recipient of commissions. Only the current recipient can.
    pub fn set_recipient(e: &mut Env, new_recipient: Address) -> (r: Result<(), Error>)
        requires
            old(e).wf(),
        ensures
            final(e).wf(),
            r == (if old(e)@.authorizes(old(e)@.commission_in_force().recipient) {
                Ok::<(), Error>(())
            } else {
                Err::<(), Error>(Error::Unauthorized)
            }),
            r is Err ==> final(e)@ == old(e)@,
            r is Ok ==> final(e)@ == (State {
                commission: Some(
                    CommissionConfig {
                        recipient: new_recipient,
                        ..old(e)@.commission_in_force()
                    },
                ),
                ..old(e)@
            }),
    {
        let config = Self::peek(e);
        if !e.authorizes(&config.recipient) {
            return Err(Error::Unauthorized);
        }
        e.commission = Some(
            CommissionConfig {
                recipient: new_recipient,
                buy_rate_bps: config.buy_rate_bps,
                distribution_rate_bps: config.distribution_rate_bps,
            },
        );
        Ok(())
    }

    /// Sets the commission on purchases. Only the current recipient can, and
    /// only to a rate between nothing and half.
    pub fn set_buy_rate(e: &mut Env, new_rate_bps: i128) -> (r: Result<(), Error>)
        requires
            old(e).wf(),
        ensures
            final(e).wf(),
            r == rate_change(old(e)@, new_rate_bps),
            r is Err ==> final(e)@ == old(e)@,
            r is Ok ==> final(e)@ == (State {
                commission: Some(
                    CommissionConfig {
                        buy_rate_bps: new_rate_bps,
                        ..old(e)@.commission_in_force()
                    },
                ),
                ..old(e)@
            }),
    {
        let config = Self::peek(e);
        if !e.authorizes(&config.recipient) {
            return Err(Error::Unauthorized);
        }
        if new_rate_bps < 0 || new_rate_bps > MAX_COMMISSION_BPS {
            return Err(Error::InvalidCommissionRate);
        }
        e.commission = Some(
            CommissionConfig {
                recipient: config.recipient,
                buy_rate_bps: new_rate_bps,
                distribution_rate_bps: config.distribution_rate_bps,
            },
        );
        Ok(())
    }

    /// Sets the commission on distributions. Only the current recipient can,
    /// and only to a rate between nothing and half.
    pub fn set_distribution_rate(e: &mut Env, new_rate_bps: i128) -> (r: Result<(), Error>)
        requires
            old(e).wf(),
        ensures
            final(e).wf(),
            r == rate_change(old(e)@, new_rate_bps),
            r is Err ==> final(e)@ == old(e)@,
            r is Ok ==> final(e)@ == (State {
                commission: Some(
                    CommissionConfig {
                        distribution_rate_bps: new_rate_bps,
                        ..old(e)@.commission_in_force()
                    },
                ),
                ..old(e)@
            }),
    {
        let config = Self::peek(e);
        if !e.authorizes(&config.recipient) {
            return Err(Error::Unauthorized);
        }
        if new_rate_bps < 0 || new_rate_bps > MAX_COMMISSION_BPS {
            return Err(Error::InvalidCommissionRate);
        }
        e.commission = Some(
            CommissionConfig {
                recipient: config.recipient,
                buy_rate_bps: config.buy_rate_bps,
                distribution_rate_bps: new_rate_bps,
            },
        );
        Ok(())
    }

    /// The commission on `amount` at `rate_bps` basis points, rounded down.
    pub fn calculate_commission(amount: i128, rate_bps: i128) -> (r: i128)
        requires
            0 <= amount,
            0 <= rate_bps <= 10000,
        ensures
            r == portion(amount as int, rate_bps as int),
            0 <= r <= amount,
    {
        mul_div(amount, rate_bps)
    }
}

/// Whether a change of a commission rate to `new_rate_bps` goes through:
/// the current recipient must consent, and the rate must be in range.
pub open spec fn rate_change(s: State, new_rate_bps: i128) -> Result<(), Error> {
    if !s.authorizes(s.commission_in_force().recipient) {
        Err(Error::Unauthorized)
    } else if new_rate_bps < 0 || new_rate_bps > MAX_COMMISSION_BPS {
        Err(Error::InvalidCommissionRate)
    } else {
        Ok(())
    }
}

} // verus!
