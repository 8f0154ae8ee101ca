use vstd::prelude::*;
use crate::address::Address;
use crate::errors::Error;
use crate::logic::execute::buy_shares;
use crate::logic::execute::cancel_listing;
use crate::logic::execute::distribute_tokens;
use crate::logic::execute::init;
use crate::logic::execute::list_shares_for_sale;
use crate::logic::execute::lock_contract;
use crate::logic::execute::transfer_shares;
use crate::logic::execute::update_shares;
use crate::logic::execute::withdraw_allocation;
use crate::logic::helpers::{
    holders_of, lemma_moved, lemma_recorded, moved, recorded, share_error,
};
use crate::math::portion;
use crate::storage::{rate_change, CommissionConfig, SaleListingDataKey, ShareDataKey, State};
use crate::table::lemma_remove_value;

verus! {

/// One call of an operation that can change what the pool remembers, with
/// what is handed to it.
pub enum Operation {
    Init { admin: Address, shares: Seq<ShareDataKey>, mutable: bool },
    UpdateShares { shares: Seq<ShareDataKey> },
    LockContract,
    DistributeTokens { token: Address, balance: i128 },
    WithdrawAllocation { token: Address, shareholder: Address, amount: i128 },
    TransferShares { from: Address, to: Address, amount: i128 },
    ListSharesForSale {
        seller: Address,
        shares_amount: i128,
        price_per_share: i128,
        payment_token: Address,
    },
    CancelListing { seller: Address },
    BuyShares { buyer: Address, seller: Address, shares_amount: i128 },
    SetCommissionRecipient { new_recipient: Address },
    SetBuyCommissionRate { new_rate_bps: i128 },
    SetDistributionCommissionRate { new_rate_bps: i128 },
    GetCommissionConfig,
}

/// Why the pool refuses the call, if it does.
pub open spec fn refused(s: State, op: Operation) -> Option<Error> {
    match op {
        Operation::Init { admin, shares, mutable } => init::refusal(s, shares),
        Operation::UpdateShares { shares } => update_shares::refusal(s, shares),
        Operation::LockContract => lock_contract::refusal(s),
        Operation::DistributeTokens { token, balance } => distribute_tokens::refusal(s),
        Operation::WithdrawAllocation { token, shareholder, amount } => {
            withdraw_allocation::refusal(s, token, shareholder, amount as int)
        },
        Operation::TransferShares { from, to, amount } => transfer_shares::refusal(
            s,
            from,
            to,
            amount as int,
        ),
        Operation::ListSharesForSale { seller, shares_amount, price_per_share, payment_token } => {
            list_shares_for_sale::refusal(s, seller, shares_amount as int, price_per_share as int)
        },
        Operation::CancelListing { seller } => cancel_listing::refusal(s, seller),
        Operation::BuyShares { buyer, seller, shares_amount } => buy_shares::refusal(
            s,
            buyer,
            seller,
            shares_amount as int,
        ),
        Operation::SetCommissionRecipient { new_recipient } => {
            if s.authorizes(s.commission_in_force().recipient) {
                None
            } else {
                Some(Error::Unauthorized)
            }
        },
        Operation::SetBuyCommissionRate { new_rate_bps } => match rate_change(s, new_rate_bps) {
            Ok(_) => None,
            Err(e) => Some(e),
        },
        Operation::SetDistributionCommissionRate { new_rate_bps } => match rate_change(
            s,
            new_rate_bps,
        ) {
            Ok(_) => None,
            Err(e) => Some(e),
        },
        Operation::GetCommissionConfig => None,
    }
}

/// The pool after the call: as it was where the call is refused.
pub open spec fn after(s: State, op: Operation) -> State {
    if refused(s, op) is Some {
        s
    } else {
        match op {
            Operation::Init { admin, shares, mutable } => init::initialized(
                s,
                admin,
                shares,
                mutable,
            ),
            Operation::UpdateShares { shares } => update_shares::replaced(s, shares),
            Operation::LockContract => lock_contract::locked(s),
            Operation::DistributeTokens { token, balance } => distribute_tokens::distributed(
                s,
                token,
                balance as int,
            ),
            Operation::WithdrawAllocation { token, shareholder, amount } => {
                withdraw_allocation::withdrawn(s, token, shareholder, amount as int)
            },
            Operation::TransferShares { from, to, amount } => moved(s, from, to, amount as int),
            Operation::ListSharesForSale {
                seller,
                shares_amount,
                price_per_share,
                payment_token,
            } => list_shares_for_sale::listed(
                s,
                seller,
                shares_amount,
                price_per_share,
                payment_token,
            ),
            Operation::CancelListing { seller } => cancel_listing::unlisted(s, seller),
            Operation::BuyShares { buyer, seller, shares_amount } => buy_shares::sold(
                s,
                buyer,
                seller,
                shares_amount as int,
            ),
            Operation::SetCommissionRecipient { new_recipient } => State {
                commission: Some(
                    CommissionConfig { recipient: new_recipient, ..s.commission_in_force() },
                ),
                ..s
            },
            Operation::SetBuyCommissionRate { new_rate_bps } => State {
                commission: Some(
                    CommissionConfig { buy_rate_bps: new_rate_bps, ..s.commission_in_force() },
                ),
                ..s
            },
            Operation::SetDistributionCommissionRate { new_rate_bps } => State {
                commission: Some(
                    CommissionConfig {
                        distribution_rate_bps: new_rate_bps,
                        ..s.commission_in_force()
                    },
                ),
                ..s
            },
            Operation::GetCommissionConfig => State {
                commission: Some(s.commission_in_force()),
                ..s
            },
        }
    }
}

/// Whatever is called on a pool in order, and whether the call goes through
/// or is refused, the pool is in order afterwards.
pub proof fn law_order_is_kept(s: State, op: Operation)
    requires
        s.consistent(),
    ensures
        after(s, op).consistent(),
{
    if refused(s, op) is None {
        match op {
            Operation::Init { admin, shares, mutable } => {
                init::lemma_initialized(s, admin, shares, mutable);
            },
            Operation::UpdateShares { shares } => {
                update_shares::lemma_replaced(s, shares);
            },
            Operation::LockContract => {},
            Operation::DistributeTokens { token, balance } => {
                distribute_tokens::lemma_distributed(s, token, balance);
            },
            Operation::WithdrawAllocation { token, shareholder, amount } => {
                withdraw_allocation::lemma_withdrawn(s, token, shareholder, amount);
            },
            Operation::TransferShares { from, to, amount } => {
                lemma_moved(s, from, to, amount as int);
            },
            Operation::ListSharesForSale {
                seller,
                shares_amount,
                price_per_share,
                payment_token,
            } => {
                list_shares_for_sale::lemma_listed(
                    s,
                    seller,
                    shares_amount,
                    price_per_share,
                    payment_token,
                );
            },
            Operation::CancelListing { seller } => {
                cancel_listing::lemma_unlisted(s, seller);
            },
            Operation::BuyShares { buyer, seller, shares_amount } => {
                buy_shares::lemma_sold(s, buyer, seller, shares_amount);
            },
            Operation::SetCommissionRecipient { new_recipient } => {},
            Operation::SetBuyCommissionRate { new_rate_bps } => {},
            Operation::SetDistributionCommissionRate { new_rate_bps } => {},
            Operation::GetCommissionConfig => {},
        }
    }
}

/// Once the pool is set up, no call changes who administers it, and none
/// unlocks a registry that was locked.
pub proof fn law_configuration_is_kept(s: State, op: Operation)
    requires
        s.config is Some,
    ensures
        after(s, op).config is Some,
        after(s, op).config.unwrap().admin == s.config.unwrap().admin,
        after(s, op).config.unwrap().mutable ==> s.config.unwrap().mutable,
{
}

/// Whether every holder owns at least one unit.
pub open spec fn holders_own_units(s: State) -> bool {
    forall|a: Address| s.shares.contains_key(a) ==> #[trigger] s.shares[a] >= 1
}

/// Whether the call hands in a share record of no units.
pub open spec fn hands_in_nothing(op: Operation) -> bool {
    match op {
        Operation::Init { admin, shares, mutable } => exists|i: int|
            0 <= i < shares.len() && (#[trigger] shares[i]).share == 0,
        Operation::UpdateShares { shares } => exists|i: int|
            0 <= i < shares.len() && (#[trigger] shares[i]).share == 0,
        _ => false,
    }
}

/// A holder left without units leaves the registry: where every holder
/// owns at least one unit, that is still so after any call, unless the call
/// itself hands in a share record of no units.
pub proof fn law_holders_own_units(s: State, op: Operation)
    requires
        s.consistent(),
        holders_own_units(s),
        !hands_in_nothing(op),
    ensures
        holders_own_units(after(s, op)),
{
    law_order_is_kept(s, op);
    let then = after(s, op);
    if refused(s, op) is None {
        match op {
            Operation::Init { admin, shares, mutable } => {
                lemma_handed_in(shares);
            },
            Operation::UpdateShares { shares } => {
                lemma_handed_in(shares);
            },
            Operation::TransferShares { from, to, amount } => {
                lemma_moved(s, from, to, amount as int);
                assert(s.shares[from] >= 1);
                assert forall|a: Address| then.shares.contains_key(a) implies #[trigger] then.shares[a]
                    >= 1 by {
                    if a != from && a != to {
                        assert(s.shares.contains_key(a));
                        assert(s.shares[a] >= 1);
                    }
                    if s.shares.contains_key(to) {
                        assert(s.shares[to] >= 1);
                    }
                }
            },
            Operation::BuyShares { buyer, seller, shares_amount } => {
                let read = State { commission: Some(s.commission_in_force()), ..s };
                let handed = moved(read, seller, buyer, shares_amount as int);
                lemma_moved(read, seller, buyer, shares_amount as int);
                assert(s.shares[seller] >= 1);
                assert forall|a: Address| handed.shares.contains_key(a) implies #[trigger] handed.shares[a]
                    >= 1 by {
                    if a != seller && a != buyer {
                        assert(s.shares.contains_key(a));
                        assert(s.shares[a] >= 1);
                    }
                    if s.shares.contains_key(buyer) {
                        assert(s.shares[buyer] >= 1);
                    }
                }
                assert(then.shares == handed.shares);
            },
            _ => {},
        }
    }
}

/// Records that pass the checks and hold no record of no units give every
/// identity that they name at least one unit.
pub proof fn lemma_handed_in(shares: Seq<ShareDataKey>)
    requires
        share_error(shares) is None,
        forall|i: int| 0 <= i < shares.len() ==> (#[trigger] shares[i]).share != 0,
    ensures
        forall|a: Address|
            recorded(Map::empty(), shares).contains_key(a) ==> #[trigger] recorded(
                Map::empty(),
                shares,
            )[a] >= 1,
{
    lemma_recorded(shares);
    let made = recorded(Map::empty(), shares);
    assert forall|a: Address| made.contains_key(a) implies #[trigger] made[a] >= 1 by {
        assert(holders_of(shares).contains(a));
        let i = choose|i: int| 0 <= i < shares.len() && holders_of(shares)[i] == a;
        assert(shares[i].shareholder == a);
        assert(shares[i].share != 0);
        assert(shares[i].share >= 0);
    }
}

/// After any call on a pool in order, the units of all holders add up to
/// the pool's supply of ten thousand, provided that the pool is set up by
/// then. (Before it is set up nobody holds a unit.)
pub proof fn law_supply_is_constant(s: State, op: Operation)
    requires
        s.consistent(),
    ensures
        after(s, op).config is Some ==> after(s, op).total_units() == 10000,
        after(s, op).config is None ==> after(s, op).total_units() == 0,
        s.config is Some ==> after(s, op).config is Some,
{
    law_order_is_kept(s, op);
    let then = after(s, op);
    if then.config is None {
        assert forall|a: Address| !then.shares.contains_key(a) by {
            assert(then.shareholders.contains(a) <==> then.shares.contains_key(a));
        }
        assert(then.shares =~= Map::<Address, i128>::empty());
    }
}

/// After any call on a pool in order, what is recorded as the total of the
/// claims on an asset is the sum of the claims of all holders on it.
pub proof fn law_totals_match_claims(s: State, op: Operation, token: Address)
    requires
        s.consistent(),
    ensures
        after(s, op).total_allocation(token) == after(s, op).allocated(token),
{
    law_order_is_kept(s, op);
}

/// A second distribution that follows a first one with no deposit in
/// between changes nothing and pays nothing: the balance that it finds is
/// the one that the first found, less the commission that the first paid.
pub proof fn law_distribution_is_idempotent(s: State, token: Address, balance: i128)
    requires
        s.consistent(),
        distribute_tokens::refusal(s) is None,
    ensures
        ({
            let first = distribute_tokens::distribution(s, token, balance as int);
            let then = distribute_tokens::distributed(s, token, balance as int);
            let paid: int = match first.commission {
                Some(t) => t.amount as int,
                None => 0,
            };
            &&& distribute_tokens::refusal(then) is None
            &&& distribute_tokens::distributed(then, token, balance - paid) == then
            &&& distribute_tokens::distribution(then, token, balance - paid)
                == (distribute_tokens::Distribution {
                commission: None,
                total_distributed: 0,
                dust: 0,
                dust_to: None,
            })
        }),
{
    distribute_tokens::lemma_distributed(s, token, balance);
}

/// A distribution leaves nothing unallocated: what the holders are credited
/// with, dust included, is exactly what is distributable less the
/// commission, and the claims on the asset grow by exactly as much.
pub proof fn law_distribution_is_full(s: State, token: Address, balance: i128)
    requires
        s.consistent(),
        distribute_tokens::refusal(s) is None,
        distribute_tokens::distributable(s, token, balance as int) > 0,
    ensures
        distribute_tokens::distribution(s, token, balance as int).total_distributed
            == distribute_tokens::distributable(s, token, balance as int)
            - distribute_tokens::commission_due(s, token, balance as int),
        distribute_tokens::distributed(s, token, balance as int).allocated(token) == s.allocated(
            token,
        ) + distribute_tokens::distributable(s, token, balance as int)
            - distribute_tokens::commission_due(s, token, balance as int),
{
    distribute_tokens::lemma_distributed(s, token, balance);
}

/// Dust goes to the holder with the most units, and among several with the
/// most, to the one who stands first in the registry: that holder's claim
/// grows by their part and the dust, every other holder's by their part.
pub proof fn law_dust_goes_to_first_largest(s: State, token: Address, balance: i128, first: int)
    requires
        s.consistent(),
        distribute_tokens::refusal(s) is None,
        distribute_tokens::distributable(s, token, balance as int) > 0,
        distribute_tokens::dust(s, token, balance as int) > 0,
        0 <= first < s.shareholders.len(),
        forall|j: int|
            0 <= j < s.shareholders.len() ==> s.units_of(#[trigger] s.shareholders[j])
                <= s.units_of(s.shareholders[first]),
        forall|j: int|
            0 <= j < first ==> s.units_of(#[trigger] s.shareholders[j]) < s.units_of(
                s.shareholders[first],
            ),
    ensures
        distribute_tokens::dust_goes_to(s, token, balance as int) == Some(s.shareholders[first]),
        forall|j: int|
            0 <= j < s.shareholders.len() ==> distribute_tokens::distributed(
                s,
                token,
                balance as int,
            ).allocation(#[trigger] s.shareholders[j], token) == s.allocation(
                s.shareholders[j],
                token,
            ) + portion(
                distribute_tokens::remainder(s, token, balance as int),
                s.units_of(s.shareholders[j]),
            ) + (if j == first {
                distribute_tokens::dust(s, token, balance as int)
            } else {
                0
            }),
{
    let n = s.shareholders.len() as int;
    let b = balance as int;
    let rest = distribute_tokens::remainder(s, token, b);
    let left = distribute_tokens::dust(s, token, b);
    let read = State { commission: Some(s.commission_in_force()), ..s };
    let then = distribute_tokens::distributed(s, token, b);
    distribute_tokens::lemma_distributed(s, token, balance);
    let found = choose|i: int| distribute_tokens::leads(s.shareholders, s.shares, n, i);
    assert(distribute_tokens::leads(s.shareholders, s.shares, n, found));
    assert(s.units_of(s.shareholders[first]) > 0) by {
        assert(s.units_of(s.shareholders[found]) <= s.units_of(s.shareholders[first]));
    }
    assert(distribute_tokens::leads(s.shareholders, s.shares, n, first));
    distribute_tokens::lemma_leads_unique(s.shareholders, s.shares, n, found, first);
    assert(s.shareholders.take(n) =~= s.shareholders);
    distribute_tokens::lemma_claims_in_range(s, token, balance);
    assert forall|j: int| 0 <= j < n implies then.allocation(#[trigger] s.shareholders[j], token)
        == s.allocation(s.shareholders[j], token) + portion(rest, s.units_of(s.shareholders[j]))
        + (if j == first {
        left
    } else {
        0
    }) by {
        let who = s.shareholders[j];
        assert(s.shareholders.contains(who));
        if j != first {
            assert(who != s.shareholders[first]);
        }
    }
}

/// Listing, withdrawing the offer and listing again on other terms goes
/// through, and leaves the seller with one offer, on the latest terms; every
/// other offer is as it was.
pub proof fn law_relisting_keeps_the_latest(
    s: State,
    seller: Address,
    first: SaleListingDataKey,
    second: SaleListingDataKey,
)
    requires
        s.consistent(),
        list_shares_for_sale::refusal(
            s,
            seller,
            first.shares_for_sale as int,
            first.price_per_share as int,
        ) is None,
        second.shares_for_sale > 0,
        second.price_per_share > 0,
        second.shares_for_sale <= s.units_of(seller),
        first.seller == seller,
        second.seller == seller,
    ensures
        ({
            let listed = list_shares_for_sale::listed(
                s,
                seller,
                first.shares_for_sale,
                first.price_per_share,
                first.payment_token,
            );
            let cancelled = cancel_listing::unlisted(listed, seller);
            let relisted = list_shares_for_sale::listed(
                cancelled,
                seller,
                second.shares_for_sale,
                second.price_per_share,
                second.payment_token,
            );
            &&& cancel_listing::refusal(listed, seller) is None
            &&& !cancelled.listings.contains_key(seller)
            &&& list_shares_for_sale::refusal(
                cancelled,
                seller,
                second.shares_for_sale as int,
                second.price_per_share as int,
            ) is None
            &&& relisted.listings == s.listings.insert(seller, second)
            &&& relisted.active_listings == s.active_listings.remove_value(seller).push(seller)
            &&& relisted.consistent()
        }),
{
    let listed = list_shares_for_sale::listed(
        s,
        seller,
        first.shares_for_sale,
        first.price_per_share,
        first.payment_token,
    );
    let cancelled = cancel_listing::unlisted(listed, seller);
    let relisted = list_shares_for_sale::listed(
        cancelled,
        seller,
        second.shares_for_sale,
        second.price_per_share,
        second.payment_token,
    );
    list_shares_for_sale::lemma_listed(
        s,
        seller,
        first.shares_for_sale,
        first.price_per_share,
        first.payment_token,
    );
    cancel_listing::lemma_unlisted(listed, seller);
    list_shares_for_sale::lemma_listed(
        cancelled,
        seller,
        second.shares_for_sale,
        second.price_per_share,
        second.payment_token,
    );
    lemma_remove_value(s.active_listings, seller);
    lemma_remove_value(listed.active_listings, seller);
    assert(relisted.listings =~= s.listings.insert(seller, second));
    if s.active_listings.contains(seller) {
    } else {
        lemma_push_then_remove(s.active_listings, seller);
    }
}

/// Taking out of a list the value that was just put at its end gives the list back.
pub proof fn lemma_push_then_remove(list: Seq<Address>, value: Address)
    requires
        !list.contains(value),
    ensures
        list.push(value).remove_value(value) == list,
{
    let pushed = list.push(value);
    pushed.index_of_first_ensures(value);
    assert(pushed[list.len() as int] == value);
    let i = pushed.index_of_first(value).unwrap();
    if i < list.len() {
        assert(list[i] == value);
    }
    assert(pushed.remove(i) =~= list);
}

} // verus!
