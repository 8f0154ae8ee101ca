use vstd::prelude::*;
use crate::address::Address;
use crate::errors::Error;
use crate::logic::execute::cancel_listing::{lemma_unlisted, unlisted};
use crate::logic::execute::list_shares_for_sale::{lemma_listed, listed};
use crate::logic::helpers::{lemma_moved, move_shares, moved};
use crate::math::portion;
use crate::payments::{Payer, Transfer};
use crate::storage::{CommissionConfig, Env, SaleListingDataKey, ShareDataKey, State};

verus! {

/// What a purchase did.
#[derive(Clone, Copy, Debug, PartialEq, Eq, Structural)]
pub struct Sale {
    /// The price of the units bought.
    pub total_price: i128,
    /// What the buyer pays to the seller, where anything.
    pub to_seller: Option<Transfer>,
    /// What the buyer pays to the recipient of commissions, where anything.
    pub commission: Option<Transfer>,
    /// How many units of the offer are left.
    pub remaining_shares: i128,
}

/// Why `buyer` cannot buy these units of `seller`, if they cannot: the buyer
/// does not consent, or the number of units is not positive, or buyer and
/// seller are one, or the seller has no offer, or the offer holds fewer
/// units, or the price does not fit the integer type, or the seller no longer
/// owns as many units.
pub open spec fn refusal(s: State, buyer: Address, seller: Address, shares_amount: int) -> Option<
    Error,
> {
    if !s.authorizes(buyer) {
        Some(Error::Unauthorized)
    } else if shares_amount <= 0 {
        Some(Error::InvalidShareAmount)
    } else if buyer == seller {
        Some(Error::CannotBuyOwnShares)
    } else if !s.listings.contains_key(seller) {
        Some(Error::NoActiveListing)
    } else if shares_amount > s.listings[seller].shares_for_sale {
        Some(Error::InsufficientSharesInListing)
    } else if shares_amount * s.listings[seller].price_per_share > i128::MAX {
        Some(Error::Overflow)
    } else if s.units_of(seller) < shares_amount {
        Some(Error::NoSharesToSell)
    } else {
        None
    }
}

/// The price of `shares_amount` units of the offer of `seller`.
pub open spec fn total_price(s: State, seller: Address, shares_amount: int) -> int {
    shares_amount * s.listings[seller].price_per_share
}

/// The commission on that price.
pub open spec fn commission_due(s: State, seller: Address, shares_amount: int) -> int {
    portion(total_price(s, seller, shares_amount), s.commission_in_force().buy_rate_bps as int)
}

/// What a purchase that is not refused reports.
pub open spec fn sale(s: State, buyer: Address, seller: Address, shares_amount: int) -> Sale {
    let listing = s.listings[seller];
    let total = total_price(s, seller, shares_amount);
    let fee = commission_due(s, seller, shares_amount);
    Sale {
        total_price: total as i128,
        to_seller: if total - fee > 0 {
            Some(
                Transfer {
                    token: listing.payment_token,
                    from: Payer::Account(buyer),
                    to: seller,
                    amount: (total - fee) as i128,
                },
            )
        } else {
            None
        },
        commission: if fee > 0 {
            Some(
                Transfer {
                    token: listing.payment_token,
                    from: Payer::Account(buyer),
                    to: s.commission_in_force().recipient,
                    amount: fee as i128,
                },
            )
        } else {
            None
        },
        remaining_shares: (listing.shares_for_sale - shares_amount) as i128,
    }
}

/// The pool after a purchase that is not refused: the commission policy in
/// force is on record, the units have gone from seller to buyer, and the
/// offer holds what is left of it, or is gone where nothing is left.
pub open spec fn sold(s: State, buyer: Address, seller: Address, shares_amount: int) -> State {
    let listing = s.listings[seller];
    let read = State { commission: Some(s.commission_in_force()), ..s };
    let handed = moved(read, seller, buyer, shares_amount);
    let remaining = listing.shares_for_sale - shares_amount;
    if remaining > 0 {
        listed(handed, seller, remaining as i128, listing.price_per_share, listing.payment_token)
    } else {
        unlisted(handed, seller)
    }
}

/// Buys `shares_amount` units of the offer of `seller` for `buyer`. Only
/// the buyer can. The payments to make are reported, not made.
pub fn execute(env: &mut Env, buyer: Address, seller: Address, shares_amount: i128) -> (r: Result<
    Sale,
    Error,
>)
    requires
        old(env).consistent(),
    ensures
        final(env).consistent(),
        r == (match refusal(old(env)@, buyer, seller, shares_amount as int) {
            Some(e) => Err::<Sale, Error>(e),
            None => Ok::<Sale, Error>(sale(old(env)@, buyer, seller, shares_amount as int)),
        }),
        final(env)@ == (if r is Ok {
            sold(old(env)@, buyer, seller, shares_amount as int)
        } else {
            old(env)@
        }),
{
    if !env.authorizes(&buyer) {
        return Err(Error::Unauthorized);
    }
    if shares_amount <= 0 {
        return Err(Error::InvalidShareAmount);
    }
    if buyer == seller {
        return Err(Error::CannotBuyOwnShares);
    }
    let listing = match SaleListingDataKey::get_listing(env, &seller) {
        Some(listing) => listing,
        None => {
            return Err(Error::NoActiveListing);
        },
    };
    if shares_amount > listing.shares_for_sale {
        return Err(Error::InsufficientSharesInListing);
    }
    proof {
        assert(env@.listings.contains_key(seller));
        assert(0 < shares_amount * listing.price_per_share) by (nonlinear_arith)
            requires
                0 < shares_amount,
                0 < listing.price_per_share,
        ;
    }
    let total_price: i128 = match shares_amount.checked_mul(listing.price_per_share) {
        Some(total) => total,
        None => {
            return Err(Error::Overflow);
        },
    };
    match ShareDataKey::get_share(env, &seller) {
        None => {
            return Err(Error::NoSharesToSell);
        },
        Some(seller_share_data) => {
            if seller_share_data.share < shares_amount {
                return Err(Error::NoSharesToSell);
            }
        },
    }
    let commission_config = CommissionConfig::get(env);
    let commission: i128 = CommissionConfig::calculate_commission(
        total_price,
        commission_config.buy_rate_bps,
    );
    let seller_receives: i128 = total_price - commission;
    let to_seller: Option<Transfer> = if seller_receives > 0 {
        Some(
            Transfer {
                token: listing.payment_token,
                from: Payer::Account(buyer),
                to: seller,
                amount: seller_receives,
            },
        )
    } else {
        None
    };
    let to_recipient: Option<Transfer> = if commission > 0 {
        Some(
            Transfer {
                token: listing.payment_token,
                from: Payer::Account(buyer),
                to: commission_config.recipient,
                amount: commission,
            },
        )
    } else {
        None
    };
    move_shares(env, &seller, &buyer, shares_amount);
    let remaining_shares: i128 = listing.shares_for_sale - shares_amount;
    if remaining_shares > 0 {
        proof {
            lemma_listed(
                env@,
                seller,
                remaining_shares,
                listing.price_per_share,
                listing.payment_token,
            );
        }
        SaleListingDataKey::save_listing(
            env,
            seller,
            remaining_shares,
            listing.price_per_share,
            listing.payment_token,
        );
    } else {
        proof {
            lemma_unlisted(env@, seller);
        }
        SaleListingDataKey::remove_listing(env, &seller);
    }
    Ok(Sale { total_price, to_seller, commission: to_recipient, remaining_shares })
}

/// A purchase that is not refused leaves the pool in order.
pub proof fn lemma_sold(s: State, buyer: Address, seller: Address, shares_amount: i128)
    requires
        s.consistent(),
        refusal(s, buyer, seller, shares_amount as int) is None,
    ensures
        sold(s, buyer, seller, shares_amount as int).consistent(),
{
    let listing = s.listings[seller];
    let read = State { commission: Some(s.commission_in_force()), ..s };
    let handed = moved(read, seller, buyer, shares_amount as int);
    let remaining = listing.shares_for_sale - shares_amount;
    lemma_moved(read, seller, buyer, shares_amount as int);
    if remaining > 0 {
        lemma_listed(
            handed,
            seller,
            remaining as i128,
            listing.price_per_share,
            listing.payment_token,
        );
    } else {
        lemma_unlisted(handed, seller);
    }
}

} // verus!
