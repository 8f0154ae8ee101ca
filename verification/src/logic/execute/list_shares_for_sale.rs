use vstd::prelude::*;
use crate::address::Address;
use crate::errors::Error;
use crate::storage::{with_member, Env, SaleListingDataKey, ShareDataKey, State};
use crate::table::lemma_push_new;

verus! {

/// Why `seller` cannot offer these units at this price, if they cannot: the
/// number of units is not positive, or the price is not, or the seller does
/// not consent, or owns fewer units than the offer is for.
pub open spec fn refusal(
    s: State,
    seller: Address,
    shares_amount: int,
    price_per_share: int,
) -> Option<Error> {
    if shares_amount <= 0 {
        Some(Error::InvalidShareAmount)
    } else if price_per_share <= 0 {
        Some(Error::InvalidPrice)
    } else if !s.authorizes(seller) {
        Some(Error::Unauthorized)
    } else if s.units_of(seller) < shares_amount {
        Some(Error::NoSharesToSell)
    } else {
        None
    }
}

/// The pool with the offer of `seller` on record, in place of any offer that
/// they had.
pub open spec fn listed(
    s: State,
    seller: Address,
    shares_amount: i128,
    price_per_share: i128,
    payment_token: Address,
) -> State {
    State {
        listings: s.listings.insert(
            seller,
            SaleListingDataKey {
                seller,
                shares_for_sale: shares_amount,
                price_per_share,
                payment_token,
            },
        ),
        active_listings: with_member(s.active_listings, seller),
        ..s
    }
}

/// Offers `shares_amount` of the units of `seller` for sale, at
/// `price_per_share` of `payment_token` each. Only their owner can. A new
/// offer takes the place of the one that the seller had.
pub fn execute(
    env: &mut Env,
    seller: Address,
    shares_amount: i128,
    price_per_share: i128,
    payment_token: Address,
) -> (r: Result<(), Error>)
    requires
        old(env).consistent(),
    ensures
        final(env).consistent(),
        r == (match refusal(old(env)@, seller, shares_amount as int, price_per_share as int) {
            Some(e) => Err::<(), Error>(e),
            None => Ok::<(), Error>(()),
        }),
        final(env)@ == (if r is Ok {
            listed(old(env)@, seller, shares_amount, price_per_share, payment_token)
        } else {
            old(env)@
        }),
{
    if shares_amount <= 0 {
        return Err(Error::InvalidShareAmount);
    }
    if price_per_share <= 0 {
        return Err(Error::InvalidPrice);
    }
    if !env.authorizes(&seller) {
        return Err(Error::Unauthorized);
    }
    match ShareDataKey::get_share(env, &seller) {
        None => {
            return Err(Error::NoSharesToSell);
        },
        Some(seller_share_data) => {
            if seller_share_data.share < shares_amount {
                return Err(Error::NoSharesToSell);
            }
        },
    }
    proof {
        lemma_listed(env@, seller, shares_amount, price_per_share, payment_token);
    }
    SaleListingDataKey::save_listing(env, seller, shares_amount, price_per_share, payment_token);
    Ok(())
}

/// Recording a sound offer keeps the marketplace in order.
pub proof fn lemma_listed(
    s: State,
    seller: Address,
    shares_amount: i128,
    price_per_share: i128,
    payment_token: Address,
)
    requires
        s.market_ok(),
        shares_amount > 0,
        price_per_share > 0,
    ensures
        listed(s, seller, shares_amount, price_per_share, payment_token).market_ok(),
{
    let after = listed(s, seller, shares_amount, price_per_share, payment_token);
    assert(s.active_listings.contains(seller) <==> s.listings.contains_key(seller));
    if !s.active_listings.contains(seller) {
        lemma_push_new(s.active_listings, seller);
    }
    assert forall|a: Address| after.active_listings.contains(a) <==> after.listings.contains_key(
        a,
    ) by {
        assert(s.active_listings.contains(a) <==> s.listings.contains_key(a));
    }
    assert forall|a: Address| #[trigger] after.listings.contains_key(a) implies {
        &&& after.listings[a].seller == a
        &&& after.listings[a].shares_for_sale > 0
        &&& after.listings[a].price_per_share > 0
    } by {
        if a != seller {
            assert(s.listings.contains_key(a));
        }
    }
}

} // verus!
