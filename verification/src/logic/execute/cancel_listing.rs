use vstd::prelude::*;
use crate::address::Address;
use crate::errors::Error;
use crate::storage::{Env, SaleListingDataKey, State};
use crate::table::lemma_remove_value;

verus! {

/// Why the offer of `seller` cannot be withdrawn, if it cannot: the seller
/// does not consent, or has no offer.
pub open spec fn refusal(s: State, seller: Address) -> Option<Error> {
    if !s.authorizes(seller) {
        Some(Error::Unauthorized)
    } else if !s.listings.contains_key(seller) {
        Some(Error::NoActiveListing)
    } else {
        None
    }
}

/// The pool without the offer of `seller`.
pub open spec fn unlisted(s: State, seller: Address) -> State {
    State {
        listings: s.listings.remove(seller),
        active_listings: s.active_listings.remove_value(seller),
        ..s
    }
}

/// Withdraws the offer of `seller`. Only the seller can.
pub fn execute(env: &mut Env, seller: Address) -> (r: Result<(), Error>)
    requires
        old(env).consistent(),
    ensures
        final(env).consistent(),
        r == (match refusal(old(env)@, seller) {
            Some(e) => Err::<(), Error>(e),
            None => Ok::<(), Error>(()),
        }),
        final(env)@ == (if r is Ok {
            unlisted(old(env)@, seller)
        } else {
            old(env)@
        }),
{
    if !env.authorizes(&seller) {
        return Err(Error::Unauthorized);
    }
    if SaleListingDataKey::get_listing(env, &seller).is_none() {
        return Err(Error::NoActiveListing);
    }
    proof {
        lemma_unlisted(env@, seller);
    }
    SaleListingDataKey::remove_listing(env, &seller);
    Ok(())
}

/// Striking out an offer keeps the marketplace in order.
pub proof fn lemma_unlisted(s: State, seller: Address)
    requires
        s.market_ok(),
    ensures
        unlisted(s, seller).market_ok(),
{
    let after = unlisted(s, seller);
    lemma_remove_value(s.active_listings, seller);
    assert forall|a: Address| after.active_listings.contains(a) <==> after.listings.contains_key(
        a,
    ) by {
        assert(s.active_listings.contains(a) <==> s.listings.contains_key(a));
    }
    assert forall|a: Address| #[trigger] after.listings.contains_key(a) implies {
        &&& after.listings[a].seller == a
        &&& after.listings[a].shares_for_sale > 0
        &&& after.listings[a].price_per_share > 0
    } by {
        assert(s.listings.contains_key(a));
    }
}

} // verus!
