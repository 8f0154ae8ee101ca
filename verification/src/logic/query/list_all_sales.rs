use vstd::prelude::*;
use crate::errors::Error;
use crate::storage::{Env, SaleListingDataKey, State};

verus! {

/// The open offers, in the order in which their sellers listed.
pub open spec fn open_offers(s: State) -> Seq<SaleListingDataKey> {
    Seq::new(s.active_listings.len(), |i: int| s.listings[s.active_listings[i]])
}

/// All open offers, in the order in which their sellers listed.
pub fn query(env: &Env) -> (r: Result<Vec<SaleListingDataKey>, Error>)
    requires
        env.consistent(),
    ensures
        r is Ok,
        r.unwrap()@ == open_offers(env@),
{
    let active_sellers = SaleListingDataKey::get_active_listings(env);
    let mut listings: Vec<SaleListingDataKey> = Vec::new();
    let mut i: usize = 0;
    while i < active_sellers.len()
        invariant
            i <= active_sellers@.len(),
            env.consistent(),
            active_sellers@ == env@.active_listings,
            listings@ == open_offers(env@).take(i as int),
        decreases active_sellers@.len() - i,
    {
        proof {
            assert(env@.active_listings.contains(active_sellers@[i as int]));
        }
        match SaleListingDataKey::get_listing(env, &active_sellers[i]) {
            Some(listing) => {
                listings.push(listing);
            },
            None => {},
        }
        proof {
            assert(open_offers(env@).take(i + 1) =~= open_offers(env@).take(i as int).push(
                open_offers(env@)[i as int],
            ));
        }
        i = i + 1;
    }
    proof {
        assert(open_offers(env@).take(i as int) =~= open_offers(env@));
    }
    Ok(listings)
}

} // verus!
