use vstd::prelude::*;
use crate::address::Address;
use crate::errors::Error;
use crate::storage::{Env, SaleListingDataKey};

verus! {

/// The open offer of `seller`, if they have one.
pub fn query(env: &Env, seller: Address) -> (r: Result<Option<SaleListingDataKey>, Error>)
    requires
        env.wf(),
    ensures
        r == Ok::<Option<SaleListingDataKey>, Error>(env@.listings.get(seller)),
{
    Ok(SaleListingDataKey::get_listing(env, &seller))
}

} // verus!
