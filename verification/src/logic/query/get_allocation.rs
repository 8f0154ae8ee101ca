use vstd::prelude::*;
use crate::address::Address;
use crate::errors::Error;
use crate::storage::{AllocationDataKey, ConfigDataKey, Env};

verus! {

/// What `shareholder` can claim of `token`; nothing where no claim is
/// recorded. A pool that is not set up does not answer.
pub fn query(env: &Env, shareholder: Address, token: Address) -> (r: Result<i128, Error>)
    requires
        env.wf(),
    ensures
        env@.config is None ==> r == Err::<i128, Error>(Error::NotInitialized),
        env@.config is Some ==> r is Ok && r.unwrap() == env@.allocation(shareholder, token),
{
    if !ConfigDataKey::is_initialized(env) {
        return Err(Error::NotInitialized);
    }
    match AllocationDataKey::get_allocation(env, &shareholder, &token) {
        Some(allocation) => Ok(allocation),
        None => Ok(0),
    }
}

} // verus!
