use vstd::prelude::*;
use crate::address::Address;
use crate::errors::Error;
use crate::storage::{ConfigDataKey, Env, ShareDataKey};

verus! {

/// How many units `shareholder` owns, if any. A pool that is not set up
/// does not answer.
pub fn query(env: &Env, shareholder: Address) -> (r: Result<Option<i128>, Error>)
    requires
        env.wf(),
    ensures
        r == (if env@.config is None {
            Err::<Option<i128>, Error>(Error::NotInitialized)
        } else if env@.shares.contains_key(shareholder) {
            Ok::<Option<i128>, Error>(Some(env@.shares[shareholder]))
        } else {
            Ok::<Option<i128>, Error>(None)
        }),
{
    if !ConfigDataKey::is_initialized(env) {
        return Err(Error::NotInitialized);
    }
    match ShareDataKey::get_share(env, &shareholder) {
        Some(share) => Ok(Some(share.share)),
        None => Ok(None),
    }
}

} // verus!
