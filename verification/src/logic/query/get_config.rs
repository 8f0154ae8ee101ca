use vstd::prelude::*;
use crate::errors::Error;
use crate::storage::{ConfigDataKey, Env};

verus! {

/// Who administers the pool, and whether its registry may still be
/// replaced. A pool that is not set up does not answer.
pub fn query(env: &Env) -> (r: Result<ConfigDataKey, Error>)
    ensures
        r == (match env@.config {
            Some(c) => Ok::<ConfigDataKey, Error>(c),
            None => Err::<ConfigDataKey, Error>(Error::NotInitialized),
        }),
{
    match ConfigDataKey::get(env) {
        Some(config) => Ok(config),
        None => Err(Error::NotInitialized),
    }
}

} // verus!
