use vstd::prelude::*;
use crate::errors::Error;
use crate::storage::{ConfigDataKey, Env, State};

verus! {

/// Why the registry cannot be locked, if it cannot: the pool is not set up,
/// or its administrator does not consent.
pub open spec fn refusal(s: State) -> Option<Error> {
    match s.config {
        None => Some(Error::NotInitialized),
        Some(c) => if s.authorizes(c.admin) {
            None
        } else {
            Some(Error::Unauthorized)
        },
    }
}

/// The pool with its registry locked.
pub open spec fn locked(s: State) -> State {
    State {
        config: match s.config {
            Some(c) => Some(ConfigDataKey { admin: c.admin, mutable: false }),
            None => None,
        },
        ..s
    }
}

/// Locks the registry against replacement, for good. Only the administrator can.
pub fn execute(env: &mut Env) -> (r: Result<(), Error>)
    requires
        old(env).consistent(),
    ensures
        final(env).consistent(),
        r == (match refusal(old(env)@) {
            Some(e) => Err::<(), Error>(e),
            None => Ok::<(), Error>(()),
        }),
        final(env)@ == (if r is Ok {
            locked(old(env)@)
        } else {
            old(env)@
        }),
{
    if !ConfigDataKey::is_initialized(env) {
        return Err(Error::NotInitialized);
    }
    match ConfigDataKey::require_admin(env) {
        Err(e) => {
            return Err(e);
        },
        Ok(()) => {},
    }
    ConfigDataKey::lock_contract(env);
    Ok(())
}

} // verus!
