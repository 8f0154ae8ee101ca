use vstd::prelude::*;
use crate::address::Address;
use crate::errors::Error;
use crate::logic::helpers::{move_shares, moved};
use crate::storage::{ConfigDataKey, Env, ShareDataKey, State};

verus! {

/// Why units cannot go from `from` to `to`, if they cannot: the pool is not
/// set up, or the sender does not consent, or sender and receiver are one, or
/// the amount is not positive, or the sender owns no units, or too few.
pub open spec fn refusal(s: State, from: Address, to: Address, amount: int) -> Option<Error> {
    if s.config is None {
        Some(Error::NotInitialized)
    } else if !s.authorizes(from) {
        Some(Error::Unauthorized)
    } else if from == to {
        Some(Error::CannotTransferToSelf)
    } else if amount <= 0 {
        Some(Error::InvalidShareAmount)
    } else if !s.shares.contains_key(from) {
        Some(Error::NoSharesToTransfer)
    } else if s.shares[from] < amount {
        Some(Error::InsufficientSharesToTransfer)
    } else {
        None
    }
}

/// Moves `amount` units from `from` to `to`. Only their owner can.
pub fn execute(env: &mut Env, from: Address, to: Address, amount: i128) -> (r: Result<(), Error>)
    requires
        old(env).consistent(),
    ensures
        final(env).consistent(),
        r == (match refusal(old(env)@, from, to, amount as int) {
            Some(e) => Err::<(), Error>(e),
            None => Ok::<(), Error>(()),
        }),
        final(env)@ == (if r is Ok {
            moved(old(env)@, from, to, amount as int)
        } else {
            old(env)@
        }),
{
    if !ConfigDataKey::is_initialized(env) {
        return Err(Error::NotInitialized);
    }
    if !env.authorizes(&from) {
        return Err(Error::Unauthorized);
    }
    if from == to {
        return Err(Error::CannotTransferToSelf);
    }
    if amount <= 0 {
        return Err(Error::InvalidShareAmount);
    }
    match ShareDataKey::get_share(env, &from) {
        None => Err(Error::NoSharesToTransfer),
        Some(share_data) => {
            if share_data.share < amount {
                return Err(Error::InsufficientSharesToTransfer);
            }
            move_shares(env, &from, &to, amount);
            Ok(())
        },
    }
}

} // verus!
