use vstd::prelude::*;
use crate::address::Address;
use crate::errors::Error;
use crate::logic::helpers::{
    check_shares, holders_of, lemma_recorded, recorded, reset_shares, share_error, update_shares,
};
use crate::storage::{ConfigDataKey, Env, ShareDataKey, State};

verus! {

/// Why the registry cannot be replaced by these records, if it cannot: the
/// pool is not set up, or its administrator does not consent, or the registry
/// is locked, or something is wrong with the records.
pub open spec fn refusal(s: State, shares: Seq<ShareDataKey>) -> Option<Error> {
    match s.config {
        None => Some(Error::NotInitialized),
        Some(c) => if !s.authorizes(c.admin) {
            Some(Error::Unauthorized)
        } else if !c.mutable {
            Some(Error::ContractLocked)
        } else {
            share_error(shares)
        },
    }
}

/// The pool once these records have taken the place of the registry.
pub open spec fn replaced(s: State, shares: Seq<ShareDataKey>) -> State {
    State { shareholders: holders_of(shares), shares: recorded(Map::empty(), shares), ..s }
}

/// Replaces the whole registry by these records. Only the administrator
/// can, and only while the registry is not locked.
pub fn execute(env: &mut Env, shares: Vec<ShareDataKey>) -> (r: Result<(), Error>)
    requires
        old(env).consistent(),
    ensures
        final(env).consistent(),
        r == (match refusal(old(env)@, shares@) {
            Some(e) => Err::<(), Error>(e),
            None => Ok::<(), Error>(()),
        }),
        final(env)@ == (if r is Ok {
            replaced(old(env)@, shares@)
        } else {
            old(env)@
        }),
{
    if !ConfigDataKey::is_initialized(env) {
        return Err(Error::NotInitialized);
    }
    match ConfigDataKey::require_admin(env) {
        Err(e) => {
            return Err(e);
        },
        Ok(()) => {},
    }
    if ConfigDataKey::is_contract_locked(env) {
        return Err(Error::ContractLocked);
    }
    match check_shares(&shares) {
        Err(e) => {
            return Err(e);
        },
        Ok(()) => {},
    }
    proof {
        lemma_recorded(shares@);
        assert(env@.shares.remove_keys(env@.shareholders.to_set()) =~= Map::<
            Address,
            i128,
        >::empty()) by {
            assert forall|a: Address|
                !env@.shares.remove_keys(env@.shareholders.to_set()).contains_key(a) by {
                assert(env@.shareholders.contains(a) <==> env@.shares.contains_key(a));
            }
        }
    }
    reset_shares(env);
    update_shares(env, &shares);
    Ok(())
}

/// Replacing the registry by records that pass the checks leaves the pool in order.
pub proof fn lemma_replaced(s: State, shares: Seq<ShareDataKey>)
    requires
        s.consistent(),
        refusal(s, shares) is None,
    ensures
        replaced(s, shares).consistent(),
{
    lemma_recorded(shares);
}

} // verus!
