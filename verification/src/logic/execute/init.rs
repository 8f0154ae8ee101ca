use vstd::prelude::*;
use crate::address::Address;
use crate::errors::Error;
use crate::logic::helpers::{
    check_shares, holders_of, lemma_recorded, recorded, share_error, update_shares,
};
use crate::storage::{ConfigDataKey, Env, ShareDataKey, State};

verus! {

/// Why a pool cannot be set up with these records, if it cannot: it is set
/// up already, or something is wrong with the records.
pub open spec fn refusal(s: State, shares: Seq<ShareDataKey>) -> Option<Error> {
    if s.config is Some {
        Some(Error::AlreadyInitialized)
    } else {
        share_error(shares)
    }
}

/// The pool once it is set up under `admin` with these records.
pub open spec fn initialized(
    s: State,
    admin: Address,
    shares: Seq<ShareDataKey>,
    mutable: bool,
) -> State {
    State {
        config: Some(ConfigDataKey { admin, mutable }),
        shareholders: holders_of(shares),
        shares: recorded(Map::empty(), shares),
        ..s
    }
}

/// Sets the pool up: `admin` administers it, the records say who owns how
/// many units, and `mutable` says whether the registry may be replaced later.
/// This can be done once.
pub fn execute(env: &mut Env, admin: Address, shares: Vec<ShareDataKey>, mutable: bool) -> (r:
    Result<(), Error>)
    requires
        old(env).consistent(),
    ensures
        final(env).consistent(),
        r == (match refusal(old(env)@, shares@) {
            Some(e) => Err::<(), Error>(e),
            None => Ok::<(), Error>(()),
        }),
        final(env)@ == (if r is Ok {
            initialized(old(env)@, admin, shares@, mutable)
        } else {
            old(env)@
        }),
{
    if ConfigDataKey::is_initialized(env) {
        return Err(Error::AlreadyInitialized);
    }
    match check_shares(&shares) {
        Err(e) => {
            return Err(e);
        },
        Ok(()) => {},
    }
    proof {
        lemma_recorded(shares@);
        assert(env@.shares =~= Map::<Address, i128>::empty()) by {
            assert forall|a: Address| !env@.shares.contains_key(a) by {
                assert(env@.shareholders.contains(a) <==> env@.shares.contains_key(a));
            }
        }
    }
    ConfigDataKey::init(env, admin, mutable);
    update_shares(env, &shares);
    Ok(())
}

/// Setting a pool up with records that pass the checks leaves it in order.
pub proof fn lemma_initialized(s: State, admin: Address, shares: Seq<ShareDataKey>, mutable: bool)
    requires
        s.consistent(),
        refusal(s, shares) is None,
    ensures
        initialized(s, admin, shares, mutable).consistent(),
{
    lemma_recorded(shares);
}

} // verus!
