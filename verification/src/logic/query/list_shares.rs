use vstd::prelude::*;
use crate::errors::Error;
use crate::storage::{ConfigDataKey, Env, ShareDataKey, State};

verus! {

/// The share records of the holders, in the order in which they joined.
pub open spec fn share_records(s: State) -> Seq<ShareDataKey> {
    Seq::new(
        s.shareholders.len(),
        |i: int| ShareDataKey { shareholder: s.shareholders[i], share: s.shares[s.shareholders[i]] },
    )
}

/// Who owns how many units, in the order in which the holders joined. A
/// pool that is not set up does not answer.
pub fn query(env: &Env) -> (r: Result<Vec<ShareDataKey>, Error>)
    requires
        env.consistent(),
    ensures
        env@.config is None ==> r == Err::<Vec<ShareDataKey>, Error>(Error::NotInitialized),
        env@.config is Some ==> r is Ok && r.unwrap()@ == share_records(env@),
{
    if !ConfigDataKey::is_initialized(env) {
        return Err(Error::NotInitialized);
    }
    let shareholders = ShareDataKey::get_shareholders(env);
    let mut shares: Vec<ShareDataKey> = Vec::new();
    let mut i: usize = 0;
    while i < shareholders.len()
        invariant
            i <= shareholders@.len(),
            env.consistent(),
            shareholders@ == env@.shareholders,
            shares@ == share_records(env@).take(i as int),
        decreases shareholders@.len() - i,
    {
        proof {
            assert(env@.shareholders.contains(shareholders@[i as int]));
        }
        match ShareDataKey::get_share(env, &shareholders[i]) {
            Some(share) => {
                shares.push(share);
            },
            None => {},
        }
        proof {
            assert(share_records(env@).take(i + 1) =~= share_records(env@).take(i as int).push(
                share_records(env@)[i as int],
            ));
        }
        i = i + 1;
    }
    proof {
        assert(share_records(env@).take(i as int) =~= share_records(env@));
    }
    Ok(shares)
}

} // verus!
