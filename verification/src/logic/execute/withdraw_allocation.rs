use vstd::prelude::*;
use crate::address::Address;
use crate::errors::Error;
use crate::payments::{Payer, Transfer};
use crate::storage::{
    claims_on, lemma_claims_finite, lemma_remove_allocation, lemma_save_allocation,
    AllocationDataKey, AllocationKey, ConfigDataKey, Env, State,
};
use crate::sums::lemma_sum_bounds;

verus! {

/// Why `shareholder` cannot be paid `amount` of their claim on `token`, if
/// they cannot: the pool is not set up, or neither the holder nor the
/// administrator consents, or the amount is not positive, or it is more than
/// the claim.
pub open spec fn refusal(s: State, token: Address, shareholder: Address, amount: int) -> Option<
    Error,
> {
    match s.config {
        None => Some(Error::NotInitialized),
        Some(c) => if !s.authorizes(shareholder) && !s.authorizes(c.admin) {
            Some(Error::Unauthorized)
        } else if amount <= 0 {
            Some(Error::ZeroWithdrawalAmount)
        } else if amount > s.allocation(shareholder, token) {
            Some(Error::WithdrawalAmountAboveAllocation)
        } else {
            None
        },
    }
}

/// The pool after `amount` of the claim of `shareholder` on `token` was
/// paid: the claim is smaller by as much, or gone where nothing is left of it.
pub open spec fn withdrawn(s: State, token: Address, shareholder: Address, amount: int) -> State {
    if amount == s.allocation(shareholder, token) {
        s.remove_allocation(shareholder, token)
    } else {
        s.save_allocation(
            shareholder,
            token,
            (s.allocation(shareholder, token) - amount) as i128,
        )
    }
}

/// Takes `amount` off what `shareholder` can claim of `token_address`. The
/// holder can, and so can the administrator. The payment to make out of the
/// pool's balance is reported, not made.
pub fn execute(env: &mut Env, token_address: Address, shareholder: Address, amount: i128) -> (r:
    Result<Transfer, Error>)
    requires
        old(env).consistent(),
    ensures
        final(env).consistent(),
        r == (match refusal(old(env)@, token_address, shareholder, amount as int) {
            Some(e) => Err::<Transfer, Error>(e),
            None => Ok::<Transfer, Error>(
                Transfer { token: token_address, from: Payer::Pool, to: shareholder, amount },
            ),
        }),
        final(env)@ == (if r is Ok {
            withdrawn(old(env)@, token_address, shareholder, amount as int)
        } else {
            old(env)@
        }),
{
    let config = match ConfigDataKey::get(env) {
        Some(config) => config,
        None => {
            return Err(Error::NotInitialized);
        },
    };
    if !env.authorizes(&shareholder) && !env.authorizes(&config.admin) {
        return Err(Error::Unauthorized);
    }
    if amount <= 0 {
        return Err(Error::ZeroWithdrawalAmount);
    }
    let allocation: i128 = match AllocationDataKey::get_allocation(
        env,
        &shareholder,
        &token_address,
    ) {
        Some(a) => a,
        None => 0,
    };
    if amount > allocation {
        return Err(Error::WithdrawalAmountAboveAllocation);
    }
    proof {
        let key = AllocationKey { shareholder, token: token_address };
        env.lemma_finite();
        lemma_claims_finite(env@.allocations, token_address);
        lemma_sum_bounds(env@.allocations.restrict(claims_on(token_address)));
        assert(env@.allocations.restrict(claims_on(token_address)).contains_key(key));
        assert(env@.total_allocation(token_address) == env@.allocated(token_address));
        lemma_remove_allocation(env@, shareholder, token_address);
        lemma_save_allocation(env@, shareholder, token_address, (allocation - amount) as i128);
    }
    if amount == allocation {
        AllocationDataKey::remove_allocation(env, &shareholder, &token_address);
    } else {
        AllocationDataKey::save_allocation(
            env,
            &shareholder,
            &token_address,
            allocation - amount,
        );
    }
    Ok(Transfer { token: token_address, from: Payer::Pool, to: shareholder, amount })
}

/// Paying out part of a claim leaves the pool in order.
pub proof fn lemma_withdrawn(s: State, token: Address, shareholder: Address, amount: i128)
    requires
        s.consistent(),
        refusal(s, token, shareholder, amount as int) is None,
    ensures
        withdrawn(s, token, shareholder, amount as int).consistent(),
        withdrawn(s, token, shareholder, amount as int).allocation(shareholder, token)
            == s.allocation(shareholder, token) - amount,
{
    lemma_remove_allocation(s, shareholder, token);
    lemma_save_allocation(
        s,
        shareholder,
        token,
        (s.allocation(shareholder, token) - amount) as i128,
    );
    lemma_claims_finite(s.allocations, token);
    lemma_sum_bounds(s.allocations.restrict(claims_on(token)));
}

} // verus!
