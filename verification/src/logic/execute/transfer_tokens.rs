use vstd::prelude::*;
use crate::address::Address;
use crate::errors::Error;
use crate::payments::{Payer, Transfer};
use crate::storage::{AllocationDataKey, ConfigDataKey, Env, State};

verus! {

/// Why `amount` of `token` cannot be taken out of the pool, if it cannot:
/// the pool is not set up, or its administrator does not consent, or the
/// amount is not positive, or it is more than the pool holds, or more than
/// what the pool holds beyond the claims of the holders.
pub open spec fn refusal(s: State, token: Address, amount: int, balance: int) -> Option<Error> {
    match s.config {
        None => Some(Error::NotInitialized),
        Some(c) => if !s.authorizes(c.admin) {
            Some(Error::Unauthorized)
        } else if amount <= 0 {
            Some(Error::ZeroTransferAmount)
        } else if amount > balance {
            Some(Error::TransferAmountAboveBalance)
        } else if amount > balance - s.total_allocation(token) {
            Some(Error::TransferAmountAboveUnusedBalance)
        } else {
            None
        },
    }
}

/// Takes `amount` of `token_address` that no holder can claim out of the
/// pool, for `recipient`. Only the administrator can. `balance` is what the
/// pool holds of the asset at this moment. The payment to make is reported,
/// not made; the pool's records stay as they are.
pub fn execute(
    env: &Env,
    token_address: Address,
    recipient: Address,
    amount: i128,
    balance: i128,
) -> (r: Result<Transfer, Error>)
    requires
        env.consistent(),
    ensures
        r == (match refusal(env@, token_address, amount as int, balance as int) {
            Some(e) => Err::<Transfer, Error>(e),
            None => Ok::<Transfer, Error>(
                Transfer { token: token_address, from: Payer::Pool, to: recipient, amount },
            ),
        }),
{
    if !ConfigDataKey::is_initialized(env) {
        return Err(Error::NotInitialized);
    }
    match ConfigDataKey::require_admin(env) {
        Err(e) => {
            return Err(e);
        },
        Ok(()) => {},
    }
    if amount <= 0 {
        return Err(Error::ZeroTransferAmount);
    }
    if amount > balance {
        return Err(Error::TransferAmountAboveBalance);
    }
    let total_allocation: i128 = match AllocationDataKey::get_total_allocation(
        env,
        &token_address,
    ) {
        Some(total) => total,
        None => 0,
    };
    let unused_balance: i128 = balance - total_allocation;
    if amount > unused_balance {
        return Err(Error::TransferAmountAboveUnusedBalance);
    }
    Ok(Transfer { token: token_address, from: Payer::Pool, to: recipient, amount })
}

} // verus!
