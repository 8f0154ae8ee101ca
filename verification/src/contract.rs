use vstd::prelude::*;
use crate::address::Address;
use crate::errors::Error;
use crate::logic::execute;
use crate::logic::execute::buy_shares::Sale;
use crate::logic::execute::distribute_tokens::Distribution;
use crate::logic::helpers::moved;
use crate::logic::query;
use crate::payments::{Payer, Transfer};
use crate::storage::{
    rate_change, CommissionConfig, ConfigDataKey, Env, SaleListingDataKey, ShareDataKey, State,
};

verus! {

/// The operations of the pool, as its callers see them. Each takes the
/// pool's memory with the consent given to it, and either changes it as a
/// whole or refuses and leaves it as it was.
#[derive(Clone, Copy, Debug)]
pub struct Splitter;

impl Splitter {
    /// Sets the pool up. See [`execute::init`].
    pub fn init(env: &mut Env, admin: Address, shares: Vec<ShareDataKey>, mutable: bool) -> (r:
        Result<(), Error>)
        requires
            old(env).consistent(),
        ensures
            final(env).consistent(),
            r == (match execute::init::refusal(old(env)@, shares@) {
                Some(e) => Err::<(), Error>(e),
                None => Ok::<(), Error>(()),
            }),
            final(env)@ == (if r is Ok {
                execute::init::initialized(old(env)@, admin, shares@, mutable)
            } else {
                old(env)@
            }),
    {
        execute::init(env, admin, shares, mutable)
    }

    /// Takes unclaimed balance out of the pool. See [`execute::transfer_tokens`].
    pub fn transfer_tokens(
        env: &Env,
        token_address: Address,
        recipient: Address,
        amount: i128,
        balance: i128,
    ) -> (r: Result<Transfer, Error>)
        requires
            env.consistent(),
        ensures
            r == (match execute::transfer_tokens::refusal(
                env@,
                token_address,
                amount as int,
                balance as int,
            ) {
                Some(e) => Err::<Transfer, Error>(e),
                None => Ok::<Transfer, Error>(
                    Transfer { token: token_address, from: Payer::Pool, to: recipient, amount },
                ),
            }),
    {
        execute::transfer_tokens(env, token_address, recipient, amount, balance)
    }

    /// Splits new balance among the holders. See [`execute::distribute_tokens`].
    pub fn distribute_tokens(env: &mut Env, token_address: Address, balance: i128) -> (r: Result<
        Distribution,
        Error,
    >)
        requires
            old(env).consistent(),
        ensures
            final(env).consistent(),
            r == (match execute::distribute_tokens::refusal(old(env)@) {
                Some(e) => Err::<Distribution, Error>(e),
                None => Ok::<Distribution, Error>(
                    execute::distribute_tokens::distribution(
                        old(env)@,
                        token_address,
                        balance as int,
                    ),
                ),
            }),
            final(env)@ == (if r is Ok {
                execute::distribute_tokens::distributed(old(env)@, token_address, balance as int)
            } else {
                old(env)@
            }),
    {
        execute::distribute_tokens(env, token_address, balance)
    }

    /// Replaces the registry. See [`execute::update_shares`].
    pub fn update_shares(env: &mut Env, shares: Vec<ShareDataKey>) -> (r: Result<(), Error>)
        requires
            old(env).consistent(),
        ensures
            final(env).consistent(),
            r == (match execute::update_shares::refusal(old(env)@, shares@) {
                Some(e) => Err::<(), Error>(e),
                None => Ok::<(), Error>(()),
            }),
            final(env)@ == (if r is Ok {
                execute::update_shares::replaced(old(env)@, shares@)
            } else {
                old(env)@
            }),
    {
        execute::update_shares(env, shares)
    }

    /// Locks the registry. See [`execute::lock_contract`].
    pub fn lock_contract(env: &mut Env) -> (r: Result<(), Error>)
        requires
            old(env).consistent(),
        ensures
            final(env).consistent(),
            r == (match execute::lock_contract::refusal(old(env)@) {
                Some(e) => Err::<(), Error>(e),
                None => Ok::<(), Error>(()),
            }),
            final(env)@ == (if r is Ok {
                execute::lock_contract::locked(old(env)@)
            } else {
                old(env)@
            }),
    {
        execute::lock_contract(env)
    }

    /// Pays out part of a claim. See [`execute::withdraw_allocation`].
    pub fn withdraw_allocation(
        env: &mut Env,
        token_address: Address,
        shareholder: Address,
        amount: i128,
    ) -> (r: Result<Transfer, Error>)
        requires
            old(env).consistent(),
        ensures
            final(env).consistent(),
            r == (match execute::withdraw_allocation::refusal(
                old(env)@,
                token_address,
                shareholder,
                amount as int,
            ) {
                Some(e) => Err::<Transfer, Error>(e),
                None => Ok::<Transfer, Error>(
                    Transfer { token: token_address, from: Payer::Pool, to: shareholder, amount },
                ),
            }),
            final(env)@ == (if r is Ok {
                execute::withdraw_allocation::withdrawn(
                    old(env)@,
                    token_address,
                    shareholder,
                    amount as int,
                )
            } else {
                old(env)@
            }),
    {
        execute::withdraw_allocation(env, token_address, shareholder, amount)
    }

    /// Moves units between two identities. See [`execute::transfer_shares`].
    pub fn transfer_shares(env: &mut Env, from: Address, to: Address, amount: i128) -> (r: Result<
        (),
        Error,
    >)
        requires
            old(env).consistent(),
        ensures
            final(env).consistent(),
            r == (match execute::transfer_shares::refusal(old(env)@, from, to, amount as int) {
                Some(e) => Err::<(), Error>(e),
                None => Ok::<(), Error>(()),
            }),
            final(env)@ == (if r is Ok {
                moved(old(env)@, from, to, amount as int)
            } else {
                old(env)@
            }),
    {
        execute::transfer_shares(env, from, to, amount)
    }

    /// How many units an identity owns. See [`query::get_share`].
    pub fn get_share(env: &Env, shareholder: Address) -> (r: Result<Option<i128>, Error>)
        requires
            env.wf(),
        ensures
            r == (if env@.config is None {
                Err::<Option<i128>, Error>(Error::NotInitialized)
            } else if env@.shares.contains_key(shareholder) {
                Ok::<Option<i128>, Error>(Some(env@.shares[shareholder]))
            } else {
                Ok::<Option<i128>, Error>(None)
            }),
    {
        query::get_share(env, shareholder)
    }

    /// Who owns how many units. See [`query::list_shares`].
    pub fn list_shares(env: &Env) -> (r: Result<Vec<ShareDataKey>, Error>)
        requires
            env.consistent(),
        ensures
            env@.config is None ==> r == Err::<Vec<ShareDataKey>, Error>(Error::NotInitialized),
            env@.config is Some ==> r is Ok && r.unwrap()@ == query::list_shares::share_records(
                env@,
            ),
    {
        query::list_shares(env)
    }

    /// The configuration. See [`query::get_config`].
    pub fn get_config(env: &Env) -> (r: Result<ConfigDataKey, Error>)
        ensures
            r == (match env@.config {
                Some(c) => Ok::<ConfigDataKey, Error>(c),
                None => Err::<ConfigDataKey, Error>(Error::NotInitialized),
            }),
    {
        query::get_config(env)
    }

    /// What an identity can claim of an asset. See [`query::get_allocation`].
    pub fn get_allocation(env: &Env, shareholder: Address, token: Address) -> (r: Result<
        i128,
        Error,
    >)
        requires
            env.wf(),
        ensures
            env@.config is None ==> r == Err::<i128, Error>(Error::NotInitialized),
            env@.config is Some ==> r is Ok && r.unwrap() == env@.allocation(shareholder, token),
    {
        query::get_allocation(env, shareholder, token)
    }

    /// Offers units for sale. See [`execute::list_shares_for_sale`].
    pub fn list_shares_for_sale(
        env: &mut Env,
        seller: Address,
        shares_amount: i128,
        price_per_share: i128,
        payment_token: Address,
    ) -> (r: Result<(), Error>)
        requires
            old(env).consistent(),
        ensures
            final(env).consistent(),
            r == (match execute::list_shares_for_sale::refusal(
                old(env)@,
                seller,
                shares_amount as int,
                price_per_share as int,
            ) {
                Some(e) => Err::<(), Error>(e),
                None => Ok::<(), Error>(()),
            }),
            final(env)@ == (if r is Ok {
                execute::list_shares_for_sale::listed(
                    old(env)@,
                    seller,
                    shares_amount,
                    price_per_share,
                    payment_token,
                )
            } else {
                old(env)@
            }),
    {
        execute::list_shares_for_sale(env, seller, shares_amount, price_per_share, payment_token)
    }

    /// Withdraws an offer. See [`execute::cancel_listing`].
    pub fn cancel_listing(env: &mut Env, seller: Address) -> (r: Result<(), Error>)
        requires
            old(env).consistent(),
        ensures
            final(env).consistent(),
            r == (match execute::cancel_listing::refusal(old(env)@, seller) {
                Some(e) => Err::<(), Error>(e),
                None => Ok::<(), Error>(()),
            }),
            final(env)@ == (if r is Ok {
                execute::cancel_listing::unlisted(old(env)@, seller)
            } else {
                old(env)@
            }),
    {
        execute::cancel_listing(env, seller)
    }

    /// Buys units of an offer. See [`execute::buy_shares`].
    pub fn buy_shares(env: &mut Env, buyer: Address, seller: Address, shares_amount: i128) -> (r:
        Result<Sale, Error>)
        requires
            old(env).consistent(),
        ensures
            final(env).consistent(),
            r == (match execute::buy_shares::refusal(
                old(env)@,
                buyer,
                seller,
                shares_amount as int,
            ) {
                Some(e) => Err::<Sale, Error>(e),
                None => Ok::<Sale, Error>(
                    execute::buy_shares::sale(old(env)@, buyer, seller, shares_amount as int),
                ),
            }),
            final(env)@ == (if r is Ok {
                execute::buy_shares::sold(old(env)@, buyer, seller, shares_amount as int)
            } else {
                old(env)@
            }),
    {
        execute::buy_shares(env, buyer, seller, shares_amount)
    }

    /// The open offer of a seller. See [`query::get_listing`].
    pub fn get_listing(env: &Env, seller: Address) -> (r: Result<
        Option<SaleListingDataKey>,
        Error,
    >)
        requires
            env.wf(),
        ensures
            r == Ok::<Option<SaleListingDataKey>, Error>(env@.listings.get(seller)),
    {
        query::get_listing(env, seller)
    }

    /// All open offers. See [`query::list_all_sales`].
    pub fn list_all_sales(env: &Env) -> (r: Result<Vec<SaleListingDataKey>, Error>)
        requires
            env.consistent(),
        ensures
            r is Ok,
            r.unwrap()@ == query::list_all_sales::open_offers(env@),
    {
        query::list_all_sales(env)
    }

    /// Names a new recipient of commissions. Only the current recipient can.
    pub fn set_commission_recipient(env: &mut Env, new_recipient: Address) -> (r: Result<
        (),
        Error,
    >)
        requires
            old(env).consistent(),
        ensures
            final(env).consistent(),
            r == (if old(env)@.authorizes(old(env)@.commission_in_force().recipient) {
                Ok::<(), Error>(())
            } else {
                Err::<(), Error>(Error::Unauthorized)
            }),
            final(env)@ == (if r is Ok {
                State {
                    commission: Some(
                        CommissionConfig {
                            recipient: new_recipient,
                            ..old(env)@.commission_in_force()
                        },
                    ),
                    ..old(env)@
                }
            } else {
                old(env)@
            }),
    {
        CommissionConfig::set_recipient(env, new_recipient)
    }

    /// Sets the commission on purchases. Only the current recipient can, and
    /// only to a rate between nothing and half.
    pub fn set_buy_commission_rate(env: &mut Env, new_rate_bps: i128) -> (r: Result<(), Error>)
        requires
            old(env).consistent(),
        ensures
            final(env).consistent(),
            r == rate_change(old(env)@, new_rate_bps),
            final(env)@ == (if r is Ok {
                State {
                    commission: Some(
                        CommissionConfig {
                            buy_rate_bps: new_rate_bps,
                            ..old(env)@.commission_in_force()
                        },
                    ),
                    ..old(env)@
                }
            } else {
                old(env)@
            }),
    {
        CommissionConfig::set_buy_rate(env, new_rate_bps)
    }

    /// Sets the commission on distributions. Only the current recipient can,
    /// and only to a rate between nothing and half.
    pub fn set_distribution_commission_rate(env: &mut Env, new_rate_bps: i128) -> (r: Result<
        (),
        Error,
    >)
        requires
            old(env).consistent(),
        ensures
            final(env).consistent(),
            r == rate_change(old(env)@, new_rate_bps),
            final(env)@ == (if r is Ok {
                State {
                    commission: Some(
                        CommissionConfig {
                            distribution_rate_bps: new_rate_bps,
                            ..old(env)@.commission_in_force()
                        },
                    ),
                    ..old(env)@
                }
            } else {
                old(env)@
            }),
    {
        CommissionConfig::set_distribution_rate(env, new_rate_bps)
    }

    /// The commission policy in force. A pool that has none yet gets the
    /// default policy, and keeps it.
    pub fn get_commission_config(env: &mut Env) -> (r: Result<CommissionConfig, Error>)
        requires
            old(env).consistent(),
        ensures
            final(env).consistent(),
            r == Ok::<CommissionConfig, Error>(old(env)@.commission_in_force()),
            final(env)@ == (State {
                commission: Some(old(env)@.commission_in_force()),
                ..old(env)@
            }),
    {
        Ok(CommissionConfig::get(env))
    }
}

} // verus!
