#![allow(dead_code)]

use std::cell::{Cell, RefCell};
use std::collections::HashMap;

use splitter::address::Address;
use splitter::contract::Splitter;
use splitter::errors::Error;
use splitter::payments::{Payer, Transfer};
use splitter::storage::{CommissionConfig, ConfigDataKey, Env, SaleListingDataKey, ShareDataKey};

/// The world around one pool: its memory, and who holds how much of which asset.
struct TestEnv {
    pool: RefCell<Env>,
    balances: RefCell<HashMap<(Address, Address), i128>>,
    generated: Cell<u128>,
}

impl Default for TestEnv {
    fn default() -> TestEnv {
        TestEnv {
            pool: RefCell::new(Env::new()),
            balances: RefCell::new(HashMap::new()),
            generated: Cell::new(0),
        }
    }
}

impl TestEnv {
    fn mock_all_auths(&self) {
        self.pool.borrow_mut().authorize_all();
    }

    fn balance_of(&self, token: &Address, holder: &Address) -> i128 {
        *self.balances.borrow().get(&(*token, *holder)).unwrap_or(&0)
    }

    fn credit(&self, token: &Address, holder: &Address, amount: i128) {
        let now = self.balance_of(token, holder);
        self.balances.borrow_mut().insert((*token, *holder), now + amount);
    }

    fn pay(&self, pool: &Address, transfer: &Transfer) {
        let from = match transfer.from {
            Payer::Pool => *pool,
            Payer::Account(who) => who,
        };
        assert!(transfer.amount >= 0);
        assert!(self.balance_of(&transfer.token, &from) >= transfer.amount);
        self.credit(&transfer.token, &from, -transfer.amount);
        self.credit(&transfer.token, &transfer.to, transfer.amount);
    }
}

/// Makes identities that were not made before.
trait Generate {
    fn generate(env: &TestEnv) -> Address;
}

impl Generate for Address {
    fn generate(env: &TestEnv) -> Address {
        let n = env.generated.get() + 1;
        env.generated.set(n);
        Address::contract(0x7e57, n)
    }
}

/// One asset, seen from outside the pool.
struct Token<'a> {
    env: &'a TestEnv,
    address: Address,
}

impl<'a> Token<'a> {
    fn mint(&self, to: &Address, amount: &i128) {
        self.env.credit(&self.address, to, *amount);
    }

    fn balance(&self, of: &Address) -> i128 {
        self.env.balance_of(&self.address, of)
    }
}

/// The pool as its callers reach it: every call reads the balance it needs,
/// runs the operation, and carries out the transfers that it asks for.
struct SplitterClient<'a> {
    env: &'a TestEnv,
    address: Address,
}

impl<'a> SplitterClient<'a> {
    fn try_init(
        &self,
        admin: &Address,
        shares: &Vec<ShareDataKey>,
        mutable: &bool,
    ) -> Result<(), Error> {
        Splitter::init(&mut self.env.pool.borrow_mut(), *admin, shares.clone(), *mutable)
    }

    fn init(&self, admin: &Address, shares: &Vec<ShareDataKey>, mutable: &bool) {
        self.try_init(admin, shares, mutable).unwrap()
    }

    fn try_transfer_tokens(
        &self,
        token_address: &Address,
        recipient: &Address,
        amount: &i128,
    ) -> Result<(), Error> {
        let balance = self.env.balance_of(token_address, &self.address);
        let transfer = Splitter::transfer_tokens(
            &self.env.pool.borrow(),
            *token_address,
            *recipient,
            *amount,
            balance,
        )?;
        self.env.pay(&self.address, &transfer);
        Ok(())
    }

    fn transfer_tokens(&self, token_address: &Address, recipient: &Address, amount: &i128) {
        self.try_transfer_tokens(token_address, recipient, amount).unwrap()
    }

    fn try_distribute_tokens(&self, token_address: &Address) -> Result<(), Error> {
        let balance = self.env.balance_of(token_address, &self.address);
        let distribution =
            Splitter::distribute_tokens(&mut self.env.pool.borrow_mut(), *token_address, balance)?;
        if let Some(transfer) = distribution.commission {
            self.env.pay(&self.address, &transfer);
        }
        Ok(())
    }

    fn distribute_tokens(&self, token_address: &Address) {
        self.try_distribute_tokens(token_address).unwrap()
    }

    fn try_update_shares(&self, shares: &Vec<ShareDataKey>) -> Result<(), Error> {
        Splitter::update_shares(&mut self.env.pool.borrow_mut(), shares.clone())
    }

    fn update_shares(&self, shares: &Vec<ShareDataKey>) {
        self.try_update_shares(shares).unwrap()
    }

    fn try_lock_contract(&self) -> Result<(), Error> {
        Splitter::lock_contract(&mut self.env.pool.borrow_mut())
    }

    fn lock_contract(&self) {
        self.try_lock_contract().unwrap()
    }

    fn try_withdraw_allocation(
        &self,
        token_address: &Address,
        shareholder: &Address,
        amount: &i128,
    ) -> Result<(), Error> {
        let transfer = Splitter::withdraw_allocation(
            &mut self.env.pool.borrow_mut(),
            *token_address,
            *shareholder,
            *amount,
        )?;
        self.env.pay(&self.address, &transfer);
        Ok(())
    }

    fn withdraw_allocation(&self, token_address: &Address, shareholder: &Address, amount: &i128) {
        self.try_withdraw_allocation(token_address, shareholder, amount).unwrap()
    }

    fn try_transfer_shares(&self, from: &Address, to: &Address, amount: &i128) -> Result<(), Error> {
        Splitter::transfer_shares(&mut self.env.pool.borrow_mut(), *from, *to, *amount)
    }

    fn transfer_shares(&self, from: &Address, to: &Address, amount: &i128) {
        self.try_transfer_shares(from, to, amount).unwrap()
    }

    fn get_share(&self, shareholder: &Address) -> Option<i128> {
        Splitter::get_share(&self.env.pool.borrow(), *shareholder).unwrap()
    }

    fn list_shares(&self) -> Vec<ShareDataKey> {
        Splitter::list_shares(&self.env.pool.borrow()).unwrap()
    }

    fn get_config(&self) -> ConfigDataKey {
        Splitter::get_config(&self.env.pool.borrow()).unwrap()
    }

    fn get_allocation(&self, shareholder: &Address, token: &Address) -> i128 {
        Splitter::get_allocation(&self.env.pool.borrow(), *shareholder, *token).unwrap()
    }

    fn try_list_shares_for_sale(
        &self,
        seller: &Address,
        shares_amount: &i128,
        price_per_share: &i128,
        payment_token: &Address,
    ) -> Result<(), Error> {
        Splitter::list_shares_for_sale(
            &mut self.env.pool.borrow_mut(),
            *seller,
            *shares_amount,
            *price_per_share,
            *payment_token,
        )
    }

    fn list_shares_for_sale(
        &self,
        seller: &Address,
        shares_amount: &i128,
        price_per_share: &i128,
        payment_token: &Address,
    ) {
        self.try_list_shares_for_sale(seller, shares_amount, price_per_share, payment_token)
            .unwrap()
    }

    fn try_cancel_listing(&self, seller: &Address) -> Result<(), Error> {
        Splitter::cancel_listing(&mut self.env.pool.borrow_mut(), *seller)
    }

    fn cancel_listing(&self, seller: &Address) {
        self.try_cancel_listing(seller).unwrap()
    }

    fn try_buy_shares(
        &self,
        buyer: &Address,
        seller: &Address,
        shares_amount: &i128,
    ) -> Result<(), Error> {
        let sale =
            Splitter::buy_shares(&mut self.env.pool.borrow_mut(), *buyer, *seller, *shares_amount)?;
        if let Some(transfer) = sale.to_seller {
            self.env.pay(&self.address, &transfer);
        }
        if let Some(transfer) = sale.commission {
            self.env.pay(&self.address, &transfer);
        }
        Ok(())
    }

    fn buy_shares(&self, buyer: &Address, seller: &Address, shares_amount: &i128) {
        self.try_buy_shares(buyer, seller, shares_amount).unwrap()
    }

    fn get_listing(&self, seller: &Address) -> Option<SaleListingDataKey> {
        Splitter::get_listing(&self.env.pool.borrow(), *seller).unwrap()
    }

    fn list_all_sales(&self) -> Vec<SaleListingDataKey> {
        Splitter::list_all_sales(&self.env.pool.borrow()).unwrap()
    }

    fn try_set_commission_recipient(&self, new_recipient: &Address) -> Result<(), Error> {
        Splitter::set_commission_recipient(&mut self.env.pool.borrow_mut(), *new_recipient)
    }

    fn set_commission_recipient(&self, new_recipient: &Address) {
        self.try_set_commission_recipient(new_recipient).unwrap()
    }

    fn try_set_buy_commission_rate(&self, new_rate_bps: &i128) -> Result<(), Error> {
        Splitter::set_buy_commission_rate(&mut self.env.pool.borrow_mut(), *new_rate_bps)
    }

    fn try_set_distribution_commission_rate(&self, new_rate_bps: &i128) -> Result<(), Error> {
        Splitter::set_distribution_commission_rate(&mut self.env.pool.borrow_mut(), *new_rate_bps)
    }

    fn get_commission_config(&self) -> CommissionConfig {
        Splitter::get_commission_config(&mut self.env.pool.borrow_mut()).unwrap()
    }
}

fn setup_test_commission_recipient<'a>(
    env: &TestEnv,
    splitter: &SplitterClient<'a>,
    token_admins: &[&Token<'a>],
) -> Address {
    let commission_recipient = Address::generate(env);
    for token_admin in token_admins {
        token_admin.mint(&commission_recipient, &0);
    }
    splitter.set_commission_recipient(&commission_recipient);
    commission_recipient
}

fn create_splitter(e: &TestEnv) -> (SplitterClient<'_>, Address) {
    let contract_id = Address::generate(e);
    (SplitterClient { env: e, address: contract_id }, contract_id)
}

fn create_splitter_with_shares<'a>(
    e: &'a TestEnv,
    admin: &Address,
    shares: &Vec<ShareDataKey>,
    mutable: &bool,
) -> (SplitterClient<'a>, Address) {
    let (client, contract_id) = create_splitter(e);
    client.init(admin, shares, mutable);
    (client, contract_id)
}

fn create_token<'a>(e: &'a TestEnv, _admin: &Address) -> (Token<'a>, Token<'a>, Address) {
    let contract_id = Address::generate(e);
    (Token { env: e, address: contract_id }, Token { env: e, address: contract_id }, contract_id)
}

fn get_default_share_data(env: &TestEnv) -> Vec<ShareDataKey> {
    vec![
        ShareDataKey { shareholder: Address::generate(env), share: 8050 },
        ShareDataKey { shareholder: Address::generate(env), share: 1950 },
    ]
}

#[test]
fn distribute_happy_path() {
    let env = TestEnv::default();
    env.mock_all_auths();

    let admin = Address::generate(&env);
    let shareholder_1 = Address::generate(&env);
    let shareholder_2 = Address::generate(&env);

    let (splitter, splitter_address) = create_splitter_with_shares(
        &env,
        &admin,
        &vec![
            ShareDataKey {
                shareholder: shareholder_1.clone(),
                share: 8050,
            },
            ShareDataKey {
                shareholder: shareholder_2.clone(),
                share: 1950,
            },
        ],
        &true,
    );

    let token_admin = Address::generate(&env);
    let (_, sudo_token, token_address) = create_token(&env, &token_admin);

    // Set up commission recipient with trustline
    setup_test_commission_recipient(&env, &splitter, &[&sudo_token]);

    sudo_token.mint(&splitter_address, &1_000_000_000);

    splitter.distribute_tokens(&token_address);

    // After 0.5% commission: 1_000_000_000 * 0.995 = 995_000_000 to distribute
    // shareholder_1: 995_000_000 * 8050 / 10000 = 800_975_000
    // shareholder_2: 995_000_000 * 1950 / 10000 = 194_025_000
    let allocation_1 = splitter.get_allocation(&shareholder_1, &token_address);
    assert_eq!(allocation_1, 800_975_000);
    let allocation_2 = splitter.get_allocation(&shareholder_2, &token_address);
    assert_eq!(allocation_2, 194_025_000);
}

#[test]
fn distribute_test_not_initialized() {
    let env = TestEnv::default();
    let (splitter, _) = create_splitter(&env);

    assert_eq!(
        splitter.try_distribute_tokens(&Address::generate(&env)),
        Err(Error::NotInitialized)
    );
}

#[test]
fn distribute_test_unauthorized() {
    let env = TestEnv::default();
    let (splitter, _) = create_splitter(&env);

    let token_admin = Address::generate(&env);
    let (_, _, token_address) = create_token(&env, &token_admin);

    assert!(splitter.try_distribute_tokens(&token_address).is_err());
}

/// Test that multiple distributions without claims don't over-allocate.
/// This was the bug: each distribution would re-allocate the entire balance,
/// causing allocations to exceed actual token balance.
#[test]
fn test_multiple_distributions_without_claims() {
    let env = TestEnv::default();
    env.mock_all_auths();

    let admin = Address::generate(&env);
    let shareholder_1 = Address::generate(&env);
    let shareholder_2 = Address::generate(&env);

    let (splitter, splitter_address) = create_splitter_with_shares(
        &env,
        &admin,
        &vec![
            ShareDataKey {
                shareholder: shareholder_1.clone(),
                share: 5000, // 50%
            },
            ShareDataKey {
                shareholder: shareholder_2.clone(),
                share: 5000, // 50%
            },
        ],
        &true,
    );

    let token_admin = Address::generate(&env);
    let (token_client, sudo_token, token_address) = create_token(&env, &token_admin);

    // Set up commission recipient with trustline
    setup_test_commission_recipient(&env, &splitter, &[&sudo_token]);

    // Initial deposit of 1000 tokens
    sudo_token.mint(&splitter_address, &1000);

    // First distribution: 1000 - 0.5% commission (5) = 995 to distribute
    splitter.distribute_tokens(&token_address);

    let allocation_1 = splitter.get_allocation(&shareholder_1, &token_address);
    let allocation_2 = splitter.get_allocation(&shareholder_2, &token_address);
    // 995 * 50% = 497 each (floor division)
    // Dust of 1 goes to largest (they're equal, so first found)
    assert_eq!(allocation_1, 498); // 497 + 1 dust
    assert_eq!(allocation_2, 497);

    // Second distribution WITHOUT new deposits - should not increase allocations
    splitter.distribute_tokens(&token_address);

    let allocation_1_after = splitter.get_allocation(&shareholder_1, &token_address);
    let allocation_2_after = splitter.get_allocation(&shareholder_2, &token_address);

    // Allocations should remain the same (no new deposits to distribute)
    assert_eq!(allocation_1_after, 498);
    assert_eq!(allocation_2_after, 497);

    // Total allocations should never exceed actual balance (minus commission already transferred)
    let total_allocated = allocation_1_after + allocation_2_after;
    let actual_balance = token_client.balance(&splitter_address);
    assert!(total_allocated <= actual_balance,
        "Total allocated ({}) exceeds actual balance ({})", total_allocated, actual_balance);
}

/// Test that new deposits after distribution are correctly distributed
#[test]
fn test_distribution_after_new_deposit() {
    let env = TestEnv::default();
    env.mock_all_auths();

    let admin = Address::generate(&env);
    let shareholder_1 = Address::generate(&env);
    let shareholder_2 = Address::generate(&env);

    let (splitter, splitter_address) = create_splitter_with_shares(
        &env,
        &admin,
        &vec![
            ShareDataKey {
                shareholder: shareholder_1.clone(),
                share: 5000, // 50%
            },
            ShareDataKey {
                shareholder: shareholder_2.clone(),
                share: 5000, // 50%
            },
        ],
        &true,
    );

    let token_admin = Address::generate(&env);
    let (token_client, sudo_token, token_address) = create_token(&env, &token_admin);

    // Set up commission recipient with trustline
    setup_test_commission_recipient(&env, &splitter, &[&sudo_token]);

    // Initial deposit of 1000 tokens
    // After 0.5% commission (5): 995 to distribute = 497 + 498 (with dust)
    sudo_token.mint(&splitter_address, &1000);
    splitter.distribute_tokens(&token_address);

    assert_eq!(splitter.get_allocation(&shareholder_1, &token_address), 498); // 497 + 1 dust
    assert_eq!(splitter.get_allocation(&shareholder_2, &token_address), 497);

    // New deposit of 500 tokens
    // After 0.5% commission (2): 498 to distribute = 249 each
    sudo_token.mint(&splitter_address, &500);
    splitter.distribute_tokens(&token_address);

    // Allocations increase by ~249 each
    assert_eq!(splitter.get_allocation(&shareholder_1, &token_address), 747); // 498 + 249
    assert_eq!(splitter.get_allocation(&shareholder_2, &token_address), 746); // 497 + 249

    // Verify total allocated equals actual balance (after commissions transferred out)
    let total_allocated = 747 + 746;
    let actual_balance = token_client.balance(&splitter_address);
    assert_eq!(total_allocated, actual_balance);
}

/// Test that distribution after partial claim works correctly
#[test]
fn test_distribution_after_partial_claim() {
    let env = TestEnv::default();
    env.mock_all_auths();

    let admin = Address::generate(&env);
    let shareholder_1 = Address::generate(&env);
    let shareholder_2 = Address::generate(&env);

    let (splitter, splitter_address) = create_splitter_with_shares(
        &env,
        &admin,
        &vec![
            ShareDataKey {
                shareholder: shareholder_1.clone(),
                share: 5000, // 50%
            },
            ShareDataKey {
                shareholder: shareholder_2.clone(),
                share: 5000, // 50%
            },
        ],
        &true,
    );

    let token_admin = Address::generate(&env);
    let (token_client, sudo_token, token_address) = create_token(&env, &token_admin);

    // Set up commission recipient with trustline
    setup_test_commission_recipient(&env, &splitter, &[&sudo_token]);

    // Initial deposit and distribution
    // 1000 tokens, 0.5% commission (5), 995 to distribute = 497 + 498 (with dust)
    sudo_token.mint(&splitter_address, &1000);
    splitter.distribute_tokens(&token_address);

    // Shareholder 1 claims their full allocation (498)
    splitter.withdraw_allocation(&token_address, &shareholder_1, &498);

    // Check balances
    assert_eq!(splitter.get_allocation(&shareholder_1, &token_address), 0);
    assert_eq!(splitter.get_allocation(&shareholder_2, &token_address), 497);
    // Contract balance: 995 (after commission) - 498 (claimed) = 497
    assert_eq!(token_client.balance(&splitter_address), 497);
    assert_eq!(token_client.balance(&shareholder_1), 498); // Received claim

    // Now deposit more tokens
    sudo_token.mint(&splitter_address, &200);
    // Balance is now 697, but 497 is already allocated to shareholder_2
    // Distributable: 697 - 497 = 200
    // After 0.5% commission (1): 199 to distribute = 99 + 100 (with dust)

    splitter.distribute_tokens(&token_address);

    // Each gets ~50% of the NEW 199 = 99 + dust
    assert_eq!(splitter.get_allocation(&shareholder_1, &token_address), 100); // 99 + 1 dust
    assert_eq!(splitter.get_allocation(&shareholder_2, &token_address), 596); // 497 + 99

    // Total allocated should match balance
    let total_allocated = 100 + 596;
    let actual_balance = token_client.balance(&splitter_address);
    assert_eq!(total_allocated, actual_balance);
}

/// Test that rounding dust goes to the largest shareholder
#[test]
fn test_dust_distribution() {
    let env = TestEnv::default();
    env.mock_all_auths();

    let admin = Address::generate(&env);
    let shareholder_1 = Address::generate(&env); // 33.33%
    let shareholder_2 = Address::generate(&env); // 33.33%
    let shareholder_3 = Address::generate(&env); // 33.34% (largest)

    let (splitter, splitter_address) = create_splitter_with_shares(
        &env,
        &admin,
        &vec![
            ShareDataKey {
                shareholder: shareholder_1.clone(),
                share: 3333,
            },
            ShareDataKey {
                shareholder: shareholder_2.clone(),
                share: 3333,
            },
            ShareDataKey {
                shareholder: shareholder_3.clone(),
                share: 3334, // Largest share
            },
        ],
        &true,
    );

    let token_admin = Address::generate(&env);
    let (token_client, sudo_token, token_address) = create_token(&env, &token_admin);

    // Set up commission recipient with trustline
    setup_test_commission_recipient(&env, &splitter, &[&sudo_token]);

    // Deposit 100 tokens - 0.5% commission = 0 (floor), so 100 to distribute
    // 100 * 3333 / 10000 = 33 each for sh1 and sh2
    // 100 * 3334 / 10000 = 33 for sh3
    // Total = 99, dust = 1
    sudo_token.mint(&splitter_address, &100);
    splitter.distribute_tokens(&token_address);

    let alloc_1 = splitter.get_allocation(&shareholder_1, &token_address);
    let alloc_2 = splitter.get_allocation(&shareholder_2, &token_address);
    let alloc_3 = splitter.get_allocation(&shareholder_3, &token_address);

    assert_eq!(alloc_1, 33);
    assert_eq!(alloc_2, 33);
    assert_eq!(alloc_3, 34); // Gets 33 + 1 dust

    // Total allocated should equal balance (no dust left)
    let total_allocated = alloc_1 + alloc_2 + alloc_3;
    let actual_balance = token_client.balance(&splitter_address);
    assert_eq!(total_allocated, actual_balance);
}

/// Test the extreme case: many distributions, partial claims, more deposits
#[test]
fn test_complex_distribution_scenario() {
    let env = TestEnv::default();
    env.mock_all_auths();

    let admin = Address::generate(&env);
    let sh1 = Address::generate(&env);
    let sh2 = Address::generate(&env);
    let sh3 = Address::generate(&env);

    let (splitter, splitter_address) = create_splitter_with_shares(
        &env,
        &admin,
        &vec![
            ShareDataKey { shareholder: sh1.clone(), share: 5000 }, // 50%
            ShareDataKey { shareholder: sh2.clone(), share: 3000 }, // 30%
            ShareDataKey { shareholder: sh3.clone(), share: 2000 }, // 20%
        ],
        &true,
    );

    let token_admin = Address::generate(&env);
    let (token_client, sudo_token, token_address) = create_token(&env, &token_admin);

    // Set up commission recipient with trustline
    setup_test_commission_recipient(&env, &splitter, &[&sudo_token]);

    // Round 1: Deposit 10000 and distribute
    // After 0.5% commission (50): 9950 to distribute
    // sh1: 9950 * 50% = 4975, sh2: 9950 * 30% = 2985, sh3: 9950 * 20% = 1990
    sudo_token.mint(&splitter_address, &10000);
    splitter.distribute_tokens(&token_address);

    assert_eq!(splitter.get_allocation(&sh1, &token_address), 4975); // 50%
    assert_eq!(splitter.get_allocation(&sh2, &token_address), 2985); // 30%
    assert_eq!(splitter.get_allocation(&sh3, &token_address), 1990); // 20%

    // Round 2: Distribute again with no new deposits - allocations unchanged
    splitter.distribute_tokens(&token_address);

    assert_eq!(splitter.get_allocation(&sh1, &token_address), 4975);
    assert_eq!(splitter.get_allocation(&sh2, &token_address), 2985);
    assert_eq!(splitter.get_allocation(&sh3, &token_address), 1990);

    // sh1 claims 2000
    splitter.withdraw_allocation(&token_address, &sh1, &2000);
    assert_eq!(splitter.get_allocation(&sh1, &token_address), 2975);
    assert_eq!(token_client.balance(&sh1), 2000);

    // Round 3: New deposit of 5000
    // After 0.5% commission (25): 4975 to distribute
    // sh1: 4975 * 50% = 2487 + 1 dust = 2488, sh2: 4975 * 30% = 1492, sh3: 4975 * 20% = 995
    sudo_token.mint(&splitter_address, &5000);
    splitter.distribute_tokens(&token_address);

    // New allocations added to existing
    assert_eq!(splitter.get_allocation(&sh1, &token_address), 2975 + 2488); // 5463
    assert_eq!(splitter.get_allocation(&sh2, &token_address), 2985 + 1492); // 4477
    assert_eq!(splitter.get_allocation(&sh3, &token_address), 1990 + 995);  // 2985

    // Verify total allocated = contract balance
    let total_allocated = 5463 + 4477 + 2985;
    let actual_balance = token_client.balance(&splitter_address);
    assert_eq!(total_allocated, actual_balance);
}

#[test]
fn transfer_tokens_happy_path() {
    let env = TestEnv::default();
    env.mock_all_auths();

    let admin = Address::generate(&env);

    let (splitter, splitter_address) =
        create_splitter_with_shares(&env, &admin, &get_default_share_data(&env), &true);

    let token_admin = Address::generate(&env);
    let (token, sudo_token, token_address) = create_token(&env, &token_admin);

    // Set up commission recipient with trustline
    setup_test_commission_recipient(&env, &splitter, &[&sudo_token]);

    // Mint and distribute first batch
    // 1_000_000_000 - 0.5% commission = 995_000_000 distributed
    sudo_token.mint(&splitter_address, &1_000_000_000);
    splitter.distribute_tokens(&token_address);
    // After commission, contract balance is 995_000_000

    // Mint another batch (unused)
    sudo_token.mint(&splitter_address, &1_000_000_000);
    // Contract balance now: 995_000_000 + 1_000_000_000 = 1_995_000_000
    // Allocated: 995_000_000, unused: 1_000_000_000

    let transfer_address = Address::generate(&env);
    splitter.transfer_tokens(&token_address, &transfer_address, &500_000_000);

    assert_eq!(token.balance(&splitter_address), 1_495_000_000); // 1_995_000_000 - 500_000_000
    assert_eq!(token.balance(&transfer_address), 500_000_000);
}

#[test]
fn transfer_tokens_test_not_initialized() {
    let env = TestEnv::default();
    let (splitter, _) = create_splitter(&env);

    assert_eq!(
        splitter.try_transfer_tokens(&Address::generate(&env), &Address::generate(&env), &1),
        Err(Error::NotInitialized)
    );
}

#[test]
fn transfer_tokens_test_unauthorized() {
    let env = TestEnv::default();
    let (splitter, _) = create_splitter(&env);

    assert!(splitter
        .try_transfer_tokens(&Address::generate(&env), &Address::generate(&env), &1)
        .is_err());
}

#[test]
fn test_zero_transfer_amount() {
    let env = TestEnv::default();
    env.mock_all_auths();

    let admin = Address::generate(&env);

    let (splitter, _) =
        create_splitter_with_shares(&env, &admin, &get_default_share_data(&env), &true);

    let token_admin = Address::generate(&env);
    let (_, _, token_address) = create_token(&env, &token_admin);

    assert_eq!(
        splitter.try_transfer_tokens(&token_address, &Address::generate(&env), &0),
        Err(Error::ZeroTransferAmount)
    );
    assert_eq!(
        splitter.try_transfer_tokens(&token_address, &Address::generate(&env), &-1),
        Err(Error::ZeroTransferAmount)
    );
}

#[test]
fn test_transfer_amount_above_balance() {
    let env = TestEnv::default();
    env.mock_all_auths();

    let admin = Address::generate(&env);

    let (splitter, splitter_address) =
        create_splitter_with_shares(&env, &admin, &get_default_share_data(&env), &true);

    let token_admin = Address::generate(&env);
    let (_, sudo_token, token_address) = create_token(&env, &token_admin);

    sudo_token.mint(&splitter_address, &1_000_000_000);

    assert_eq!(
        splitter.try_transfer_tokens(&token_address, &Address::generate(&env), &1_000_000_001),
        Err(Error::TransferAmountAboveBalance)
    );
}

#[test]
fn test_transfer_amount_unused_balance() {
    let env = TestEnv::default();
    env.mock_all_auths();

    let admin = Address::generate(&env);

    let (splitter, splitter_address) =
        create_splitter_with_shares(&env, &admin, &get_default_share_data(&env), &true);

    let token_admin = Address::generate(&env);
    let (_, sudo_token, token_address) = create_token(&env, &token_admin);

    // Set up commission recipient with trustline
    setup_test_commission_recipient(&env, &splitter, &[&sudo_token]);

    // Mint and distribute (with 0.5% commission)
    sudo_token.mint(&splitter_address, &1_000_000_000);
    splitter.distribute_tokens(&token_address);
    // Contract has 995_000_000 (after 5_000_000 commission), all allocated

    // Mint more (unused)
    sudo_token.mint(&splitter_address, &1_000_000_000);
    // Total balance: 1_995_000_000, allocated: 995_000_000, unused: 1_000_000_000

    // Trying to transfer more than unused should fail
    assert_eq!(
        splitter.try_transfer_tokens(&token_address, &Address::generate(&env), &1_500_000_000),
        Err(Error::TransferAmountAboveUnusedBalance)
    );
}
