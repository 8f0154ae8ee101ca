#![allow(dead_code)]

use std::cell::{Cell, RefCell};
use std::collections::HashMap;

use splitter::address::Address;
use splitter::contract::Splitter;
use splitter::errors::Error;
use splitter::payments::{Payer, Transfer};
use splitter::storage::{CommissionConfig, ConfigDataKey, Env, SaleListingDataKey, ShareDataKey};

/// The world around one pool: its memory, and who holds how much of which asset.
struct TestEnv {
    pool: RefCell<Env>,
    balances: RefCell<HashMap<(Address, Address), i128>>,
    generated: Cell<u128>,
}

impl Default for TestEnv {
    fn default() -> TestEnv {
        TestEnv {
            pool: RefCell::new(Env::new()),
            balances: RefCell::new(HashMap::new()),
            generated: Cell::new(0),
        }
    }
}

impl TestEnv {
    fn mock_all_auths(&self) {
        self.pool.borrow_mut().authorize_all();
    }

    fn balance_of(&self, token: &Address, holder: &Address) -> i128 {
        *self.balances.borrow().get(&(*token, *holder)).unwrap_or(&0)
    }

    fn credit(&self, token: &Address, holder: &Address, amount: i128) {
        let now = self.balance_of(token, holder);
        self.balances.borrow_mut().insert((*token, *holder), now + amount);
    }

    fn pay(&self, pool: &Address, transfer: &Transfer) {
        let from = match transfer.from {
            Payer::Pool => *pool,
            Payer::Account(who) => who,
        };
        assert!(transfer.amount >= 0);
        assert!(self.balance_of(&transfer.token, &from) >= transfer.amount);
        self.credit(&transfer.token, &from, -transfer.amount);
        self.credit(&transfer.token, &transfer.to, transfer.amount);
    }
}

/// Makes identities that were not made before.
trait Generate {
    fn generate(env: &TestEnv) -> Address;
}

impl Generate for Address {
    fn generate(env: &TestEnv) -> Address {
        let n = env.generated.get() + 1;
        env.generated.set(n);
        Address::contract(0x7e57, n)
    }
}

/// One asset, seen from outside the pool.
struct Token<'a> {
    env: &'a TestEnv,
    address: Address,
}

impl<'a> Token<'a> {
    fn mint(&self, to: &Address, amount: &i128) {
        self.env.credit(&self.address, to, *amount);
    }

    fn balance(&self, of: &Address) -> i128 {
        self.env.balance_of(&self.address, of)
    }
}

/// The pool as its callers reach it: every call reads the balance it needs,
/// runs the operation, and carries out the transfers that it asks for.
struct SplitterClient<'a> {
    env: &'a TestEnv,
    address: Address,
}

impl<'a> SplitterClient<'a> {
    fn try_init(
        &self,
        admin: &Address,
        shares: &Vec<ShareDataKey>,
        mutable: &bool,
    ) -> Result<(), Error> {
        Splitter::init(&mut self.env.pool.borrow_mut(), *admin, shares.clone(), *mutable)
    }

    fn init(&self, admin: &Address, shares: &Vec<ShareDataKey>, mutable: &bool) {
        self.try_init(admin, shares, mutable).unwrap()
    }

    fn try_transfer_tokens(
        &self,
        token_address: &Address,
        recipient: &Address,
        amount: &i128,
    ) -> Result<(), Error> {
        let balance = self.env.balance_of(token_address, &self.address);
        let transfer = Splitter::transfer_tokens(
            &self.env.pool.borrow(),
            *token_address,
            *recipient,
            *amount,
            balance,
        )?;
        self.env.pay(&self.address, &transfer);
        Ok(())
    }

    fn transfer_tokens(&self, token_address: &Address, recipient: &Address, amount: &i128) {
        self.try_transfer_tokens(token_address, recipient, amount).unwrap()
    }

    fn try_distribute_tokens(&self, token_address: &Address) -> Result<(), Error> {
        let balance = self.env.balance_of(token_address, &self.address);
        let distribution =
            Splitter::distribute_tokens(&mut self.env.pool.borrow_mut(), *token_address, balance)?;
        if let Some(transfer) = distribution.commission {
            self.env.pay(&self.address, &transfer);
        }
        Ok(())
    }

    fn distribute_tokens(&self, token_address: &Address) {
        self.try_distribute_tokens(token_address).unwrap()
    }

    fn try_update_shares(&self, shares: &Vec<ShareDataKey>) -> Result<(), Error> {
        Splitter::update_shares(&mut self.env.pool.borrow_mut(), shares.clone())
    }

    fn update_shares(&self, shares: &Vec<ShareDataKey>) {
        self.try_update_shares(shares).unwrap()
    }

    fn try_lock_contract(&self) -> Result<(), Error> {
        Splitter::lock_contract(&mut self.env.pool.borrow_mut())
    }

    fn lock_contract(&self) {
        self.try_lock_contract().unwrap()
    }

    fn try_withdraw_allocation(
        &self,
        token_address: &Address,
        shareholder: &Address,
        amount: &i128,
    ) -> Result<(), Error> {
        let transfer = Splitter::withdraw_allocation(
            &mut self.env.pool.borrow_mut(),
            *token_address,
            *shareholder,
            *amount,
        )?;
        self.env.pay(&self.address, &transfer);
        Ok(())
    }

    fn withdraw_allocation(&self, token_address: &Address, shareholder: &Address, amount: &i128) {
        self.try_withdraw_allocation(token_address, shareholder, amount).unwrap()
    }

    fn try_transfer_shares(&self, from: &Address, to: &Address, amount: &i128) -> Result<(), Error> {
        Splitter::transfer_shares(&mut self.env.pool.borrow_mut(), *from, *to, *amount)
    }

    fn transfer_shares(&self, from: &Address, to: &Address, amount: &i128) {
        self.try_transfer_shares(from, to, amount).unwrap()
    }

    fn get_share(&self, shareholder: &Address) -> Option<i128> {
        Splitter::get_share(&self.env.pool.borrow(), *shareholder).unwrap()
    }

    fn list_shares(&self) -> Vec<ShareDataKey> {
        Splitter::list_shares(&self.env.pool.borrow()).unwrap()
    }

    fn get_config(&self) -> ConfigDataKey {
        Splitter::get_config(&self.env.pool.borrow()).unwrap()
    }

    fn get_allocation(&self, shareholder: &Address, token: &Address) -> i128 {
        Splitter::get_allocation(&self.env.pool.borrow(), *shareholder, *token).unwrap()
    }

    fn try_list_shares_for_sale(
        &self,
        seller: &Address,
        shares_amount: &i128,
        price_per_share: &i128,
        payment_token: &Address,
    ) -> Result<(), Error> {
        Splitter::list_shares_for_sale(
            &mut self.env.pool.borrow_mut(),
            *seller,
            *shares_amount,
            *price_per_share,
            *payment_token,
        )
    }

    fn list_shares_for_sale(
        &self,
        seller: &Address,
        shares_amount: &i128,
        price_per_share: &i128,
        payment_token: &Address,
    ) {
        self.try_list_shares_for_sale(seller, shares_amount, price_per_share, payment_token)
            .unwrap()
    }

    fn try_cancel_listing(&self, seller: &Address) -> Result<(), Error> {
        Splitter::cancel_listing(&mut self.env.pool.borrow_mut(), *seller)
    }

    fn cancel_listing(&self, seller: &Address) {
        self.try_cancel_listing(seller).unwrap()
    }

    fn try_buy_shares(
        &self,
        buyer: &Address,
        seller: &Address,
        shares_amount: &i128,
    ) -> Result<(), Error> {
        let sale =
            Splitter::buy_shares(&mut self.env.pool.borrow_mut(), *buyer, *seller, *shares_amount)?;
        if let Some(transfer) = sale.to_seller {
            self.env.pay(&self.address, &transfer);
        }
        if let Some(transfer) = sale.commission {
            self.env.pay(&self.address, &transfer);
        }
        Ok(())
    }

    fn buy_shares(&self, buyer: &Address, seller: &Address, shares_amount: &i128) {
        self.try_buy_shares(buyer, seller, shares_amount).unwrap()
    }

    fn get_listing(&self, seller: &Address) -> Option<SaleListingDataKey> {
        Splitter::get_listing(&self.env.pool.borrow(), *seller).unwrap()
    }

    fn list_all_sales(&self) -> Vec<SaleListingDataKey> {
        Splitter::list_all_sales(&self.env.pool.borrow()).unwrap()
    }

    fn try_set_commission_recipient(&self, new_recipient: &Address) -> Result<(), Error> {
        Splitter::set_commission_recipient(&mut self.env.pool.borrow_mut(), *new_recipient)
    }

    fn set_commission_recipient(&self, new_recipient: &Address) {
        self.try_set_commission_recipient(new_recipient).unwrap()
    }

    fn try_set_buy_commission_rate(&self, new_rate_bps: &i128) -> Result<(), Error> {
        Splitter::set_buy_commission_rate(&mut self.env.pool.borrow_mut(), *new_rate_bps)
    }

    fn try_set_distribution_commission_rate(&self, new_rate_bps: &i128) -> Result<(), Error> {
        Splitter::set_distribution_commission_rate(&mut self.env.pool.borrow_mut(), *new_rate_bps)
    }

    fn get_commission_config(&self) -> CommissionConfig {
        Splitter::get_commission_config(&mut self.env.pool.borrow_mut()).unwrap()
    }
}

fn setup_test_commission_recipient<'a>(
    env: &TestEnv,
    splitter: &SplitterClient<'a>,
    token_admins: &[&Token<'a>],
) -> Address {
    let commission_recipient = Address::generate(env);
    for token_admin in token_admins {
        token_admin.mint(&commission_recipient, &0);
    }
    splitter.set_commission_recipient(&commission_recipient);
    commission_recipient
}

fn create_splitter(e: &TestEnv) -> (SplitterClient<'_>, Address) {
    let contract_id = Address::generate(e);
    (SplitterClient { env: e, address: contract_id }, contract_id)
}

fn create_splitter_with_shares<'a>(
    e: &'a TestEnv,
    admin: &Address,
    shares: &Vec<ShareDataKey>,
    mutable: &bool,
) -> (SplitterClient<'a>, Address) {
    let (client, contract_id) = create_splitter(e);
    client.init(admin, shares, mutable);
    (client, contract_id)
}

fn create_token<'a>(e: &'a TestEnv, _admin: &Address) -> (Token<'a>, Token<'a>, Address) {
    let contract_id = Address::generate(e);
    (Token { env: e, address: contract_id }, Token { env: e, address: contract_id }, contract_id)
}

fn get_default_share_data(env: &TestEnv) -> Vec<ShareDataKey> {
    vec![
        ShareDataKey { shareholder: Address::generate(env), share: 8050 },
        ShareDataKey { shareholder: Address::generate(env), share: 1950 },
    ]
}

#[test]
fn init_happy_path() {
    let env = TestEnv::default();
    let (splitter, _) = create_splitter(&env);

    let admin = Address::generate(&env);
    let shareholder_1 = Address::generate(&env);
    let shareholder_2 = Address::generate(&env);
    let shares = vec![
            ShareDataKey {
            shareholder: shareholder_1.clone(),
            share: 8050,
        },
        ShareDataKey {
            shareholder: shareholder_2.clone(),
            share: 1950,
        },
    ];

    splitter.init(&admin, &shares, &true);

    assert_eq!(splitter.get_share(&shareholder_1), Some(8050));
    assert_eq!(splitter.get_share(&shareholder_2), Some(1950));
    assert_eq!(splitter.list_shares(), shares);
}

#[test]
fn test_already_initialized() {
    let env = TestEnv::default();
    let (splitter, _) = create_splitter(&env);

    let admin = Address::generate(&env);
    let shares = vec![
            ShareDataKey {
            shareholder: Address::generate(&env),
            share: 8050,
        },
        ShareDataKey {
            shareholder: Address::generate(&env),
            share: 1950,
        },
    ];
    splitter.init(&admin, &shares, &true);

    assert_eq!(
        splitter.try_init(&admin, &shares, &true),
        Err(Error::AlreadyInitialized)
    );
}

#[test]
fn test_low_share_count() {
    let env = TestEnv::default();
    let (splitter, _) = create_splitter(&env);

    let admin = Address::generate(&env);
    let shares = vec![
            ShareDataKey {
            shareholder: Address::generate(&env),
            share: 8050,
        },
    ];

    // Single shareholder is allowed, but total must be 10000
    // This test has 1 shareholder with 8050 shares (not 10000), so InvalidShareTotal
    assert_eq!(
        splitter.try_init(&admin, &shares, &true),
        Err(Error::InvalidShareTotal)
    );
}

#[test]
fn test_invalid_share_total() {
    let env = TestEnv::default();
    let (splitter, _) = create_splitter(&env);

    let admin = Address::generate(&env);

    assert_eq!(
        splitter.try_init(
            &admin,
            &vec![
            ShareDataKey {
                    shareholder: Address::generate(&env),
                    share: 8050,
                },
                ShareDataKey {
                    shareholder: Address::generate(&env),
                    share: 8050,
                },
            ],
            &true
        ),
        Err(Error::InvalidShareTotal)
    );

    assert_eq!(
        splitter.try_init(
            &admin,
            &vec![
            ShareDataKey {
                    shareholder: Address::generate(&env),
                    share: 8050,
                },
                ShareDataKey {
                    shareholder: Address::generate(&env),
                    share: 50,
                },
            ],
            &true
        ),
        Err(Error::InvalidShareTotal)
    );
}

#[test]
fn test_duplicate_shareholder() {
    let env = TestEnv::default();
    let (splitter, _) = create_splitter(&env);

    let admin = Address::generate(&env);
    let duplicate_address = Address::generate(&env);

    // Same address appears twice - should fail
    assert_eq!(
        splitter.try_init(
            &admin,
            &vec![
            ShareDataKey {
                    shareholder: duplicate_address.clone(),
                    share: 5000,
                },
                ShareDataKey {
                    shareholder: duplicate_address.clone(), // Duplicate!
                    share: 5000,
                },
            ],
            &true
        ),
        Err(Error::DuplicateShareholder)
    );
}

#[test]
fn transfer_shares_happy_path() {
    let env = TestEnv::default();
    env.mock_all_auths();

    let admin = Address::generate(&env);
    let shareholder1 = Address::generate(&env);
    let shareholder2 = Address::generate(&env);
    let recipient = Address::generate(&env);

    let shares = vec![
            ShareDataKey {
            shareholder: shareholder1.clone(),
            share: 6000,
        },
        ShareDataKey {
            shareholder: shareholder2.clone(),
            share: 4000,
        },
    ];

    let (client, _) = create_splitter_with_shares(&env, &admin, &shares, &true);

    // Transfer 2000 shares from shareholder1 to recipient (new shareholder)
    client.transfer_shares(&shareholder1, &recipient, &2000);

    // Verify shares updated
    assert_eq!(client.get_share(&shareholder1), Some(4000));
    assert_eq!(client.get_share(&recipient), Some(2000));
    assert_eq!(client.get_share(&shareholder2), Some(4000)); // Unchanged

    // Verify recipient is now in shareholders list
    let all_shares = client.list_shares();
    assert_eq!(all_shares.len(), 3);
}

#[test]
fn transfer_all_shares() {
    let env = TestEnv::default();
    env.mock_all_auths();

    let admin = Address::generate(&env);
    let shareholder1 = Address::generate(&env);
    let shareholder2 = Address::generate(&env);
    let recipient = Address::generate(&env);

    let shares = vec![
            ShareDataKey {
            shareholder: shareholder1.clone(),
            share: 6000,
        },
        ShareDataKey {
            shareholder: shareholder2.clone(),
            share: 4000,
        },
    ];

    let (client, _) = create_splitter_with_shares(&env, &admin, &shares, &true);

    // Transfer all shares from shareholder1 to recipient
    client.transfer_shares(&shareholder1, &recipient, &6000);

    // Verify shareholder1 has no shares and is removed
    assert_eq!(client.get_share(&shareholder1), None);
    assert_eq!(client.get_share(&recipient), Some(6000));

    // Verify shareholders list updated
    let all_shares = client.list_shares();
    assert_eq!(all_shares.len(), 2); // shareholder1 removed, recipient added
}

#[test]
fn transfer_to_existing_shareholder() {
    let env = TestEnv::default();
    env.mock_all_auths();

    let admin = Address::generate(&env);
    let shareholder1 = Address::generate(&env);
    let shareholder2 = Address::generate(&env);

    let shares = vec![
            ShareDataKey {
            shareholder: shareholder1.clone(),
            share: 6000,
        },
        ShareDataKey {
            shareholder: shareholder2.clone(),
            share: 4000,
        },
    ];

    let (client, _) = create_splitter_with_shares(&env, &admin, &shares, &true);

    // Transfer 1000 shares from shareholder1 to shareholder2
    client.transfer_shares(&shareholder1, &shareholder2, &1000);

    // Verify shares updated
    assert_eq!(client.get_share(&shareholder1), Some(5000));
    assert_eq!(client.get_share(&shareholder2), Some(5000));

    // Shareholders list should still have 2 entries
    let all_shares = client.list_shares();
    assert_eq!(all_shares.len(), 2);
}

#[test]
fn fail_transfer_to_self() {
    let env = TestEnv::default();
    env.mock_all_auths();

    let admin = Address::generate(&env);
    let shareholder1 = Address::generate(&env);
    let shareholder2 = Address::generate(&env);

    let shares = vec![
            ShareDataKey {
            shareholder: shareholder1.clone(),
            share: 6000,
        },
        ShareDataKey {
            shareholder: shareholder2.clone(),
            share: 4000,
        },
    ];

    let (client, _) = create_splitter_with_shares(&env, &admin, &shares, &true);

    // Try to transfer to self
    let result = client.try_transfer_shares(&shareholder1, &shareholder1, &1000);
    assert_eq!(result, Err(Error::CannotTransferToSelf));
}

#[test]
fn fail_insufficient_shares() {
    let env = TestEnv::default();
    env.mock_all_auths();

    let admin = Address::generate(&env);
    let shareholder1 = Address::generate(&env);
    let shareholder2 = Address::generate(&env);
    let recipient = Address::generate(&env);

    let shares = vec![
            ShareDataKey {
            shareholder: shareholder1.clone(),
            share: 6000,
        },
        ShareDataKey {
            shareholder: shareholder2.clone(),
            share: 4000,
        },
    ];

    let (client, _) = create_splitter_with_shares(&env, &admin, &shares, &true);

    // Try to transfer more than available
    let result = client.try_transfer_shares(&shareholder1, &recipient, &7000);
    assert_eq!(result, Err(Error::InsufficientSharesToTransfer));
}

#[test]
fn fail_no_shares() {
    let env = TestEnv::default();
    env.mock_all_auths();

    let admin = Address::generate(&env);
    let shareholder1 = Address::generate(&env);
    let shareholder2 = Address::generate(&env);
    let non_shareholder = Address::generate(&env);
    let recipient = Address::generate(&env);

    let shares = vec![
            ShareDataKey {
            shareholder: shareholder1.clone(),
            share: 6000,
        },
        ShareDataKey {
            shareholder: shareholder2.clone(),
            share: 4000,
        },
    ];

    let (client, _) = create_splitter_with_shares(&env, &admin, &shares, &true);

    // Try to transfer from non-shareholder
    let result = client.try_transfer_shares(&non_shareholder, &recipient, &1000);
    assert_eq!(result, Err(Error::NoSharesToTransfer));
}

#[test]
fn fail_invalid_amount() {
    let env = TestEnv::default();
    env.mock_all_auths();

    let admin = Address::generate(&env);
    let shareholder1 = Address::generate(&env);
    let shareholder2 = Address::generate(&env);
    let recipient = Address::generate(&env);

    let shares = vec![
            ShareDataKey {
            shareholder: shareholder1.clone(),
            share: 6000,
        },
        ShareDataKey {
            shareholder: shareholder2.clone(),
            share: 4000,
        },
    ];

    let (client, _) = create_splitter_with_shares(&env, &admin, &shares, &true);

    // Try to transfer 0 shares
    let result = client.try_transfer_shares(&shareholder1, &recipient, &0);
    assert_eq!(result, Err(Error::InvalidShareAmount));

    // Try to transfer negative shares
    let result = client.try_transfer_shares(&shareholder1, &recipient, &-100);
    assert_eq!(result, Err(Error::InvalidShareAmount));
}
