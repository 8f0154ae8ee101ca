pub mod buy_shares;
pub mod cancel_listing;
pub mod distribute_tokens;
pub mod init;
pub mod list_shares_for_sale;
pub mod lock_contract;
pub mod transfer_shares;
pub mod transfer_tokens;
pub mod update_shares;
pub mod withdraw_allocation;

pub use buy_shares::execute as buy_shares;
pub use cancel_listing::execute as cancel_listing;
pub use distribute_tokens::execute as distribute_tokens;
pub use init::execute as init;
pub use list_shares_for_sale::execute as list_shares_for_sale;
pub use lock_contract::execute as lock_contract;
pub use transfer_shares::execute as transfer_shares;
pub use transfer_tokens::execute as transfer_tokens;
pub use update_shares::execute as update_shares;
pub use withdraw_allocation::execute as withdraw_allocation;
