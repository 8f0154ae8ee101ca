pub mod get_allocation;
pub mod get_config;
pub mod get_listing;
pub mod get_share;
pub mod list_all_sales;
pub mod list_shares;

pub use get_allocation::query as get_allocation;
pub use get_config::query as get_config;
pub use get_listing::query as get_listing;
pub use get_share::query as get_share;
pub use list_all_sales::query as list_all_sales;
pub use list_shares::query as list_shares;
