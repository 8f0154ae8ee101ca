pub mod execute;
pub mod helpers;
pub mod query;
