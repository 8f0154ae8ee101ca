//! A pool of ten thousand ownership units.
//!
//! The pool keeps a registry of who owns how many units, splits what is
//! deposited with it among the holders by their units, keeps a ledger of what
//! each holder can claim of each asset, and runs a marketplace on which
//! holders sell units to each other. Two commissions are skimmed, one on
//! distributions and one on purchases.
//!
//! The pool holds no balances and moves none: an operation is told the
//! balance that it needs, and reports the transfers that it asks for. It is
//! told whose consent the call has, and refuses where the consent it needs
//! is missing. A refused operation changes nothing.
//!
//! - [`address`]: identities.
//! - [`errors`]: the ways in which an operation can be refused.
//! - [`storage`]: what the pool remembers ([`storage::Env`]), its
//!   mathematical model ([`storage::State`]) with what holds of it between
//!   operations, and the reading and writing of single records.
//! - [`logic`]: the operations and the queries.
//! - [`contract`]: the operations as the pool's callers see them.
//! - [`snapshot`]: the pool as plain lists, to keep it between operations.
//! - [`laws`]: what holds of the pool whatever is called on it.
//! - [`payments`]: the transfers that operations ask for.
//! - [`math`], [`sums`], [`table`]: arithmetic, sums over finite maps, and
//!   the finite map that records are kept in.

pub mod address;
pub mod contract;
pub mod errors;
pub mod laws;
pub mod logic;
pub mod math;
pub mod payments;
pub mod snapshot;
pub mod storage;
pub mod sums;
pub mod table;
