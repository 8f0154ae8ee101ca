use vstd::prelude::*;

verus! {

/// Every way in which an operation on the pool can be refused.
#[derive(Clone, Copy, Debug, PartialEq, Eq, Structural, Hash)]
pub enum Error {
    /// The pool has no configuration yet.
    NotInitialized,
    /// The pool already has a configuration.
    AlreadyInitialized,
    /// The identity whose consent the operation needs has not given it.
    Unauthorized,
    /// The registry was locked against wholesale replacement.
    ContractLocked,
    /// A set of share records holds no record at all.
    LowShareCount,
    /// The unit amounts of a set of share records do not add up to the pool's supply.
    InvalidShareTotal,
    /// A sweep of unused balance asked for nothing, or for less than nothing.
    ZeroTransferAmount,
    /// A sweep asked for more than the pool holds.
    TransferAmountAboveBalance,
    /// A sweep asked for more than the part of the balance that no holder can claim.
    TransferAmountAboveUnusedBalance,
    /// A withdrawal asked for nothing, or for less than nothing.
    ZeroWithdrawalAmount,
    /// A withdrawal asked for more than the holder can claim.
    WithdrawalAmountAboveAllocation,
    /// The seller owns fewer units than the offer needs.
    NoSharesToSell,
    /// The seller has no open offer.
    NoActiveListing,
    /// A purchase asked for more units than the offer holds.
    InsufficientSharesInListing,
    /// A unit price that is not positive.
    InvalidPrice,
    /// A number of units that is not positive.
    InvalidShareAmount,
    /// Buyer and seller are the same identity.
    CannotBuyOwnShares,
    /// The sender owns no units.
    NoSharesToTransfer,
    /// The sender owns fewer units than the transfer moves.
    InsufficientSharesToTransfer,
    /// Sender and receiver are the same identity.
    CannotTransferToSelf,
    /// The price of a purchase does not fit the integer type.
    Overflow,
    /// A share record with a negative unit amount.
    NegativeShareAmount,
    /// Two share records for one identity.
    DuplicateShareholder,
    /// A commission rate outside the permitted range.
    InvalidCommissionRate,
}

impl Error {
    /// The number by which the error is known outside the pool.
    pub open spec fn spec_code(self) -> u32 {
        match self {
            Error::NotInitialized => 1,
            Error::AlreadyInitialized => 2,
            Error::Unauthorized => 3,
            Error::ContractLocked => 4,
            Error::LowShareCount => 5,
            Error::InvalidShareTotal => 6,
            Error::ZeroTransferAmount => 7,
            Error::TransferAmountAboveBalance => 8,
            Error::TransferAmountAboveUnusedBalance => 9,
            Error::ZeroWithdrawalAmount => 10,
            Error::WithdrawalAmountAboveAllocation => 11,
            Error::NoSharesToSell => 12,
            Error::NoActiveListing => 13,
            Error::InsufficientSharesInListing => 14,
            Error::InvalidPrice => 15,
            Error::InvalidShareAmount => 16,
            Error::CannotBuyOwnShares => 17,
            Error::NoSharesToTransfer => 18,
            Error::InsufficientSharesToTransfer => 19,
            Error::CannotTransferToSelf => 20,
            Error::Overflow => 21,
            Error::NegativeShareAmount => 22,
            Error::DuplicateShareholder => 23,
            Error::InvalidCommissionRate => 24,
        }
    }

    /// The number by which the error is known outside the pool.
    #[verifier::when_used_as_spec(spec_code)]
    pub fn code(self) -> (n: u32)
        ensures
            n == self.spec_code(),
    {
        match self {
            Error::NotInitialized => 1,
            Error::AlreadyInitialized => 2,
            Error::Unauthorized => 3,
            Error::ContractLocked => 4,
            Error::LowShareCount => 5,
            Error::InvalidShareTotal => 6,
            Error::ZeroTransferAmount => 7,
            Error::TransferAmountAboveBalance => 8,
            Error::TransferAmountAboveUnusedBalance => 9,
            Error::ZeroWithdrawalAmount => 10,
            Error::WithdrawalAmountAboveAllocation => 11,
            Error::NoSharesToSell => 12,
            Error::NoActiveListing => 13,
            Error::InsufficientSharesInListing => 14,
            Error::InvalidPrice => 15,
            Error::InvalidShareAmount => 16,
            Error::CannotBuyOwnShares => 17,
            Error::NoSharesToTransfer => 18,
            Error::InsufficientSharesToTransfer => 19,
            Error::CannotTransferToSelf => 20,
            Error::Overflow => 21,
            Error::NegativeShareAmount => 22,
            Error::DuplicateShareholder => 23,
            Error::InvalidCommissionRate => 24,
        }
    }
}

} // verus!
