use vstd::prelude::*;

verus! {

/// What stands behind an identity.
#[derive(Clone, Copy, Debug, PartialEq, Eq, Structural, Hash)]
pub enum AddressKind {
    /// A key pair held by a person or a service.
    Account,
    /// A deployed program.
    Contract,
}

/// An identity: a holder of units, an asset, the administrator, the recipient
/// of commissions. The pool never looks inside one; it only asks whether two
/// of them are the same.
#[derive(Clone, Copy, Debug, PartialEq, Eq, Structural, Hash)]
pub struct Address {
    pub kind: AddressKind,
    /// The first sixteen bytes of the identity's key, most significant first.
    pub hi: u128,
    /// The last sixteen bytes of the identity's key, most significant first.
    pub lo: u128,
}

impl Address {
    /// The account with the given key.
    pub fn account(hi: u128, lo: u128) -> (a: Address)
        ensures
            a == (Address { kind: AddressKind::Account, hi, lo }),
    {
        Address { kind: AddressKind::Account, hi, lo }
    }

    /// The contract with the given key.
    pub fn contract(hi: u128, lo: u128) -> (a: Address)
        ensures
            a == (Address { kind: AddressKind::Contract, hi, lo }),
    {
        Address { kind: AddressKind::Contract, hi, lo }
    }
}

} // verus!
