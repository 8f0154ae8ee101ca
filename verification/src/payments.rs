use vstd::prelude::*;
use crate::address::Address;

verus! {

/// Who gives up the value that a transfer moves.
#[derive(Clone, Copy, Debug, PartialEq, Eq, Structural)]
pub enum Payer {
    /// The pool itself, out of the balance that it holds.
    Pool,
    /// An identity, out of its own balance.
    Account(Address),
}

/// A movement of value that an operation asks for. The pool decides it;
/// whoever holds the balances carries it out, and the operation counts only
/// if every transfer it asked for went through.
#[derive(Clone, Copy, Debug, PartialEq, Eq, Structural)]
pub struct Transfer {
    pub token: Address,
    pub from: Payer,
    pub to: Address,
    pub amount: i128,
}

} // verus!
