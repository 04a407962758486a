use vstd::prelude::*;

verus! {

/// Why an operation of the pool was refused.
#[derive(PartialEq, Eq, Structural, Clone, Copy, Debug)]
pub enum StakeError {
    /// The depositor has authorised the pool for less than the amount.
    InsufficientAllowance,
    /// The account that asks to join holds nothing of the asset.
    InsufficientBalance,
    /// The account that asks to join is a member already.
    AlreadyRegistered,
    /// The pool holds nothing to pay out.
    EmptyPool,
    /// Nobody has joined yet.
    NoMembers,
    /// No member holds any of the asset at the time of the payout.
    NoValidHolders,
    /// A sum of holdings, or a holding times the amount paid out, does not fit in an `i128`.
    Overflow,
}

/// The slots under which the pool's state is persisted.
#[derive(PartialEq, Eq, Structural, Clone, Copy, Debug)]
pub enum DataKey {
    /// The ledger of the pooled asset.
    Token,
    /// The administrator recorded at creation.
    Admin,
    /// The members, in the order in which they joined.
    Users,
}

} // verus!
