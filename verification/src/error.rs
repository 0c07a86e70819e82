use vstd::prelude::*;

verus! {

/// Errors returned by the contract's computations.
#[derive(Clone, Copy, Debug, PartialEq, Eq, Structural)]
pub enum ContractError {
    /// The contract has not been initialized.
    NotInitialized,
    /// The caller is not the administrator.
    NotAdmin,
    /// A stake or bond amount of zero was supplied.
    InvalidStakeAmount,
    /// An arithmetic operation left its integer range.
    Overflow,
    /// A re-entrant call reached a guarded section.
    ReentrancyDetected,
    /// Too few valid signatures were gathered.
    ThresholdNotReached,
    /// A division by zero was requested.
    DivisionByZero,
    /// The validator holds no stake from which a penalty could be taken.
    InsufficientBondForPenalty,
}

} // verus!
