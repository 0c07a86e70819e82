//! Re-entrancy guard for sensitive governance functions: a lock flag that a
//! guarded section takes on entry and gives back on exit.
use vstd::prelude::*;

use crate::error::ContractError;

verus! {

/// The lock state of a guarded section.
#[derive(Clone, Copy, Debug, PartialEq, Eq, Structural)]
pub struct ReentrancyGuard {
    pub locked: bool,
}

/// What taking the lock in state `locked` gives: the new lock state, or
/// `ContractError::ReentrancyDetected` when it is already held.
pub open spec fn acquire_outcome(locked: bool) -> Result<bool, ContractError> {
    if locked {
        Err(ContractError::ReentrancyDetected)
    } else {
        Ok(true)
    }
}

impl ReentrancyGuard {
    /// Takes the lock. Fails with `ContractError::ReentrancyDetected`, and
    /// leaves the lock held, when it is already held.
    pub fn acquire(&mut self) -> (r: Result<(), ContractError>)
        ensures
            match acquire_outcome(old(self).locked) {
                Ok(locked) => r == Ok::<(), ContractError>(()) && final(self).locked == locked,
                Err(e) => r == Err::<(), ContractError>(e) && final(self).locked == old(self).locked,
            },
    {
        if self.locked {
            return Err(ContractError::ReentrancyDetected);
        }
        self.locked = true;
        Ok(())
    }

    /// Gives the lock back.
    pub fn release(&mut self)
        ensures
            !final(self).locked,
    {
        self.locked = false;
    }
}

/// A second acquisition without a release in between is rejected, and an
/// acquisition after a release succeeds.
pub proof fn lemma_lock_excludes_reentry(locked: bool)
    ensures
        acquire_outcome(locked) matches Ok(held) ==> acquire_outcome(held) == Err::<bool, ContractError>(
            ContractError::ReentrancyDetected,
        ),
        acquire_outcome(false) == Ok::<bool, ContractError>(true),
{
}

} // verus!
