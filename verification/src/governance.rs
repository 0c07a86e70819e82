//! Timelock and block-height checks for staged upgrades and parameter changes.
use vstd::prelude::*;

verus! {

/// Minimum number of ledgers that must separate staging and execution of an
/// upgrade.
pub const MIN_LEDGER_DELAY: u32 = 5000;

/// Whether an upgrade staged at ledger `staged_at` may run at ledger
/// `current_ledger`: at least `MIN_LEDGER_DELAY` ledgers must have passed.
/// A current ledger before the staging ledger counts as no time passed.
pub fn verify_staged_delay(staged_at: u32, current_ledger: u32) -> (ok: bool)
    ensures
        ok == staged_delay_elapsed(staged_at, current_ledger),
{
    current_ledger.saturating_sub(staged_at) >= MIN_LEDGER_DELAY
}

/// Verify that any incoming parameter modification maps to a target execution
/// block height strictly greater than the current active configuration index.
pub fn verify_block_height(target_height: u32, active_index: u32) -> (ok: bool)
    ensures
        ok == (target_height > active_index),
{
    target_height > active_index
}


/// Whether the upgrade delay has elapsed, as `verify_staged_delay` decides.
pub open spec fn staged_delay_elapsed(staged_at: u32, current_ledger: u32) -> bool {
    current_ledger >= staged_at && current_ledger - staged_at >= MIN_LEDGER_DELAY
}

/// The earliest ledger at which a staged upgrade may run is exactly
/// `MIN_LEDGER_DELAY` ledgers after the one it was staged in.
pub proof fn lemma_staged_delay_threshold(staged_at: u32, current_ledger: u32)
    ensures
        staged_delay_elapsed(staged_at, current_ledger) <==> current_ledger >= staged_at
            + MIN_LEDGER_DELAY,
{
}

/// Once the delay of a staged upgrade has elapsed it stays elapsed at every
/// later ledger, and no upgrade is executable in the ledger it was staged.
pub proof fn lemma_staged_delay_persists(staged_at: u32, current_ledger: u32, later_ledger: u32)
    requires
        current_ledger <= later_ledger,
    ensures
        staged_delay_elapsed(staged_at, current_ledger) ==> staged_delay_elapsed(
            staged_at,
            later_ledger,
        ),
        !staged_delay_elapsed(staged_at, staged_at),
{
}

} // verus!
