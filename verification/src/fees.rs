//! Per-corridor fee pools.
use vstd::prelude::*;

use crate::error::ContractError;

verus! {

/// Numeric asset identifier used as a compact storage key.
pub type AssetId = u32;

/// Fees collected for one currency corridor.
#[derive(Clone, Copy, Debug, PartialEq, Eq, Structural)]
pub struct CorridorFeePool {
    pub asset: AssetId,
    pub collected: u64,
    pub variable_pool: u64,
}

/// Storage keys of the fee module.
#[derive(Clone, Copy, Debug, PartialEq, Eq, Structural)]
pub enum FeesStorageKey {
    CorridorPool(AssetId),
}

/// `pool` with `collected` and `variable_fee` added to its totals, or
/// `ContractError::Overflow` when either total would leave the `u64` range.
pub open spec fn accrual(pool: CorridorFeePool, collected: u64, variable_fee: u64) -> Result<
    CorridorFeePool,
    ContractError,
> {
    if pool.collected + collected > u64::MAX || pool.variable_pool + variable_fee > u64::MAX {
        Err(ContractError::Overflow)
    } else {
        Ok(
            CorridorFeePool {
                asset: pool.asset,
                collected: (pool.collected + collected) as u64,
                variable_pool: (pool.variable_pool + variable_fee) as u64,
            },
        )
    }
}

impl CorridorFeePool {
    /// An empty pool for `asset`.
    pub fn new(asset: AssetId) -> (pool: Self)
        ensures
            pool == (CorridorFeePool { asset, collected: 0, variable_pool: 0 }),
    {
        Self { asset, collected: 0, variable_pool: 0 }
    }

    /// The pool with `collected` and `variable_fee` added to its totals.
    ///
    /// Returns `ContractError::Overflow`, and changes nothing, when either
    /// total would leave the `u64` range.
    pub fn accrue(&self, collected: u64, variable_fee: u64) -> (r: Result<Self, ContractError>)
        ensures
            r == accrual(*self, collected, variable_fee),
    {
        let new_collected = match self.collected.checked_add(collected) {
            Some(c) => c,
            None => return Err(ContractError::Overflow),
        };
        let new_variable = match self.variable_pool.checked_add(variable_fee) {
            Some(v) => v,
            None => return Err(ContractError::Overflow),
        };
        Ok(CorridorFeePool { asset: self.asset, collected: new_collected, variable_pool: new_variable })
    }
}


/// Accruing fees in two steps gives the pool that accruing their sums in
/// one step gives, whenever both steps succeed.
pub proof fn lemma_accrual_composes(
    pool: CorridorFeePool,
    c1: u64,
    v1: u64,
    c2: u64,
    v2: u64,
)
    ensures
        accrual(pool, c1, v1) matches Ok(mid) ==> (accrual(mid, c2, v2) matches Ok(end) ==> {
            &&& c1 + c2 <= u64::MAX
            &&& v1 + v2 <= u64::MAX
            &&& accrual(pool, (c1 + c2) as u64, (v1 + v2) as u64) == Ok::<
                CorridorFeePool,
                ContractError,
            >(end)
        }),
{
}

/// Accrual succeeds exactly when both new totals fit in a `u64`, and then
/// raises each total by exactly the amount accrued to it.
pub proof fn lemma_accrual_adds_exactly(pool: CorridorFeePool, collected: u64, variable_fee: u64)
    ensures
        (accrual(pool, collected, variable_fee) is Ok) <==> (pool.collected + collected
            <= u64::MAX && pool.variable_pool + variable_fee <= u64::MAX),
        accrual(pool, collected, variable_fee) matches Ok(next) ==> {
            &&& next.asset == pool.asset
            &&& next.collected - pool.collected == collected
            &&& next.variable_pool - pool.variable_pool == variable_fee
        },
{
}

/// Accrual keeps the pool's asset and never lowers its totals.
pub proof fn lemma_accrual_grows(pool: CorridorFeePool, collected: u64, variable_fee: u64)
    ensures
        accrual(pool, collected, variable_fee) matches Ok(next) ==> {
            &&& next.asset == pool.asset
            &&& next.collected >= pool.collected
            &&& next.variable_pool >= pool.variable_pool
        },
{
}

} // verus!
