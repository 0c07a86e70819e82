//! Multi-tier escrow penalties for repetitive ingestion drops.
//!
//! Occasional connectivity blips incur a base bond deduction, while repeated
//! outages inside a rolling window of ledgers scale deductions exponentially
//! to discourage persistent feed negligence.
use vstd::prelude::*;
use vstd::arithmetic::power2::{pow2, lemma2_to64, lemma_pow2_strictly_increases};
use vstd::bits::lemma_u64_shl_is_mul;

use crate::error::ContractError;
use crate::host::{
    all_present, held_u32s, u32s_len, u32s_new, u32s_push, u32s_try_get, unwrapped,
};

verus! {

/// Rolling ledger window for tracking repeated ingestion dropouts.
pub const ROLLING_FAULT_WINDOW_LEDGERS: u32 = 100;

/// Maximum exponential multiplier (2^10) to prevent unbounded bond seizure.
pub const MAX_PENALTY_MULTIPLIER: u64 = 1_024;

/// Largest exponent of the penalty multiplier.
pub const MAX_PENALTY_EXPONENT: u32 = 10;

/// The penalty multiplier for `fault_count` faults: `2^(fault_count - 1)`,
/// at least 1 and at most `MAX_PENALTY_MULTIPLIER`.
pub open spec fn penalty_multiplier(fault_count: u32) -> nat {
    if fault_count == 0 {
        1
    } else if fault_count - 1 >= MAX_PENALTY_EXPONENT {
        pow2(MAX_PENALTY_EXPONENT as nat)
    } else {
        pow2((fault_count - 1) as nat)
    }
}

/// Exponential multiplier: 2^(fault_count - 1), minimum 1, capped at 1024.
pub fn get_penalty_multiplier(fault_count: u32) -> (m: u64)
    ensures
        m == penalty_multiplier(fault_count),
        1 <= m <= MAX_PENALTY_MULTIPLIER,
{
    proof {
        lemma2_to64();
    }
    if fault_count == 0 {
        return 1;
    }
    let shift: u32 = if fault_count - 1 < MAX_PENALTY_EXPONENT {
        fault_count - 1
    } else {
        MAX_PENALTY_EXPONENT
    };
    proof {
        lemma_u64_shl_is_mul(1, shift as u64);
        if shift < 10 {
            lemma_pow2_strictly_increases(shift as nat, 10);
        }
    }
    let multiplier: u64 = 1u64 << shift;
    if multiplier < MAX_PENALTY_MULTIPLIER {
        multiplier
    } else {
        MAX_PENALTY_MULTIPLIER
    }
}

/// Compute the structural bond deduction for a fault count and base bond
/// amount: `base_bond` times the penalty multiplier.
///
/// Returns `ContractError::InvalidStakeAmount` for a zero bond and
/// `ContractError::Overflow` when the product leaves the `u64` range.
pub fn calculate_bond_deduction(base_bond: u64, fault_count: u32) -> (r: Result<u64, ContractError>)
    ensures
        base_bond == 0 ==> r == Err::<u64, ContractError>(ContractError::InvalidStakeAmount),
        base_bond != 0 && base_bond * penalty_multiplier(fault_count) > u64::MAX ==> r == Err::<
            u64,
            ContractError,
        >(ContractError::Overflow),
        base_bond != 0 && base_bond * penalty_multiplier(fault_count) <= u64::MAX ==> r == Ok::<
            u64,
            ContractError,
        >((base_bond * penalty_multiplier(fault_count)) as u64),
{
    if base_bond == 0 {
        return Err(ContractError::InvalidStakeAmount);
    }
    let multiplier = get_penalty_multiplier(fault_count);
    match base_bond.checked_mul(multiplier) {
        Some(d) => Ok(d),
        None => Err(ContractError::Overflow),
    }
}


/// Ledger sequences at which ingestion dropouts of one validator on one
/// asset feed were recorded, oldest first.
#[derive(Clone, Debug, PartialEq)]
pub struct TrackingFaultHistory {
    pub fault_ledgers: soroban_sdk::Vec<u32>,
}

/// The first ledger of the rolling window that ends at `current_ledger`.
pub open spec fn fault_window_start(current_ledger: u32) -> int {
    if current_ledger >= ROLLING_FAULT_WINDOW_LEDGERS {
        current_ledger - ROLLING_FAULT_WINDOW_LEDGERS
    } else {
        0
    }
}

/// Whether a fault at `ledger` lies in the rolling window ending at
/// `current_ledger`, both ends included.
pub open spec fn in_fault_window(ledger: u32, current_ledger: u32) -> bool {
    fault_window_start(current_ledger) <= ledger <= current_ledger
}

/// The faults of `ledgers` inside the rolling window, in their order.
pub open spec fn window_faults(ledgers: Seq<u32>, current_ledger: u32) -> Seq<u32>
    decreases ledgers.len(),
{
    if ledgers.len() == 0 {
        Seq::empty()
    } else {
        let kept = window_faults(ledgers.drop_last(), current_ledger);
        if in_fault_window(ledgers.last(), current_ledger) {
            kept.push(ledgers.last())
        } else {
            kept
        }
    }
}

/// The recorded faults of `history`.
pub open spec fn recorded_faults(history: TrackingFaultHistory) -> Seq<u32> {
    unwrapped(held_u32s(history.fault_ledgers))
}

/// Every stored entry of `history` is a ledger number.
pub open spec fn history_well_formed(history: TrackingFaultHistory) -> bool {
    all_present(held_u32s(history.fault_ledgers))
}

impl TrackingFaultHistory {
    /// Whether every stored entry is a ledger number. A history read from
    /// storage may hold entries of another type; the SDK's `get` panics on
    /// those.
    pub fn is_well_formed(&self) -> (ok: bool)
        ensures
            ok == history_well_formed(*self),
    {
        let len = u32s_len(&self.fault_ledgers);
        let mut i: u32 = 0;
        while i < len
            invariant
                len == held_u32s(self.fault_ledgers).len(),
                i <= len,
                forall|k: int| 0 <= k < i ==> #[trigger] held_u32s(self.fault_ledgers)[k] is Some,
            decreases len - i,
        {
            if u32s_try_get(&self.fault_ledgers, i).is_err() {
                return false;
            }
            i += 1;
        }
        true
    }
}

proof fn lemma_window_faults_step(ledgers: Seq<u32>, i: int, current_ledger: u32)
    requires
        0 <= i < ledgers.len(),
    ensures
        window_faults(ledgers.take(i + 1), current_ledger) == (if in_fault_window(
            ledgers[i],
            current_ledger,
        ) {
            window_faults(ledgers.take(i), current_ledger).push(ledgers[i])
        } else {
            window_faults(ledgers.take(i), current_ledger)
        }),
{
    assert(ledgers.take(i + 1).drop_last() =~= ledgers.take(i));
    assert(ledgers.take(i + 1).last() == ledgers[i]);
}

/// The rolling window ending at `current_ledger` holds exactly the ledgers
/// that are not after it and at most `ROLLING_FAULT_WINDOW_LEDGERS` before
/// it.
pub proof fn lemma_fault_window_span(ledger: u32, current_ledger: u32)
    ensures
        in_fault_window(ledger, current_ledger) <==> (ledger <= current_ledger && current_ledger
            - ledger <= ROLLING_FAULT_WINDOW_LEDGERS),
{
}

/// The faults kept in the window are exactly those of `ledgers`, in their
/// order, that are not after `current_ledger` and at most
/// `ROLLING_FAULT_WINDOW_LEDGERS` before it.
pub proof fn lemma_window_faults_are_recent(ledgers: Seq<u32>, current_ledger: u32)
    ensures
        window_faults(ledgers, current_ledger) == ledgers.filter(
            |l: u32| l <= current_ledger && current_ledger - l <= ROLLING_FAULT_WINDOW_LEDGERS,
        ),
    decreases ledgers.len(),
{
    reveal(Seq::filter);
    let recent = |l: u32| l <= current_ledger && current_ledger - l <= ROLLING_FAULT_WINDOW_LEDGERS;
    if ledgers.len() > 0 {
        lemma_window_faults_are_recent(ledgers.drop_last(), current_ledger);
        lemma_fault_window_span(ledgers.last(), current_ledger);
        assert(ledgers.filter(recent) == (if recent(ledgers.last()) {
            ledgers.drop_last().filter(recent).push(ledgers.last())
        } else {
            ledgers.drop_last().filter(recent)
        }));
    } else {
        assert(window_faults(ledgers, current_ledger) =~= ledgers);
    }
}

/// Keeping the faults inside the window never adds any.
pub proof fn lemma_window_faults_len(ledgers: Seq<u32>, current_ledger: u32)
    ensures
        window_faults(ledgers, current_ledger).len() <= ledgers.len(),
    decreases ledgers.len(),
{
    if ledgers.len() > 0 {
        lemma_window_faults_len(ledgers.drop_last(), current_ledger);
    }
}

/// Count faults whose ledger sequence falls within the rolling window.
pub fn count_faults_in_window(history: &TrackingFaultHistory, current_ledger: u32) -> (count: u32)
    requires
        history_well_formed(*history),
    ensures
        count == window_faults(recorded_faults(*history), current_ledger).len(),
{
    let ghost held = recorded_faults(*history);
    let window_start = current_ledger.saturating_sub(ROLLING_FAULT_WINDOW_LEDGERS);
    let mut count: u32 = 0;
    let len = u32s_len(&history.fault_ledgers);
    let mut i: u32 = 0;
    assert(held.take(0) =~= Seq::<u32>::empty());
    while i < len
        invariant
            len == held.len(),
            held == recorded_faults(*history),
            history_well_formed(*history),
            window_start == fault_window_start(current_ledger),
            i <= len,
            count == window_faults(held.take(i as int), current_ledger).len(),
        decreases len - i,
    {
        proof {
            lemma_window_faults_step(held, i as int, current_ledger);
            lemma_window_faults_len(held.take(i + 1), current_ledger);
        }
        let ledger = u32s_try_get(&history.fault_ledgers, i).unwrap().unwrap_or(0);
        if ledger >= window_start && ledger <= current_ledger {
            count = count.saturating_add(1);
        }
        i += 1;
    }
    assert(held.take(len as int) =~= held);
    count
}

/// Drop fault entries that fell outside the rolling ledger window.
pub fn prune_fault_history(
    env: &soroban_sdk::Env,
    history: &mut TrackingFaultHistory,
    current_ledger: u32,
)
    requires
        history_well_formed(*old(history)),
    ensures
        history_well_formed(*final(history)),
        recorded_faults(*final(history)) == window_faults(
            recorded_faults(*old(history)),
            current_ledger,
        ),
{
    let ghost held = recorded_faults(*history);
    let window_start = current_ledger.saturating_sub(ROLLING_FAULT_WINDOW_LEDGERS);
    let mut retained = u32s_new(env);
    let len = u32s_len(&history.fault_ledgers);
    let mut i: u32 = 0;
    assert(held.take(0) =~= Seq::<u32>::empty());
    while i < len
        invariant
            len == held.len(),
            held == recorded_faults(*history),
            history_well_formed(*history),
            window_start == fault_window_start(current_ledger),
            i <= len,
            held_u32s(retained).len() == window_faults(held.take(i as int), current_ledger).len(),
            all_present(held_u32s(retained)),
            unwrapped(held_u32s(retained)) == window_faults(held.take(i as int), current_ledger),
        decreases len - i,
    {
        proof {
            lemma_window_faults_step(held, i as int, current_ledger);
            lemma_window_faults_len(held.take(i as int), current_ledger);
        }
        let ledger = u32s_try_get(&history.fault_ledgers, i).unwrap().unwrap_or(0);
        if ledger >= window_start && ledger <= current_ledger {
            u32s_push(&mut retained, ledger);
            assert(unwrapped(held_u32s(retained)) =~= window_faults(
                held.take(i + 1),
                current_ledger,
            ));
        }
        i += 1;
    }
    assert(held.take(len as int) =~= held);
    history.fault_ledgers = retained;
}


/// Every kept fault lies inside the window.
pub proof fn lemma_window_faults_inside(ledgers: Seq<u32>, current_ledger: u32)
    ensures
        forall|k: int|
            0 <= k < window_faults(ledgers, current_ledger).len() ==> in_fault_window(
                #[trigger] window_faults(ledgers, current_ledger)[k],
                current_ledger,
            ),
    decreases ledgers.len(),
{
    if ledgers.len() > 0 {
        let kept = window_faults(ledgers.drop_last(), current_ledger);
        lemma_window_faults_inside(ledgers.drop_last(), current_ledger);
        assert forall|k: int| 0 <= k < window_faults(ledgers, current_ledger).len() implies in_fault_window(
            #[trigger] window_faults(ledgers, current_ledger)[k],
            current_ledger,
        ) by {
            if k < kept.len() {
                assert(window_faults(ledgers, current_ledger)[k] == kept[k]);
            }
        }
    }
}

/// A sequence whose faults all lie inside the window is kept whole.
pub proof fn lemma_window_faults_keeps_inside(ledgers: Seq<u32>, current_ledger: u32)
    requires
        forall|k: int| 0 <= k < ledgers.len() ==> in_fault_window(#[trigger] ledgers[k], current_ledger),
    ensures
        window_faults(ledgers, current_ledger) == ledgers,
    decreases ledgers.len(),
{
    if ledgers.len() > 0 {
        let rest = ledgers.drop_last();
        assert forall|k: int| 0 <= k < rest.len() implies in_fault_window(
            #[trigger] rest[k],
            current_ledger,
        ) by {
            assert(rest[k] == ledgers[k]);
        }
        lemma_window_faults_keeps_inside(rest, current_ledger);
        assert(in_fault_window(ledgers[ledgers.len() - 1], current_ledger));
        assert(rest.push(ledgers.last()) =~= ledgers);
    }
}

/// Pruning is idempotent: pruning an already pruned history at the same
/// ledger changes nothing, so it leaves the windowed fault count unchanged.
pub proof fn lemma_prune_idempotent(ledgers: Seq<u32>, current_ledger: u32)
    ensures
        window_faults(window_faults(ledgers, current_ledger), current_ledger) == window_faults(
            ledgers,
            current_ledger,
        ),
{
    lemma_window_faults_inside(ledgers, current_ledger);
    lemma_window_faults_keeps_inside(window_faults(ledgers, current_ledger), current_ledger);
}

/// Reading the windowed count after pruning a copy of the history gives the
/// count of the history as stored, and recording a fault at the same ledger
/// then reports one more.
pub proof fn lemma_record_after_count(ledgers: Seq<u32>, current_ledger: u32)
    ensures
        window_faults(window_faults(ledgers, current_ledger), current_ledger).len()
            == window_faults(ledgers, current_ledger).len(),
        window_faults(window_faults(ledgers, current_ledger).push(current_ledger), current_ledger).len()
            == window_faults(ledgers, current_ledger).len() + 1,
{
    lemma_prune_idempotent(ledgers, current_ledger);
    let kept = window_faults(ledgers, current_ledger);
    lemma_window_faults_inside(ledgers, current_ledger);
    assert forall|k: int| 0 <= k < kept.push(current_ledger).len() implies in_fault_window(
        #[trigger] kept.push(current_ledger)[k],
        current_ledger,
    ) by {
        if k < kept.len() {
            assert(kept.push(current_ledger)[k] == kept[k]);
        }
    }
    lemma_window_faults_keeps_inside(kept.push(current_ledger), current_ledger);
}

/// Record an ingestion dropout at `current_ledger` in `history`: faults
/// outside the rolling window are dropped, the new fault is appended, and
/// the number of faults now inside the window is returned.
pub fn record_fault(
    env: &soroban_sdk::Env,
    history: &mut TrackingFaultHistory,
    current_ledger: u32,
) -> (count: u32)
    requires
        history_well_formed(*old(history)),
        window_faults(recorded_faults(*old(history)), current_ledger).len() < u32::MAX,
    ensures
        history_well_formed(*final(history)),
        recorded_faults(*final(history)) == window_faults(
            recorded_faults(*old(history)),
            current_ledger,
        ).push(current_ledger),
        count == window_faults(recorded_faults(*old(history)), current_ledger).len() + 1,
{
    prune_fault_history(env, history, current_ledger);
    u32s_push(&mut history.fault_ledgers, current_ledger);
    proof {
        assert(recorded_faults(*history) =~= window_faults(
            recorded_faults(*old(history)),
            current_ledger,
        ).push(current_ledger));
        let kept = window_faults(recorded_faults(*old(history)), current_ledger);
        lemma_window_faults_inside(recorded_faults(*old(history)), current_ledger);
        assert forall|k: int| 0 <= k < kept.push(current_ledger).len() implies in_fault_window(
            #[trigger] kept.push(current_ledger)[k],
            current_ledger,
        ) by {
            if k < kept.len() {
                assert(kept.push(current_ledger)[k] == kept[k]);
            }
        }
        lemma_window_faults_keeps_inside(kept.push(current_ledger), current_ledger);
    }
    count_faults_in_window(history, current_ledger)
}

/// How a penalty settles against a validator's stake registries.
#[derive(Clone, Copy, Debug, PartialEq, Eq, Structural)]
pub struct EscrowSettlement {
    /// The exponential multiplier applied to the base bond.
    pub penalty_multiplier: u64,
    /// The bond actually deducted: the scaled bond, capped at the stake.
    pub bond_deduction: u64,
    /// The validator's stake left after the deduction.
    pub remaining_stake: u64,
    /// The total of all stakes after the deduction, floored at zero.
    pub total_staked: u64,
    /// The validator's stake on the feed after the deduction, floored at
    /// zero, where it had one.
    pub feed_stake: Option<u64>,
}

/// `a - b`, floored at zero.
pub open spec fn floor_sub(a: u64, b: u64) -> u64 {
    if a >= b {
        (a - b) as u64
    } else {
        0
    }
}

/// The scaled bond for `base_bond` and `fault_count`.
pub open spec fn scaled_bond(base_bond: u64, fault_count: u32) -> int {
    base_bond * penalty_multiplier(fault_count)
}

/// The settlement of a penalty of `base_bond` scaled for `fault_count`
/// faults against a validator holding `node_stake`, out of `total_staked`,
/// with `feed_stake` on the asset feed: the scaled bond is deducted, capped
/// at the validator's stake, from each registry, none of which goes below
/// zero.
pub open spec fn escrow_settlement(
    base_bond: u64,
    fault_count: u32,
    node_stake: u64,
    total_staked: u64,
    feed_stake: Option<u64>,
) -> Result<EscrowSettlement, ContractError> {
    let scaled = scaled_bond(base_bond, fault_count);
    if base_bond == 0 {
        Err(ContractError::InvalidStakeAmount)
    } else if scaled > u64::MAX {
        Err(ContractError::Overflow)
    } else if node_stake == 0 {
        Err(ContractError::InsufficientBondForPenalty)
    } else {
        let deduction = if scaled <= node_stake {
            scaled as u64
        } else {
            node_stake
        };
        Ok(
            EscrowSettlement {
                penalty_multiplier: penalty_multiplier(fault_count) as u64,
                bond_deduction: deduction,
                remaining_stake: (node_stake - deduction) as u64,
                total_staked: floor_sub(total_staked, deduction),
                feed_stake: match feed_stake {
                    Some(f) => Some(floor_sub(f, deduction)),
                    None => None,
                },
            },
        )
    }
}

/// Deduct the exponentially scaled bond from a validator whose stake is
/// `node_stake`, out of `total_staked` over all validators, and whose stake
/// on the asset feed is `feed_stake`.
///
/// Returns `ContractError::InvalidStakeAmount` for a zero base bond,
/// `ContractError::Overflow` when the scaled bond leaves the `u64` range and
/// `ContractError::InsufficientBondForPenalty` when the validator holds no
/// stake.
pub fn settle_escrow_penalty(
    base_bond: u64,
    fault_count: u32,
    node_stake: u64,
    total_staked: u64,
    feed_stake: Option<u64>,
) -> (r: Result<EscrowSettlement, ContractError>)
    ensures
        r == escrow_settlement(base_bond, fault_count, node_stake, total_staked, feed_stake),
{
    let bond_deduction = calculate_bond_deduction(base_bond, fault_count)?;
    let penalty_multiplier = get_penalty_multiplier(fault_count);
    if node_stake == 0 {
        return Err(ContractError::InsufficientBondForPenalty);
    }
    let actual_deduction = if bond_deduction < node_stake {
        bond_deduction
    } else {
        node_stake
    };
    let remaining_stake = node_stake - actual_deduction;
    let new_total = total_staked.saturating_sub(actual_deduction);
    let feed_remaining = match feed_stake {
        Some(f) => Some(f.saturating_sub(actual_deduction)),
        None => None,
    };
    Ok(EscrowSettlement {
        penalty_multiplier,
        bond_deduction: actual_deduction,
        remaining_stake,
        total_staked: new_total,
        feed_stake: feed_remaining,
    })
}


/// A penalty never takes more than the validator's stake: the deduction and
/// what remains add up to the stake, and no registry grows.
pub proof fn lemma_settlement_conserves_stake(
    base_bond: u64,
    fault_count: u32,
    node_stake: u64,
    total_staked: u64,
    feed_stake: Option<u64>,
)
    ensures
        escrow_settlement(base_bond, fault_count, node_stake, total_staked, feed_stake) matches Ok(
            o,
        ) ==> {
            &&& o.bond_deduction <= node_stake
            &&& o.remaining_stake + o.bond_deduction == node_stake
            &&& o.total_staked <= total_staked
            &&& (feed_stake matches Some(f) ==> o.feed_stake matches Some(g) && g <= f)
            &&& o.bond_deduction <= scaled_bond(base_bond, fault_count)
        },
{
}

/// A settlement deducts the scaled bond, capped at the validator's stake,
/// from every registry: the total and the feed stake drop by exactly the
/// deducted bond, or to zero where they held less. It succeeds exactly for a
/// nonzero base bond whose scaled bond fits in a `u64`, against a validator
/// that holds stake.
pub proof fn lemma_settlement_deducts_exactly(
    base_bond: u64,
    fault_count: u32,
    node_stake: u64,
    total_staked: u64,
    feed_stake: Option<u64>,
)
    ensures
        (escrow_settlement(base_bond, fault_count, node_stake, total_staked, feed_stake) is Ok)
            <==> (base_bond != 0 && scaled_bond(base_bond, fault_count) <= u64::MAX && node_stake
            != 0),
        escrow_settlement(base_bond, fault_count, node_stake, total_staked, feed_stake) matches Ok(
            o,
        ) ==> {
            &&& o.penalty_multiplier == penalty_multiplier(fault_count)
            &&& (scaled_bond(base_bond, fault_count) <= node_stake ==> o.bond_deduction
                == scaled_bond(base_bond, fault_count))
            &&& (scaled_bond(base_bond, fault_count) > node_stake ==> o.bond_deduction
                == node_stake)
            &&& o.remaining_stake == node_stake - o.bond_deduction
            &&& (total_staked >= o.bond_deduction ==> o.total_staked + o.bond_deduction
                == total_staked)
            &&& (total_staked < o.bond_deduction ==> o.total_staked == 0)
            &&& (feed_stake is None ==> o.feed_stake is None)
            &&& (feed_stake matches Some(f) ==> o.feed_stake matches Some(g) && (f
                >= o.bond_deduction ==> g + o.bond_deduction == f) && (f < o.bond_deduction ==> g
                == 0))
        },
{
    lemma_multiplier_monotone(fault_count, fault_count);
}

/// The multiplier starts at 1 for no fault and for the first fault, and is
/// `MAX_PENALTY_MULTIPLIER` from fault `MAX_PENALTY_EXPONENT + 1` on.
pub proof fn lemma_multiplier_ends(fault_count: u32)
    ensures
        penalty_multiplier(0) == 1,
        penalty_multiplier(1) == 1,
        fault_count > MAX_PENALTY_EXPONENT ==> penalty_multiplier(fault_count)
            == MAX_PENALTY_MULTIPLIER,
{
    lemma2_to64();
}

/// Each repeated outage doubles the multiplier until it reaches its cap.
pub proof fn lemma_multiplier_doubles(fault_count: u32)
    requires
        1 <= fault_count <= MAX_PENALTY_EXPONENT,
    ensures
        penalty_multiplier((fault_count + 1) as u32) == 2 * penalty_multiplier(fault_count),
{
    vstd::arithmetic::power2::lemma_pow2_unfold(fault_count as nat);
}

/// More faults never lower the multiplier, and it never exceeds the cap.
pub proof fn lemma_multiplier_monotone(a: u32, b: u32)
    requires
        a <= b,
    ensures
        penalty_multiplier(a) <= penalty_multiplier(b) <= MAX_PENALTY_MULTIPLIER,
{
    lemma2_to64();
    if a > 0 && a - 1 < MAX_PENALTY_EXPONENT {
        if b - 1 < MAX_PENALTY_EXPONENT {
            if a < b {
                lemma_pow2_strictly_increases((a - 1) as nat, (b - 1) as nat);
            }
        } else {
            lemma_pow2_strictly_increases((a - 1) as nat, MAX_PENALTY_EXPONENT as nat);
        }
    }
    if b > 0 && b - 1 < MAX_PENALTY_EXPONENT {
        lemma_pow2_strictly_increases((b - 1) as nat, MAX_PENALTY_EXPONENT as nat);
    }
}

} // verus!
