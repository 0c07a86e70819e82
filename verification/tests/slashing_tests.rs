use corridor_oracle::slashing::{
    calculate_bond_deduction, get_penalty_multiplier, MAX_PENALTY_MULTIPLIER,
};

#[test]
fn first_outage_uses_base_multiplier() {
    assert_eq!(get_penalty_multiplier(1), 1);
    assert_eq!(calculate_bond_deduction(500, 1).unwrap(), 500);
}

#[test]
fn repeated_outages_scale_exponentially() {
    assert_eq!(get_penalty_multiplier(2), 2);
    assert_eq!(get_penalty_multiplier(3), 4);
    assert_eq!(get_penalty_multiplier(4), 8);
    assert_eq!(calculate_bond_deduction(100, 4).unwrap(), 800);
}

#[test]
fn multiplier_is_capped() {
    assert_eq!(get_penalty_multiplier(20), MAX_PENALTY_MULTIPLIER);
}

use corridor_oracle::error::ContractError;
use corridor_oracle::slashing::{
    count_faults_in_window, prune_fault_history, record_fault, settle_escrow_penalty,
    EscrowSettlement, TrackingFaultHistory,
};
use soroban_sdk::{Env, IntoVal, TryFromVal, Val, Vec};

fn sample_history(env: &Env, ledgers: &[u32]) -> TrackingFaultHistory {
    let mut fault_ledgers = Vec::new(env);
    for ledger in ledgers {
        fault_ledgers.push_back(*ledger);
    }
    TrackingFaultHistory { fault_ledgers }
}

#[test]
fn rolling_window_excludes_old_faults() {
    let env = Env::default();
    let history = sample_history(&env, &[50, 80, 150, 200]);
    assert_eq!(count_faults_in_window(&history, 200), 2);
    assert_eq!(count_faults_in_window(&history, 150), 3);
}

#[test]
fn prune_drops_faults_outside_window() {
    let env = Env::default();
    let mut history = sample_history(&env, &[10, 50, 120, 200]);
    prune_fault_history(&env, &mut history, 200);
    assert_eq!(history.fault_ledgers.len(), 2);
    assert_eq!(history.fault_ledgers.get(0).unwrap(), 120);
}

#[test]
fn window_near_genesis_starts_at_zero() {
    let env = Env::default();
    let history = sample_history(&env, &[0, 5, 60, 70]);
    // Faults recorded after the current ledger are outside the window.
    assert_eq!(count_faults_in_window(&history, 60), 3);
}

#[test]
fn prune_is_idempotent_and_keeps_count() {
    let env = Env::default();
    let mut history = sample_history(&env, &[10, 50, 120, 200, 250]);
    let before = count_faults_in_window(&history, 200);
    prune_fault_history(&env, &mut history, 200);
    assert_eq!(history.fault_ledgers.len(), before);
    prune_fault_history(&env, &mut history, 200);
    assert_eq!(history.fault_ledgers.len(), before);
    assert_eq!(count_faults_in_window(&history, 200), before);
}

#[test]
fn record_fault_counts_window_plus_new_fault() {
    let env = Env::default();
    let mut history = sample_history(&env, &[10]);
    // The old fault at ledger 10 is outside the window ending at 200.
    assert_eq!(record_fault(&env, &mut history, 200), 1);
    assert_eq!(history.fault_ledgers.len(), 1);
    assert_eq!(history.fault_ledgers.get(0).unwrap(), 200);
    assert_eq!(record_fault(&env, &mut history, 250), 2);
    assert_eq!(get_penalty_multiplier(2), 2);
}

#[test]
fn penalty_settlement_caps_at_stake() {
    let s = settle_escrow_penalty(100, 3, 250, 1_000, Some(300)).unwrap();
    assert_eq!(
        s,
        EscrowSettlement {
            penalty_multiplier: 4,
            bond_deduction: 250,
            remaining_stake: 0,
            total_staked: 750,
            feed_stake: Some(50),
        }
    );
}

#[test]
fn penalty_settlement_scales_with_repeat_outages() {
    let first = settle_escrow_penalty(100, 1, 10_000, 10_000, None).unwrap();
    assert_eq!(first.bond_deduction, 100);
    assert_eq!(first.penalty_multiplier, 1);
    let second = settle_escrow_penalty(100, 2, first.remaining_stake, first.total_staked, None).unwrap();
    assert_eq!(second.bond_deduction, 200);
    assert_eq!(second.penalty_multiplier, 2);
    let third = settle_escrow_penalty(100, 3, second.remaining_stake, second.total_staked, None).unwrap();
    assert_eq!(third.bond_deduction, 400);
    assert_eq!(third.penalty_multiplier, 4);
    assert_eq!(third.remaining_stake, 10_000 - 700);
}

#[test]
fn penalty_settlement_floors_registries() {
    let s = settle_escrow_penalty(500, 1, 400, 100, Some(10)).unwrap();
    assert_eq!(s.bond_deduction, 400);
    assert_eq!(s.total_staked, 0);
    assert_eq!(s.feed_stake, Some(0));
}

#[test]
fn penalty_settlement_errors() {
    assert_eq!(
        settle_escrow_penalty(0, 1, 100, 100, None),
        Err(ContractError::InvalidStakeAmount)
    );
    assert_eq!(
        settle_escrow_penalty(u64::MAX, 2, 100, 100, None),
        Err(ContractError::Overflow)
    );
    assert_eq!(
        settle_escrow_penalty(100, 1, 0, 100, None),
        Err(ContractError::InsufficientBondForPenalty)
    );
}

#[test]
fn bond_deduction_errors() {
    assert_eq!(calculate_bond_deduction(0, 3), Err(ContractError::InvalidStakeAmount));
    assert_eq!(calculate_bond_deduction(u64::MAX, 2), Err(ContractError::Overflow));
    assert_eq!(calculate_bond_deduction(u64::MAX, 1), Ok(u64::MAX));
}

#[test]
fn multiplier_edges() {
    assert_eq!(get_penalty_multiplier(0), 1);
    assert_eq!(get_penalty_multiplier(10), 512);
    assert_eq!(get_penalty_multiplier(11), 1024);
    assert_eq!(get_penalty_multiplier(12), 1024);
    assert_eq!(get_penalty_multiplier(u32::MAX), 1024);
}

#[test]
fn history_with_entries_of_another_type_is_not_well_formed() {
    let env = Env::default();
    let good = sample_history(&env, &[10, 20]);
    assert!(good.is_well_formed());
    let mut raw = Vec::<i128>::new(&env);
    raw.push_back(-5);
    let val: Val = raw.into_val(&env);
    let bad = TrackingFaultHistory {
        fault_ledgers: Vec::<u32>::try_from_val(&env, &val).unwrap(),
    };
    assert!(!bad.is_well_formed());
}

#[test]
fn count_then_record_reports_one_more() {
    let env = Env::default();
    let mut history = sample_history(&env, &[50, 120, 180]);
    let before = count_faults_in_window(&history, 200);
    assert_eq!(before, 2);
    assert_eq!(record_fault(&env, &mut history, 200), before + 1);
}
