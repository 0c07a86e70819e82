use corridor_oracle::auth::{
    multisig_verdict, select_confirmations, state_has_flag, with_validator_flag, ACTIVE, JAILED,
    ONLINE, SUSPENDED,
};
use corridor_oracle::auth::first_occurrences;
use corridor_oracle::error::ContractError;
use soroban_sdk::testutils::Address as _;
use soroban_sdk::{Address, Env, IntoVal, TryFromVal, Val, Vec as HostVec};

#[test]
fn flags_read_back() {
    let s = with_validator_flag(0, ACTIVE, true);
    assert!(state_has_flag(s, ACTIVE));
    assert!(!state_has_flag(s, ONLINE));
    let s = with_validator_flag(s, ONLINE, true);
    assert_eq!(s, ACTIVE | ONLINE);
    let s = with_validator_flag(s, ACTIVE, false);
    assert_eq!(s, ONLINE);
    assert!(!state_has_flag(s, ACTIVE));
}

#[test]
fn flags_leave_other_bits() {
    let s = SUSPENDED | JAILED | ACTIVE;
    assert_eq!(with_validator_flag(s, ONLINE, true), s | ONLINE);
    assert_eq!(with_validator_flag(s, ONLINE, false), s);
}

#[test]
fn confirmations_skip_repeats_unauthorized_and_inactive() {
    let first = vec![true, false, true, true, true];
    let authorized = vec![true, true, false, true, true];
    let states = vec![ACTIVE, ACTIVE, ACTIVE, SUSPENDED, ACTIVE | ONLINE];
    assert_eq!(select_confirmations(&first, &authorized, &states), vec![0, 4]);
}

#[test]
fn four_of_five_signers_approve() {
    let first = vec![true; 5];
    let authorized = vec![true; 5];
    let states = vec![ACTIVE; 5];
    let chosen = select_confirmations(&first, &authorized, &states);
    // The walk stops once four signers have confirmed.
    assert_eq!(chosen, vec![0, 1, 2, 3]);
    assert_eq!(multisig_verdict(chosen.len() as u32), Ok(()));
}

#[test]
fn three_valid_signers_are_refused() {
    let first = vec![true, true, false, true, true];
    let authorized = vec![true, true, true, false, true];
    let states = vec![ACTIVE; 5];
    let chosen = select_confirmations(&first, &authorized, &states);
    assert_eq!(chosen, vec![0, 1, 4]);
    assert_eq!(
        multisig_verdict(chosen.len() as u32),
        Err(ContractError::ThresholdNotReached)
    );
}

#[test]
fn repeated_signer_counts_once() {
    // The same address four times: only its first occurrence may confirm.
    let first = vec![true, false, false, false];
    let authorized = vec![true; 4];
    let states = vec![ACTIVE; 4];
    let chosen = select_confirmations(&first, &authorized, &states);
    assert_eq!(chosen, vec![0]);
    assert_eq!(
        multisig_verdict(chosen.len() as u32),
        Err(ContractError::ThresholdNotReached)
    );
}

#[test]
fn verdict_threshold() {
    assert_eq!(multisig_verdict(3), Err(ContractError::ThresholdNotReached));
    assert_eq!(multisig_verdict(4), Ok(()));
    assert_eq!(multisig_verdict(5), Ok(()));
}

#[test]
fn first_occurrences_flag_repeated_addresses() {
    let env = Env::default();
    let a = Address::generate(&env);
    let b = Address::generate(&env);
    let mut signers = HostVec::<Address>::new(&env);
    signers.push_back(a.clone());
    signers.push_back(b.clone());
    signers.push_back(a.clone());
    signers.push_back(b);
    signers.push_back(a);
    assert_eq!(
        first_occurrences(&signers),
        Some(vec![true, true, false, false, false])
    );
}

#[test]
fn first_occurrences_reject_non_addresses() {
    let env = Env::default();
    let mut raw = HostVec::<u32>::new(&env);
    raw.push_back(3);
    let val: Val = raw.into_val(&env);
    let signers = HostVec::<Address>::try_from_val(&env, &val).unwrap();
    assert_eq!(first_occurrences(&signers), None);
}
