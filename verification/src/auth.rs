//! Validator state flags and the multi-signature confirmation barrier for
//! parameter shift actions.
//!
//! A validator's state is a bit mask; the barrier walks the signers of a
//! request in order, confirms each distinct signer that is authorized and
//! active, and approves the request only with enough confirmations.
use vstd::prelude::*;

use crate::error::ContractError;
use crate::host::{
    addresses_equal, addresses_len, addresses_try_get, all_present, held_addresses, same_address,
    unwrapped,
};

verus! {

/// The validator is online.
pub const ONLINE: u32 = 1;

/// The validator is active.
pub const ACTIVE: u32 = 2;

/// The validator is suspended.
pub const SUSPENDED: u32 = 4;

/// The validator is jailed.
pub const JAILED: u32 = 8;

/// Confirmations a request needs: a supermajority of 4 out of 5. The barrier
/// stops walking the signers once it has this many.
pub const REQUIRED_CONFIRMATIONS: u32 = 4;

/// `state` with `flag` set when `value` holds, cleared otherwise.
pub open spec fn flag_applied(state: u32, flag: u32, value: bool) -> u32 {
    if value {
        state | flag
    } else {
        state & !flag
    }
}

/// The state of a validator after setting (`value`) or clearing `flag`.
pub fn with_validator_flag(state: u32, flag: u32, value: bool) -> (updated: u32)
    ensures
        updated == flag_applied(state, flag, value),
{
    if value {
        state | flag
    } else {
        state & !flag
    }
}

/// Whether `state` has any bit of `flag` set.
pub fn state_has_flag(state: u32, flag: u32) -> (has: bool)
    ensures
        has == (state & flag != 0),
{
    state & flag != 0
}

/// A flag reads back as it was last set or cleared.
pub proof fn lemma_flag_reads_back(state: u32, flag: u32, value: bool)
    requires
        flag != 0,
    ensures
        (flag_applied(state, flag, value) & flag != 0) == value,
{
    if value {
        assert((state | flag) & flag == flag) by (bit_vector);
    } else {
        assert((state & !flag) & flag == 0) by (bit_vector);
    }
}

/// Setting or clearing a flag leaves every bit outside it unchanged.
pub proof fn lemma_flag_keeps_other_bits(state: u32, flag: u32, value: bool, other: u32)
    requires
        flag & other == 0,
    ensures
        flag_applied(state, flag, value) & other == state & other,
{
    if value {
        assert((state | flag) & other == state & other) by (bit_vector)
            requires
                flag & other == 0,
        ;
    } else {
        assert((state & !flag) & other == state & other) by (bit_vector)
            requires
                flag & other == 0,
        ;
    }
}

/// Whether the signer at position `i` may confirm: it is the first
/// occurrence of its address, it is an authorized signer and it is active.
pub open spec fn may_confirm(first: Seq<bool>, authorized: Seq<bool>, states: Seq<u32>, i: int) -> bool {
    first[i] && authorized[i] && states[i] & ACTIVE != 0
}

/// The positions before `k` whose signer may confirm, in order.
pub open spec fn eligible_positions(
    first: Seq<bool>,
    authorized: Seq<bool>,
    states: Seq<u32>,
    k: int,
) -> Seq<usize>
    decreases k,
{
    if k <= 0 {
        Seq::empty()
    } else {
        let earlier = eligible_positions(first, authorized, states, k - 1);
        if may_confirm(first, authorized, states, k - 1) {
            earlier.push((k - 1) as usize)
        } else {
            earlier
        }
    }
}

/// The positions the barrier confirms: the eligible ones, in order, up to
/// `REQUIRED_CONFIRMATIONS` of them.
pub open spec fn confirmed_positions(first: Seq<bool>, authorized: Seq<bool>, states: Seq<u32>) -> Seq<
    usize,
> {
    let all = eligible_positions(first, authorized, states, first.len() as int);
    if all.len() > REQUIRED_CONFIRMATIONS {
        all.take(REQUIRED_CONFIRMATIONS as int)
    } else {
        all
    }
}

/// The eligible positions before `j` extend those before `i`, for `i <= j`.
pub proof fn lemma_eligible_prefix(
    first: Seq<bool>,
    authorized: Seq<bool>,
    states: Seq<u32>,
    i: int,
    j: int,
)
    requires
        0 <= i <= j,
    ensures
        eligible_positions(first, authorized, states, i).len() <= eligible_positions(
            first,
            authorized,
            states,
            j,
        ).len(),
        eligible_positions(first, authorized, states, i) == eligible_positions(
            first,
            authorized,
            states,
            j,
        ).take(eligible_positions(first, authorized, states, i).len() as int),
    decreases j - i,
{
    if i < j {
        lemma_eligible_prefix(first, authorized, states, i, j - 1);
        let e = eligible_positions(first, authorized, states, j - 1);
        let p = eligible_positions(first, authorized, states, i);
        if may_confirm(first, authorized, states, j - 1) {
            assert(e.push((j - 1) as usize).take(p.len() as int) =~= e.take(p.len() as int));
        }
    } else {
        let p = eligible_positions(first, authorized, states, i);
        assert(p.take(p.len() as int) =~= p);
    }
}

/// Choose the signers that confirm a request.
///
/// `first[i]` tells whether the signer at position `i` is the first
/// occurrence of its address in the request, `authorized[i]` whether it is a
/// registered signer or the administrator, and `states[i]` its state mask.
/// The positions are walked in order; each one that may confirm is
/// confirmed, and the walk stops once `REQUIRED_CONFIRMATIONS` are
/// confirmed.
pub fn select_confirmations(first: &Vec<bool>, authorized: &Vec<bool>, states: &Vec<u32>) -> (chosen:
    Vec<usize>)
    requires
        first@.len() == authorized@.len(),
        first@.len() == states@.len(),
    ensures
        chosen@ == confirmed_positions(first@, authorized@, states@),
{
    let n = first.len();
    let mut chosen: Vec<usize> = Vec::new();
    let mut i: usize = 0;
    while i < n
        invariant_except_break
            i <= n,
            n == first@.len() == authorized@.len() == states@.len(),
            chosen@ == eligible_positions(first@, authorized@, states@, i as int),
            chosen@.len() < REQUIRED_CONFIRMATIONS,
        ensures
            chosen@ == confirmed_positions(first@, authorized@, states@),
        decreases n - i,
    {
        if first[i] && authorized[i] && states[i] & ACTIVE != 0 {
            chosen.push(i);
        }
        i += 1;
        if chosen.len() >= REQUIRED_CONFIRMATIONS as usize {
            proof {
                lemma_eligible_prefix(first@, authorized@, states@, i as int, n as int);
            }
            break;
        }
    }
    chosen
}

/// The verdict of the barrier on `confirmations` confirmed signers.
pub fn multisig_verdict(confirmations: u32) -> (r: Result<(), ContractError>)
    ensures
        confirmations < REQUIRED_CONFIRMATIONS ==> r == Err::<(), ContractError>(
            ContractError::ThresholdNotReached,
        ),
        confirmations >= REQUIRED_CONFIRMATIONS ==> r == Ok::<(), ContractError>(()),
{
    if confirmations < REQUIRED_CONFIRMATIONS {
        return Err(ContractError::ThresholdNotReached);
    }
    Ok(())
}

/// The eligible positions before `k` are increasing positions below `k`,
/// each of a signer that may confirm.
pub proof fn lemma_eligible_positions_valid(
    first: Seq<bool>,
    authorized: Seq<bool>,
    states: Seq<u32>,
    k: int,
)
    requires
        k <= usize::MAX,
    ensures
        forall|a: int|
            0 <= a < eligible_positions(first, authorized, states, k).len() ==> {
                let pos = #[trigger] eligible_positions(first, authorized, states, k)[a];
                &&& pos < k
                &&& may_confirm(first, authorized, states, pos as int)
            },
        forall|a: int, b: int|
            0 <= a < b < eligible_positions(first, authorized, states, k).len() ==> #[trigger] eligible_positions(
                first,
                authorized,
                states,
                k,
            )[a] < #[trigger] eligible_positions(first, authorized, states, k)[b],
    decreases k,
{
    if k > 0 {
        lemma_eligible_positions_valid(first, authorized, states, k - 1);
        let e = eligible_positions(first, authorized, states, k - 1);
        if may_confirm(first, authorized, states, k - 1) {
            let f = e.push((k - 1) as usize);
            assert forall|a: int, b: int| 0 <= a < b < f.len() implies #[trigger] f[a] < #[trigger] f[b] by {
                if b < e.len() {
                    assert(f[a] == e[a] && f[b] == e[b]);
                } else {
                    assert(f[a] == e[a]);
                }
            }
        }
    }
}

/// The barrier approves a request exactly when at least
/// `REQUIRED_CONFIRMATIONS` signers may confirm it: distinct first
/// occurrences of authorized, active signers. The positions it confirms are
/// distinct, and each is of a signer that may confirm.
pub proof fn lemma_multisig_supermajority(
    first: Seq<bool>,
    authorized: Seq<bool>,
    states: Seq<u32>,
)
    requires
        first.len() <= usize::MAX,
    ensures
        (confirmed_positions(first, authorized, states).len() >= REQUIRED_CONFIRMATIONS)
            <==> (eligible_positions(first, authorized, states, first.len() as int).len()
            >= REQUIRED_CONFIRMATIONS),
        forall|a: int|
            0 <= a < confirmed_positions(first, authorized, states).len() ==> may_confirm(
                first,
                authorized,
                states,
                #[trigger] confirmed_positions(first, authorized, states)[a] as int,
            ),
        forall|a: int, b: int|
            0 <= a < b < confirmed_positions(first, authorized, states).len() ==> #[trigger] confirmed_positions(
                first,
                authorized,
                states,
            )[a] < #[trigger] confirmed_positions(first, authorized, states)[b],
{
    let n = first.len() as int;
    lemma_eligible_positions_valid(first, authorized, states, n);
    let e = eligible_positions(first, authorized, states, n);
    let c = confirmed_positions(first, authorized, states);
    assert forall|a: int| 0 <= a < c.len() implies c[a] == e[a] by {}
    assert forall|a: int| 0 <= a < c.len() implies may_confirm(
        first,
        authorized,
        states,
        #[trigger] c[a] as int,
    ) by {
        assert(c[a] == e[a]);
    }
    assert forall|a: int, b: int| 0 <= a < b < c.len() implies #[trigger] c[a] < #[trigger] c[b] by {
        assert(c[a] == e[a]);
        assert(c[b] == e[b]);
    }
}


/// Whether the signer at position `i` of `signers` is the first occurrence
/// of its address: no earlier signer has the same address.
pub open spec fn is_first_occurrence(signers: Seq<soroban_sdk::Address>, i: int) -> bool {
    forall|j: int| 0 <= j < i ==> !same_address(#[trigger] signers[j], signers[i])
}

/// For each signer of a request, whether it is the first occurrence of its
/// address, so that each distinct signer is counted once. `None` when an
/// entry of `signers` is not an address.
pub fn first_occurrences(signers: &soroban_sdk::Vec<soroban_sdk::Address>) -> (r: Option<Vec<bool>>)
    ensures
        !all_present(held_addresses(*signers)) ==> r is None,
        all_present(held_addresses(*signers)) ==> (r matches Some(first) && first@.len()
            == held_addresses(*signers).len() && forall|i: int|
            0 <= i < first@.len() ==> #[trigger] first@[i] == is_first_occurrence(
                unwrapped(held_addresses(*signers)),
                i,
            )),
{
    let ghost held = held_addresses(*signers);
    let n = addresses_len(signers);
    let mut i: u32 = 0;
    while i < n
        invariant
            n == held.len(),
            held == held_addresses(*signers),
            i <= n,
            forall|k: int| 0 <= k < i ==> #[trigger] held[k] is Some,
        decreases n - i,
    {
        if addresses_try_get(signers, i).is_err() {
            return None;
        }
        i += 1;
    }
    let ghost addrs = unwrapped(held);
    let mut first: Vec<bool> = Vec::new();
    let mut i: u32 = 0;
    while i < n
        invariant
            n == held.len(),
            held == held_addresses(*signers),
            addrs == unwrapped(held),
            all_present(held),
            i <= n,
            first@.len() == i,
            forall|k: int| 0 <= k < i ==> #[trigger] first@[k] == is_first_occurrence(addrs, k),
        decreases n - i,
    {
        let current = addresses_try_get(signers, i).unwrap().unwrap();
        let mut seen = false;
        let mut j: u32 = 0;
        while j < i
            invariant
                n == held.len(),
                held == held_addresses(*signers),
                addrs == unwrapped(held),
                all_present(held),
                j <= i < n,
                current == addrs[i as int],
                seen == exists|k: int| 0 <= k < j && same_address(#[trigger] addrs[k], addrs[i as int]),
            decreases i - j,
        {
            let earlier = addresses_try_get(signers, j).unwrap().unwrap();
            if addresses_equal(&earlier, &current) {
                seen = true;
            }
            proof {
                assert(earlier == addrs[j as int]);
            }
            j += 1;
        }
        first.push(!seen);
        i += 1;
    }
    Some(first)
}

/// Each distinct address is marked once: no two positions marked as first
/// occurrences hold the same address, and a position that is not marked
/// repeats the address of an earlier signer.
pub proof fn lemma_first_occurrences_distinct(signers: Seq<soroban_sdk::Address>)
    ensures
        forall|a: int, b: int|
            0 <= a < b < signers.len() && #[trigger] is_first_occurrence(signers, a)
                && #[trigger] is_first_occurrence(signers, b) ==> !same_address(signers[a], signers[b]),
        forall|i: int|
            0 <= i < signers.len() && !#[trigger] is_first_occurrence(signers, i) ==> exists|j: int|
                0 <= j < i && same_address(#[trigger] signers[j], signers[i]),
{
    assert forall|a: int, b: int|
        0 <= a < b < signers.len() && #[trigger] is_first_occurrence(signers, a)
            && #[trigger] is_first_occurrence(signers, b) implies !same_address(
        signers[a],
        signers[b],
    ) by {
        assert(!same_address(signers[a], signers[b]));
    }
}

/// The barrier never counts one address twice: with the first-occurrence
/// marks of `signers`, the positions it confirms hold pairwise different
/// addresses.
pub proof fn lemma_confirmed_signers_distinct(
    signers: Seq<soroban_sdk::Address>,
    authorized: Seq<bool>,
    states: Seq<u32>,
)
    requires
        signers.len() <= usize::MAX,
    ensures
        ({
            let first = Seq::new(signers.len(), |i: int| is_first_occurrence(signers, i));
            let chosen = confirmed_positions(first, authorized, states);
            forall|a: int, b: int|
                0 <= a < b < chosen.len() ==> !same_address(
                    signers[#[trigger] chosen[a] as int],
                    signers[#[trigger] chosen[b] as int],
                )
        }),
{
    let first = Seq::new(signers.len(), |i: int| is_first_occurrence(signers, i));
    let n = first.len() as int;
    let e = eligible_positions(first, authorized, states, n);
    let chosen = confirmed_positions(first, authorized, states);
    lemma_eligible_positions_valid(first, authorized, states, n);
    lemma_first_occurrences_distinct(signers);
    assert forall|a: int, b: int| 0 <= a < b < chosen.len() implies !same_address(
        signers[#[trigger] chosen[a] as int],
        signers[#[trigger] chosen[b] as int],
    ) by {
        assert(chosen[a] == e[a]);
        assert(chosen[b] == e[b]);
        assert(e[a] < e[b]);
        assert(may_confirm(first, authorized, states, e[a] as int));
        assert(may_confirm(first, authorized, states, e[b] as int));
        assert(is_first_occurrence(signers, e[a] as int));
        assert(is_first_occurrence(signers, e[b] as int));
    }
}

} // verus!
