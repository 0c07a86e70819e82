//! The host collections of the Soroban SDK that the contract logic reads and
//! fills, and the contracts that this crate relies on for them.
//!
//! A host vector lives in the Soroban environment and never changes: a push
//! makes a new vector. The names below stand for what a vector holds, and
//! the wrappers state what each SDK call used by the logic does to, or reads
//! from, that content. Every read goes through `try_get` on element types
//! whose conversion is a check of the stored value's tag, so no read traps.
use vstd::prelude::*;

use soroban_sdk::unwrap::UnwrapInfallible;
use soroban_sdk::TryFromVal;

verus! {

/// The Soroban environment handle, carried through to the SDK calls.
#[verifier::external_type_specification]
#[verifier::external_body]
pub struct ExEnv(soroban_sdk::Env);

/// A Soroban host vector.
#[verifier::external_type_specification]
#[verifier::external_body]
#[verifier::reject_recursive_types(T)]
pub struct ExHostVec<T>(soroban_sdk::Vec<T>);

/// A value stored in the Soroban environment.
#[verifier::external_type_specification]
#[verifier::external_body]
pub struct ExVal(soroban_sdk::Val);

/// An address of an account or contract.
#[verifier::external_type_specification]
#[verifier::external_body]
pub struct ExAddress(soroban_sdk::Address);

/// The error of a failed conversion of a host value to an `i128`.
#[verifier::external_type_specification]
#[verifier::external_body]
pub struct ExHostError(soroban_sdk::Error);

/// The error of a failed conversion of a host value to a `u32` or to a host
/// vector.
#[verifier::external_type_specification]
#[verifier::external_body]
pub struct ExConversionError(soroban_sdk::ConversionError);

/// What reading one item of a host vector of `i128` gives.
pub type I128Read = Result<Option<i128>, soroban_sdk::Error>;

/// What reading one item of a host vector of `u32` gives.
pub type U32Read = Result<Option<u32>, soroban_sdk::ConversionError>;

/// What reading one item of a host vector of host vectors gives.
pub type RowRead = Result<Option<soroban_sdk::Vec<soroban_sdk::Val>>, soroban_sdk::ConversionError>;

/// What reading one item of a host vector of addresses gives.
pub type AddressRead = Result<Option<soroban_sdk::Address>, soroban_sdk::ConversionError>;

/// The items of a host vector of addresses, in order, each as the address it
/// converts to, or `None` where the stored value is not an address.
pub uninterp spec fn held_addresses(v: soroban_sdk::Vec<soroban_sdk::Address>) -> Seq<
    Option<soroban_sdk::Address>,
>;

/// Whether two addresses are the same, as the host compares them.
pub uninterp spec fn same_address(a: soroban_sdk::Address, b: soroban_sdk::Address) -> bool;

/// The items of a host vector of `i128`, in order, each as the `i128` it
/// converts to, or `None` where the stored value is not an `i128`.
pub uninterp spec fn held_i128s(v: soroban_sdk::Vec<i128>) -> Seq<Option<i128>>;

/// The items of a host vector of `u32`, in order, each as the `u32` it
/// converts to, or `None` where the stored value is not a `u32`.
pub uninterp spec fn held_u32s(v: soroban_sdk::Vec<u32>) -> Seq<Option<u32>>;

/// The items of a host vector of host vectors, in order, each as the vector
/// it refers to, or `None` where the stored value is not a host vector.
pub uninterp spec fn held_rows(v: soroban_sdk::Vec<soroban_sdk::Vec<soroban_sdk::Val>>) -> Seq<
    Option<soroban_sdk::Vec<soroban_sdk::Val>>,
>;

/// The vector of `(price, count)` buckets `v`, read as a vector of host
/// vectors: the same host object.
pub uninterp spec fn rows_of(v: soroban_sdk::Vec<(i128, u32)>) -> soroban_sdk::Vec<
    soroban_sdk::Vec<soroban_sdk::Val>,
>;

/// The host vector `w`, read as a vector of `i128`: the same host object.
pub uninterp spec fn i128_view_of(w: soroban_sdk::Vec<soroban_sdk::Val>) -> soroban_sdk::Vec<i128>;

/// The host vector `w`, read as a vector of `u32`: the same host object.
pub uninterp spec fn u32_view_of(w: soroban_sdk::Vec<soroban_sdk::Val>) -> soroban_sdk::Vec<u32>;

/// `soroban_sdk::Vec::len` on a vector of addresses.
#[verifier::external_body]
pub(crate) fn addresses_len(v: &soroban_sdk::Vec<soroban_sdk::Address>) -> (n: u32)
    ensures
        n == held_addresses(*v).len(),
{
    v.len()
}

/// `soroban_sdk::Vec::try_get` on a vector of addresses: `Ok(None)` past
/// the end, the item as an address where it is one, and an error where it
/// is not. The error's content is not stated.
#[verifier::external_body]
pub(crate) fn addresses_try_get(v: &soroban_sdk::Vec<soroban_sdk::Address>, i: u32) -> (r: AddressRead)
    ensures
        i >= held_addresses(*v).len() ==> r matches Ok(None),
        i < held_addresses(*v).len() ==> (held_addresses(*v)[i as int] is Some ==> r == AddressRead::Ok(held_addresses(*v)[i as int])),
        i < held_addresses(*v).len() ==> (held_addresses(*v)[i as int] is None ==> r is Err),
{
    v.try_get(i)
}

/// `PartialEq::eq` on addresses: whether the host finds them the same.
#[verifier::external_body]
pub(crate) fn addresses_equal(a: &soroban_sdk::Address, b: &soroban_sdk::Address) -> (same: bool)
    ensures
        same == same_address(*a, *b),
{
    a == b
}

/// `soroban_sdk::Vec::len` on a vector of `i128`: the number of items held.
#[verifier::external_body]
pub(crate) fn i128s_len(v: &soroban_sdk::Vec<i128>) -> (n: u32)
    ensures
        n == held_i128s(*v).len(),
{
    v.len()
}

/// `soroban_sdk::Vec::try_get` on a vector of `i128`: `Ok(None)` past the
/// end, the converted item where it converts, and an error where it does
/// not. The error's content is not stated.
#[verifier::external_body]
pub(crate) fn i128s_try_get(v: &soroban_sdk::Vec<i128>, i: u32) -> (r: I128Read)
    ensures
        i >= held_i128s(*v).len() ==> r matches Ok(None),
        i < held_i128s(*v).len() ==> (held_i128s(*v)[i as int] is Some ==> r == I128Read::Ok(held_i128s(*v)[i as int])),
        i < held_i128s(*v).len() ==> (held_i128s(*v)[i as int] is None ==> r is Err),
{
    v.try_get(i)
}

/// `soroban_sdk::Vec::new`: an empty vector of `u32` in `env`.
#[verifier::external_body]
pub(crate) fn u32s_new(env: &soroban_sdk::Env) -> (v: soroban_sdk::Vec<u32>)
    ensures
        held_u32s(v) == Seq::<Option<u32>>::empty(),
{
    soroban_sdk::Vec::new(env)
}

/// `soroban_sdk::Vec::len` on a vector of `u32`.
#[verifier::external_body]
pub(crate) fn u32s_len(v: &soroban_sdk::Vec<u32>) -> (n: u32)
    ensures
        n == held_u32s(*v).len(),
{
    v.len()
}

/// `soroban_sdk::Vec::try_get` on a vector of `u32`: `Ok(None)` past the
/// end, the converted item where it converts, and an error where it does
/// not. The error's content is not stated.
#[verifier::external_body]
pub(crate) fn u32s_try_get(v: &soroban_sdk::Vec<u32>, i: u32) -> (r: U32Read)
    ensures
        i >= held_u32s(*v).len() ==> r matches Ok(None),
        i < held_u32s(*v).len() ==> (held_u32s(*v)[i as int] is Some ==> r == U32Read::Ok(held_u32s(*v)[i as int])),
        i < held_u32s(*v).len() ==> (held_u32s(*v)[i as int] is None ==> r is Err),
{
    v.try_get(i)
}

/// `soroban_sdk::Vec::push_back` on a vector of `u32`: appends `x`.
/// The host refuses a push onto a vector of `u32::MAX` items, so the vector
/// must have room.
#[verifier::external_body]
pub(crate) fn u32s_push(v: &mut soroban_sdk::Vec<u32>, x: u32)
    requires
        held_u32s(*old(v)).len() < u32::MAX,
    ensures
        held_u32s(*final(v)) == held_u32s(*old(v)).push(Some(x)),
{
    v.push_back(x)
}

/// `soroban_sdk::Vec::to_vals` followed by the SDK's infallible conversion
/// from `Vec<Val>` to `Vec<Vec<Val>>`: the bucket vector `v` as a vector
/// of host vectors, the same host object.
#[verifier::external_body]
pub(crate) fn bucket_rows(v: &soroban_sdk::Vec<(i128, u32)>) -> (rows: soroban_sdk::Vec<
    soroban_sdk::Vec<soroban_sdk::Val>,
>)
    ensures
        rows == rows_of(*v),
{
    let vals = v.to_vals();
    soroban_sdk::Vec::try_from_val(v.env(), &&vals).unwrap_infallible()
}

/// `soroban_sdk::Vec::len` on a vector of host vectors.
#[verifier::external_body]
pub(crate) fn rows_len(v: &soroban_sdk::Vec<soroban_sdk::Vec<soroban_sdk::Val>>) -> (n: u32)
    ensures
        n == held_rows(*v).len(),
{
    v.len()
}

/// `soroban_sdk::Vec::try_get` on a vector of host vectors: `Ok(None)` past
/// the end, the item as a host vector where it is one, and an error where it
/// is not. The error's content is not stated.
#[verifier::external_body]
pub(crate) fn rows_try_get(v: &soroban_sdk::Vec<soroban_sdk::Vec<soroban_sdk::Val>>, i: u32) -> (r: RowRead)
    ensures
        i >= held_rows(*v).len() ==> r matches Ok(None),
        i < held_rows(*v).len() ==> (held_rows(*v)[i as int] is Some ==> r == RowRead::Ok(held_rows(*v)[i as int])),
        i < held_rows(*v).len() ==> (held_rows(*v)[i as int] is None ==> r is Err),
{
    v.try_get(i)
}

/// The SDK's infallible conversion from `Vec<Val>` to `Vec<i128>`: `w`
/// read as a vector of `i128`, the same host object.
#[verifier::external_body]
pub(crate) fn row_as_i128s(w: &soroban_sdk::Vec<soroban_sdk::Val>) -> (v: soroban_sdk::Vec<i128>)
    ensures
        v == i128_view_of(*w),
{
    soroban_sdk::Vec::try_from_val(w.env(), &w).unwrap_infallible()
}

/// The SDK's infallible conversion from `Vec<Val>` to `Vec<u32>`: `w` read
/// as a vector of `u32`, the same host object.
#[verifier::external_body]
pub(crate) fn row_as_u32s(w: &soroban_sdk::Vec<soroban_sdk::Val>) -> (v: soroban_sdk::Vec<u32>)
    ensures
        v == u32_view_of(*w),
{
    soroban_sdk::Vec::try_from_val(w.env(), &w).unwrap_infallible()
}

/// `Clone::clone` on a host vector, which the derived `Clone` of types that
/// hold one calls. It copies the handle of the same host object; nothing is
/// stated of the result.
pub assume_specification<T>[<soroban_sdk::Vec<T> as Clone>::clone](v: &soroban_sdk::Vec<T>) -> soroban_sdk::Vec<T>;

/// Whether every item of `s` is present.
pub open spec fn all_present<A>(s: Seq<Option<A>>) -> bool {
    forall|k: int| 0 <= k < s.len() ==> #[trigger] s[k] is Some
}

/// The present items of `s`, unwrapped.
pub open spec fn unwrapped<A>(s: Seq<Option<A>>) -> Seq<A> {
    s.map_values(|o: Option<A>| o->0)
}

} // verus!
