//! Thin wrappers around outside functions whose contracts Verus takes on
//! trust; each doc comment names what the wrapper relies on.

use vstd::prelude::*;

use rand::seq::SliceRandom;

verus! {

/// Relies on str's `PartialEq::eq`: two string slices compare equal exactly
/// when their characters do.
#[verifier::external_body]
pub(crate) fn str_eq(a: &str, b: &str) -> (r: bool)
    ensures
        r == (a@ == b@),
{
    a == b
}

/// Relies on rand's `SliceRandom::shuffle` (driven by `rand::rng`): it
/// permutes the slice in place, so the multiset of elements is unchanged.
#[verifier::external_body]
pub(crate) fn shuffle_ids(list: &mut Vec<usize>)
    ensures
        final(list)@.to_multiset() == old(list)@.to_multiset(),
        final(list)@.len() == old(list)@.len(),
{
    list.shuffle(&mut rand::rng());
}

/// Relies on uuid's `Uuid::new_v4` and its hyphenated `Display` rendering
/// through `ToString`: a fresh random token, 36 characters long.
#[verifier::external_body]
pub(crate) fn new_token() -> (r: String)
    ensures
        r@.len() == 36,
{
    uuid::Uuid::new_v4().to_string()
}

/// Relies on uuid's `Uuid::new_v4`, converted by `Uuid::as_u128`: a random
/// 128-bit number; nothing can be promised of its value.
#[verifier::external_body]
pub(crate) fn random_id_number() -> u128 {
    uuid::Uuid::new_v4().as_u128()
}

/// Relies on base62's `encode`: the standard base-62 digits of the number,
/// most significant first; at least one digit, at most 22 for a `u128`.
#[verifier::external_body]
pub(crate) fn base62_encode(num: u128) -> (r: String)
    ensures
        1 <= r@.len() <= 22,
{
    base62::encode(num)
}

} // verus!
