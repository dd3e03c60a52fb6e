//! Calls into the crates that this library builds on. What the contracts here claim of them is
//! taken from their documentation and is not proved.
use itertools::Itertools;
use num_traits::ToPrimitive;
use vstd::prelude::*;

use crate::match_groups::{leaves_of_arm, MatchLeafBuilder};
use crate::semantic::IntLiteral;

verus! {

/// The texts of `parts` one after the other, with `sep` between each two of them.
pub open spec fn joined(parts: Seq<Seq<char>>, sep: Seq<char>) -> Seq<char>
    decreases parts.len(),
{
    if parts.len() == 0 {
        seq![]
    } else if parts.len() == 1 {
        parts[0]
    } else {
        joined(parts.drop_last(), sep) + sep + parts.last()
    }
}

/// Calls `itertools::Itertools::join`: all elements in one string, separated by `sep`. It reserves
/// room for a separator per element, and panics where that room cannot be counted, so that long
/// separators are left out.
#[verifier::external_body]
pub(crate) fn join(parts: &Vec<String>, sep: &str) -> (r: String)
    requires
        sep@.len() <= 2,
    ensures
        r@ == joined(Seq::new(parts@.len(), |i: int| parts@[i]@), sep@),
{
    parts.iter().join(sep)
}

/// Calls `itertools::zip_eq`: the elements of two lists, pair by pair. It panics on lists of
/// different lengths, which are left out.
#[verifier::external_body]
pub(crate) fn zip_eq<A, B>(first: Vec<A>, second: Vec<B>) -> (r: Vec<(A, B)>)
    requires
        first@.len() == second@.len(),
    ensures
        r@ == Seq::new(first@.len(), |i: int| (first@[i], second@[i])),
{
    itertools::zip_eq(first, second).collect()
}

/// Calls `itertools::Itertools::sorted_by_key`: the leaves in ascending order of their arms. The
/// sort is stable, so that the leaves of one arm keep their order.
#[verifier::external_body]
pub(crate) fn sorted_by_arm(leaves: Vec<MatchLeafBuilder>) -> (r: Vec<MatchLeafBuilder>)
    ensures
        forall|i: int, j: int|
            0 <= i <= j < r@.len() ==> (#[trigger] r@[i]).arm_index <= (#[trigger] r@[j]).arm_index,
        forall|arm_index: usize| #[trigger]
            leaves_of_arm(r@, arm_index) == leaves_of_arm(leaves@, arm_index),
{
    leaves.into_iter().sorted_by_key(|leaf| leaf.arm_index).collect()
}

/// Calls `itertools::Itertools::chunk_by`: the leaves cut into runs of consecutive leaves of one
/// arm, each with that arm.
#[verifier::external_body]
pub(crate) fn chunked_by_arm(leaves: Vec<MatchLeafBuilder>) -> (r: Vec<
    (usize, Vec<MatchLeafBuilder>),
>)
    ensures
        Seq::new(r@.len(), |i: int| r@[i].1@).flatten() == leaves@,
        forall|i: int| 0 <= i < r@.len() ==> (#[trigger] r@[i]).1@.len() > 0,
        forall|i: int, k: int|
            0 <= i < r@.len() && 0 <= k < r@[i].1@.len() ==> (#[trigger] r@[i].1@[k]).arm_index
                == r@[i].0,
        forall|i: int, j: int|
            0 <= i && j == i + 1 && j < r@.len() ==> (#[trigger] r@[i]).0 != (#[trigger] r@[j]).0,
{
    let chunks = leaves.into_iter().chunk_by(|leaf| leaf.arm_index);
    let r = chunks.into_iter().map(|(arm_index, chunk)| (arm_index, chunk.collect())).collect();
    r
}

/// Calls `num_traits::ToPrimitive::to_usize` on the literal as a `num_bigint::BigInt`: its value,
/// where a `usize` holds it. The literal is converted by `num_bigint::BigInt::from_signed_bytes_le`,
/// which reads bytes in two's complement, least significant byte first.
#[verifier::external_body]
pub(crate) fn to_usize(literal: &IntLiteral) -> (r: Option<usize>)
    ensures
        r == (if 0 <= literal.value() <= usize::MAX {
            Some(literal.value() as usize)
        } else {
            None
        }),
{
    num_bigint::BigInt::from_signed_bytes_le(&literal.bytes).to_usize()
}

} // verus!
