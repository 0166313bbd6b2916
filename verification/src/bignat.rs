//! Trusted boundary to `num_bigint`: the opaque `BigUint` type, the value
//! it holds, and the few exact operations the engine needs.

use vstd::prelude::*;
use num_bigint::BigUint;

verus! {

#[verifier::external_type_specification]
#[verifier::external_body]
pub struct ExBigUint(BigUint);

/// The natural number that an arbitrary-precision `num_bigint::BigUint`
/// holds; a `BigUint` is a sequence of machine digits, and this names the
/// value those digits denote.
pub uninterp spec fn big_nat(b: BigUint) -> nat;

/// Relies on `<BigUint as From<u64>>::from`: the big integer built from a
/// machine word holds that word's value.
#[verifier::external_body]
pub(crate) fn big_from_u64(x: u64) -> (r: BigUint)
    ensures
        big_nat(r) == x as nat,
{
    BigUint::from(x)
}

/// Relies on `<&BigUint as core::ops::Add>::add`: exact arbitrary-precision
/// addition of the two values.
#[verifier::external_body]
pub(crate) fn big_add(a: &BigUint, b: &BigUint) -> (r: BigUint)
    ensures
        big_nat(r) == big_nat(*a) + big_nat(*b),
{
    a + b
}

/// Relies on `<&BigUint as core::ops::Mul>::mul`: exact arbitrary-precision
/// multiplication of the two values.
#[verifier::external_body]
pub(crate) fn big_mul(a: &BigUint, b: &BigUint) -> (r: BigUint)
    ensures
        big_nat(r) == big_nat(*a) * big_nat(*b),
{
    a * b
}

/// Relies on `<BigUint as Ord>::cmp` (reached through `<=`): the order on
/// `BigUint` is the order of the values held.
#[verifier::external_body]
pub(crate) fn big_le(a: &BigUint, b: &BigUint) -> (r: bool)
    ensures
        r == (big_nat(*a) <= big_nat(*b)),
{
    a <= b
}

/// Relies on `<BigUint as Clone>::clone`: the copy holds the same value.
#[verifier::external_body]
pub(crate) fn big_clone(a: &BigUint) -> (r: BigUint)
    ensures
        big_nat(r) == big_nat(*a),
{
    a.clone()
}

/// The sequence of values held by a sequence of big integers.
pub open spec fn big_vals(v: Seq<BigUint>) -> Seq<nat> {
    v.map_values(|b: BigUint| big_nat(b))
}

/// Sum of the values held by the first `k` entries of a sequence of big
/// integers.
pub open spec fn big_sum(v: Seq<BigUint>, k: int) -> nat
    decreases k,
{
    if k <= 0 {
        0
    } else {
        big_sum(v, k - 1) + big_nat(v[k - 1])
    }
}

/// Two sequences whose entries hold equal values have equal partial sums.
pub proof fn lemma_big_sum_pointwise(v1: Seq<BigUint>, v2: Seq<BigUint>, k: int)
    requires
        forall|i: int| 0 <= i < k ==> big_nat(#[trigger] v1[i]) == big_nat(#[trigger] v2[i]),
    ensures
        big_sum(v1, k) == big_sum(v2, k),
    decreases k,
{
    if k > 0 {
        lemma_big_sum_pointwise(v1, v2, k - 1);
    }
}

/// Replacing the entry at `d` changes a partial sum that covers `d` by
/// exactly the change of that entry.
pub proof fn lemma_big_sum_update(v1: Seq<BigUint>, v2: Seq<BigUint>, d: int, k: int)
    requires
        0 <= d < k,
        forall|i: int| 0 <= i < k && i != d ==> big_nat(#[trigger] v1[i]) == big_nat(
            #[trigger] v2[i],
        ),
    ensures
        big_sum(v2, k) + big_nat(v1[d]) == big_sum(v1, k) + big_nat(v2[d]),
    decreases k,
{
    if d == k - 1 {
        lemma_big_sum_pointwise(v1, v2, k - 1);
    } else {
        lemma_big_sum_update(v1, v2, d, k - 1);
    }
}

} // verus!
