//! Elements of the BabyBear prime field, held as their canonical `u32`
//! representatives in `0..P`.
use vstd::prelude::*;
use p3_baby_bear::BabyBear;
use p3_field::PrimeField32;

verus! {

/// The BabyBear prime `P = 2^31 - 2^27 + 1`.
pub const BABY_BEAR_PRIME: u32 = 0x78000001;

/// The number of field elements in the state of one star-graph node.
pub const STATE_WIDTH: usize = 5;

/// The canonical representative of `x` modulo `P`.
pub open spec fn reduce(x: int) -> u32 {
    (x % (BABY_BEAR_PRIME as int)) as u32
}

/// A value is the canonical representative of a field element.
pub open spec fn is_canonical(x: u32) -> bool {
    x < BABY_BEAR_PRIME
}

/// A node state whose entries are all canonical field elements.
pub open spec fn state_is_canonical(s: [u32; STATE_WIDTH]) -> bool {
    forall|k: int| 0 <= k < STATE_WIDTH ==> is_canonical(#[trigger] s[k])
}

/// Calls `BabyBear::new` and reads the element back with
/// `PrimeField32::as_canonical_u32`. The crate documents that `new` accepts
/// any `u32` and that `as_canonical_u32` returns the representative in
/// `0..P`; its source computes `new` as a reduction modulo `P`. The contract
/// claims that the result is `x mod P`.
#[verifier::external_body]
pub(crate) fn field_element(x: u32) -> (r: u32)
    ensures
        r == reduce(x as int),
{
    BabyBear::new(x).as_canonical_u32()
}

/// Subtracts two field elements with BabyBear's `Sub` impl. Each operand is
/// made a field element with `BabyBear::new` (reduction modulo `P`), and the
/// difference is read back with `as_canonical_u32`. The contract claims
/// that the result is `(a - b) mod P`.
#[verifier::external_body]
pub(crate) fn field_sub(a: u32, b: u32) -> (r: u32)
    ensures
        r == reduce(a - b),
{
    (BabyBear::new(a) - BabyBear::new(b)).as_canonical_u32()
}

/// Reduction gives a canonical element and leaves canonical values alone.
pub proof fn lemma_reduce_canonical(x: int)
    ensures
        is_canonical(reduce(x)),
        0 <= x < BABY_BEAR_PRIME ==> reduce(x) == x,
{
}

/// The difference of two canonical elements is zero exactly when they are
/// equal.
pub proof fn lemma_reduce_difference_zero(a: u32, b: u32)
    requires
        is_canonical(a),
        is_canonical(b),
    ensures
        (reduce(a - b) == 0) <==> (a == b),
{
    let p = BABY_BEAR_PRIME as int;
    let d = a - b;
    if d >= 0 {
        vstd::arithmetic::div_mod::lemma_fundamental_div_mod_converse(d, p, 0, d);
    } else {
        vstd::arithmetic::div_mod::lemma_fundamental_div_mod_converse(d, p, -1, d + p);
    }
}

} // verus!
