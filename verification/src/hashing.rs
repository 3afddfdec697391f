//! The parts of `ahash` that the kernels call.
use ahash::RandomState;
use vstd::prelude::*;

verus! {

/// `ahash::RandomState`: a hasher with its seeds.
#[verifier::external_type_specification]
#[verifier::external_body]
pub struct ExRandomState(ahash::RandomState);

/// `RandomState::with_seeds`: a hasher whose seeds are fixed. Nothing is claimed of
/// it.
#[verifier::external_body]
pub(crate) fn with_seeds(k0: u64, k1: u64, k2: u64, k3: u64) -> RandomState {
    RandomState::with_seeds(k0, k1, k2, k3)
}

/// `RandomState::hash_one`: the hash of a value. Which algorithm `ahash` uses depends
/// on the machine, so that nothing is claimed of the number.
#[verifier::external_body]
pub(crate) fn hash_one<T: std::hash::Hash + ?Sized>(state: &RandomState, value: &T) -> u64 {
    state.hash_one(value)
}

/// The state is one that `RandomState::with_seeds` makes of the four seeds.
pub closed spec fn has_seeds(state: RandomState, k0: u64, k1: u64, k2: u64, k3: u64) -> bool {
    call_ensures(with_seeds, (k0, k1, k2, k3), state)
}

/// The number is one that `RandomState::hash_one` gives for the value. Another machine
/// may give another.
pub closed spec fn hashes_to<T: std::hash::Hash + ?Sized>(
    state: RandomState,
    value: &T,
    hash: u64,
) -> bool {
    call_ensures(hash_one::<T>, (&state, value), hash)
}

/// A hasher of the four seeds.
pub(crate) fn seeded(k0: u64, k1: u64, k2: u64, k3: u64) -> (result: RandomState)
    ensures
        has_seeds(result, k0, k1, k2, k3),
{
    with_seeds(k0, k1, k2, k3)
}

/// The hash of a value.
pub(crate) fn hash_value<T: std::hash::Hash + ?Sized>(state: &RandomState, value: &T) -> (result: u64)
    ensures
        hashes_to(*state, value, result),
{
    hash_one(state, value)
}

/// Two hashes in one.
pub open spec fn combined(l: u64, r: u64) -> int {
    ((17 * 37 + l) * 37 + r) % 0x1_0000_0000_0000_0000
}

/// Two hashes in one.
pub fn combine_hashes(l: u64, r: u64) -> (result: u64)
    ensures
        result == combined(l, r),
{
    let hash: u64 = 629u64.wrapping_add(l);
    let product: u64 = hash.wrapping_mul(37);
    product.wrapping_add(r)
}

/// Both hashes go into the combined one: it is 23273 and 37 times the left hash and the
/// right one, as far as 64 bits hold it, so that another hash on one side gives another
/// result.
pub proof fn law_combined_hashes_depend_on_both(l: u64, r: u64, other: u64)
    ensures
        combined(l, r) == (23273 + 37 * l + r) % 0x1_0000_0000_0000_0000,
        combined(l, r) == combined(l, other) <==> r == other,
        combined(l, r) == combined(other, r) <==> l == other,
{
    let modulus = 0x1_0000_0000_0000_0000int;
    assert((17 * 37 + l) * 37 + r == 23273 + 37 * l + r) by (nonlinear_arith);
    let left = 23273 + 37 * l + r;
    if combined(l, r) == combined(l, other) {
        assert((23273 + 37 * l + r) % modulus == (23273 + 37 * l + other) % modulus);
    }
    if combined(l, r) == combined(other, r) {
        // 37 has an inverse modulo a power of two.
        assert((23273 + 37 * l + r) % modulus == (23273 + 37 * other + r) % modulus);
        assert(l == other) by {
            let difference = 37 * (l - other);
            assert(difference % modulus == 0) by {
                vstd::arithmetic::div_mod::lemma_mod_equivalence(
                    23273 + 37 * l + r,
                    23273 + 37 * other + r,
                    modulus,
                );
            }
            lemma_odd_factor(l - other);
        }
    }
}

proof fn lemma_odd_factor(difference: int)
    requires
        (37 * difference) % 0x1_0000_0000_0000_0000 == 0,
        -0x1_0000_0000_0000_0000 < difference < 0x1_0000_0000_0000_0000,
    ensures
        difference == 0,
{
    let modulus = 0x1_0000_0000_0000_0000int;
    let k = (37 * difference) / modulus;
    assert(37 * difference == modulus * k);
    assert(-37 < k < 37);
    // The modulus leaves 12 when it is divided by 37, which then divides `12 * k`.
    assert(modulus == 37 * 498560650640798692 + 12);
    let rest = difference - 498560650640798692 * k;
    assert(37 * rest == 12 * k);
    assert(k == 0);
}

/// Combining hashes multiplies and adds them with wrapping 64-bit arithmetic, and neither
/// hash can be changed alone without changing the result.
pub proof fn law_combination_tells_hashes_apart(
    l: u64,
    r: u64,
    result: u64,
    left: u64,
    right: u64,
    other: u64,
)
    requires
        call_ensures(combine_hashes, (l, r), result),
        call_ensures(combine_hashes, (left, right), other),
    ensures
        result == (23273 + 37 * l + r) % 0x1_0000_0000_0000_0000,
        l == left ==> (result == other <==> r == right),
        r == right ==> (result == other <==> l == left),
{
    law_combined_hashes_depend_on_both(l, r, right);
    law_combined_hashes_depend_on_both(l, r, left);
}

} // verus!
