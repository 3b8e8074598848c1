//! Field elements as `pathfinder_crypto` keeps them: 32 big-endian bytes
//! standing for a number below the Stark prime.
use crate::felt::{be_value, felt_prime, StarkFelt};
use vstd::prelude::*;

verus! {

/// The error of `pathfinder_crypto` for bytes that are no field element.
#[verifier::external_type_specification]
#[verifier::external_body]
pub struct ExOverflowError(pathfinder_crypto::OverflowError);

impl StarkFelt {
    /// The number the bytes stand for.
    pub open spec fn value(&self) -> nat {
        be_value(self.0@)
    }
}

/// `Felt::from_be_slice` of `pathfinder_crypto`: the field element of at
/// most 32 big-endian bytes, or the error when there are more bytes or their
/// number is not below the prime.
#[verifier::external_body]
pub(crate) fn felt_from_be_slice(bytes: &[u8]) -> (r: Result<StarkFelt, pathfinder_crypto::OverflowError>)
    ensures
        r is Ok <==> (bytes@.len() <= 32 && be_value(bytes@) < felt_prime()),
        r matches Ok(f) ==> f.value() == be_value(bytes@),
{
    match pathfinder_crypto::Felt::from_be_slice(bytes) {
        Ok(f) => Ok(StarkFelt(*f.as_be_bytes())),
        Err(e) => Err(e),
    }
}

/// `Felt::from_u64` of `pathfinder_crypto`: the field element of a number.
#[verifier::external_body]
pub(crate) fn felt_from_u64(u: u64) -> (r: StarkFelt)
    ensures
        r.value() == u,
{
    StarkFelt(*pathfinder_crypto::Felt::from_u64(u).as_be_bytes())
}

/// `Felt::from_u128` of `pathfinder_crypto`: the field element of a number.
#[verifier::external_body]
pub(crate) fn felt_from_u128(u: u128) -> (r: StarkFelt)
    ensures
        r.value() == u,
{
    StarkFelt(*pathfinder_crypto::Felt::from_u128(u).as_be_bytes())
}

/// Addition of `pathfinder_crypto` field elements: the sum modulo the prime.
#[verifier::external_body]
pub(crate) fn felt_add(a: &StarkFelt, b: &StarkFelt) -> (r: StarkFelt)
    requires
        a.value() < felt_prime(),
        b.value() < felt_prime(),
    ensures
        r.value() == (a.value() + b.value()) % felt_prime(),
{
    let x = pathfinder_crypto::Felt::from_be_bytes(a.0).unwrap();
    let y = pathfinder_crypto::Felt::from_be_bytes(b.0).unwrap();
    StarkFelt(*(x + y).as_be_bytes())
}

/// A hash function for tests: the field sum of its three inputs.
pub struct DummyHashFunction;

impl DummyHashFunction {
    /// The sum of the three inputs modulo the prime.
    pub fn compute_hash(i: &(StarkFelt, StarkFelt, StarkFelt)) -> (r: StarkFelt)
        requires
            i.0.value() < felt_prime(),
            i.1.value() < felt_prime(),
            i.2.value() < felt_prime(),
        ensures
            r.value() == (i.0.value() + i.1.value() + i.2.value()) % felt_prime(),
    {
        let a = felt_add(&i.0, &i.1);
        proof {
            vstd::arithmetic::div_mod::lemma_add_mod_noop(
                (i.0.value() + i.1.value()) as int,
                i.2.value() as int,
                felt_prime() as int,
            );
            vstd::arithmetic::div_mod::lemma_small_mod(i.2.value(), felt_prime());
        }
        felt_add(&a, &i.2)
    }
}

/// The sum of zero field elements standing for an empty hash input and output
/// and the zero index: zero.
pub fn dummy() -> (r: StarkFelt)
    ensures
        r.value() == 0,
{
    let felt = felt_from_u64(0);
    let hash_input = (felt, felt, felt);
    let hash_output = felt;
    let node_index = felt;
    proof {
        lemma_zero_below_prime();
    }
    let a = felt_add(&hash_input.0, &hash_input.1);
    let b = felt_add(&a, &hash_input.2);
    let c = felt_add(&b, &hash_output);
    felt_add(&c, &node_index)
}

proof fn lemma_zero_below_prime()
    ensures
        0nat % felt_prime() == 0,
{
}

} // verus!
