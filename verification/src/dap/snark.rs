//! A succinct proof under a verifying key, and what the verifier says of it.

use vstd::prelude::*;

use crate::field::fp::Fp;

use ark_crypto_primitives::SNARK;
use ark_ff::PrimeField;
use ark_serialize::CanonicalDeserialize;

verus! {

/// What the verifier says of an encoded proof for one public input under an
/// encoded verifying key: whether it accepts, or `None` where the key or the
/// proof cannot be read or does not fit the input.
pub uninterp spec fn groth16_verdict(vk: Seq<u8>, instance: Seq<u8>, proof: Seq<u8>) -> Option<
    bool,
>;

/// Checks an encoded proof for the public input `instance` under an encoded
/// verifying key.
pub fn verify_proof(vk_bytes: &[u8], instance: &Fp, proof_bytes: &[u8]) -> (verdict: Option<bool>)
    ensures
        verdict == groth16_verdict(vk_bytes@, instance@, proof_bytes@),
{
    groth16_verify(vk_bytes, instance, proof_bytes)
}

/// `ark_groth16::Groth16::verify` on BLS12-381, after `deserialize` of the
/// key and of the proof: the verdict is a function of the three byte
/// strings alone.
#[verifier::external_body]
fn groth16_verify(vk_bytes: &[u8], instance: &Fp, proof_bytes: &[u8]) -> (verdict: Option<bool>)
    ensures
        verdict == groth16_verdict(vk_bytes@, instance@, proof_bytes@),
{
    let vk = ark_groth16::VerifyingKey::<ark_bls12_381::Bls12_381>::deserialize(vk_bytes).ok()?;
    let proof = ark_groth16::Proof::<ark_bls12_381::Bls12_381>::deserialize(proof_bytes).ok()?;
    let x = ark_bls12_381::Fr::from_le_bytes_mod_order(&instance.bytes);
    ark_groth16::Groth16::<ark_bls12_381::Bls12_381>::verify(&vk, &[x], &proof).ok()
}

} // verus!
