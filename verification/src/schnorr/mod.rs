//! Schnorr signatures on JubJub over messages of the BLS12-381 scalar field.
//!
//! A signature is a response and a challenge. The signer commits to a random
//! scalar `k` by the point `k G`, takes as challenge `e` what the sponge
//! gives for the commitment and the message, and answers `s = k - e x` for
//! the secret `x`. The verifier rebuilds the commitment as `s G + e Y` from
//! the public key `Y = x G` and accepts if it gives the same challenge.

use vstd::prelude::*;

use crate::field::fp::Fp;
use crate::field::fp::fp_canonical;
use crate::field::fp_ed::FpEd;
use crate::field::fp_ed::fp_ed_modulus;
use crate::field::le_value;
use crate::ggm::label::bytes_to_bits_msb;
use crate::schnorr::curve::Point;
use crate::schnorr::curve::jubjub_add;
use crate::schnorr::curve::jubjub_generator_x;
use crate::schnorr::curve::jubjub_generator_y;
use crate::schnorr::curve::jubjub_mul;
use crate::schnorr::params::schnorr_challenge;

pub mod curve;
pub mod params;

verus! {

/// The parameters of the scheme: the generator of the group.
#[derive(Clone, Copy, Debug, PartialEq, Eq)]
pub struct Parameters {
    pub generator: Point,
}

/// A public key: the generator taken secret-key times.
pub type PublicKey = Point;

/// A secret key with the public key that belongs to it.
#[derive(Clone, Copy, Debug, PartialEq, Eq)]
pub struct SecretKey {
    pub secret_key: FpEd,
    pub public_key: PublicKey,
}

/// A signature: the response and the challenge it answers.
#[derive(Clone, Copy, Debug, PartialEq, Eq)]
pub struct Signature {
    pub prover_response: FpEd,
    pub verifier_challenge: [u8; 32],
}

/// The challenge as a scalar.
pub open spec fn challenge_scalar(challenge: Seq<u8>) -> nat {
    le_value(challenge) % fp_ed_modulus()
}

/// The signature on `message` under the secret `secret` with the random
/// scalar `nonce`: the response as a number, and the challenge.
pub open spec fn spec_sign(
    generator: (Seq<u8>, Seq<u8>),
    secret: nat,
    message: Seq<u8>,
    nonce: nat,
) -> (nat, Seq<u8>) {
    let commitment = jubjub_mul(generator.0, generator.1, nonce);
    let challenge = schnorr_challenge(commitment.0 + commitment.1 + message);
    let product = (challenge_scalar(challenge) * secret) % fp_ed_modulus();
    (((nonce - product) % (fp_ed_modulus() as int)) as nat, challenge)
}

/// The commitment that the verifier rebuilds from a signature.
pub open spec fn spec_recover(
    generator: (Seq<u8>, Seq<u8>),
    public_key: (Seq<u8>, Seq<u8>),
    response: nat,
    challenge: Seq<u8>,
) -> (Seq<u8>, Seq<u8>) {
    let a = jubjub_mul(generator.0, generator.1, response);
    let b = jubjub_mul(public_key.0, public_key.1, challenge_scalar(challenge));
    jubjub_add(a.0, a.1, b.0, b.1)
}

/// Whether a response and a challenge are a signature on `message` under
/// `public_key`: the rebuilt commitment and the message give the challenge.
pub open spec fn spec_verify(
    generator: (Seq<u8>, Seq<u8>),
    public_key: (Seq<u8>, Seq<u8>),
    message: Seq<u8>,
    response: nat,
    challenge: Seq<u8>,
) -> bool {
    let commitment = spec_recover(generator, public_key, response, challenge);
    schnorr_challenge(commitment.0 + commitment.1 + message) == challenge
}

/// A signature that the signer made is accepted whenever the verifier
/// rebuilds the signer's commitment from it.
pub proof fn lemma_own_commitment_verifies(
    generator: (Seq<u8>, Seq<u8>),
    secret: nat,
    message: Seq<u8>,
    nonce: nat,
)
    requires
        spec_recover(
            generator,
            jubjub_mul(generator.0, generator.1, secret),
            spec_sign(generator, secret, message, nonce).0,
            spec_sign(generator, secret, message, nonce).1,
        ) == jubjub_mul(generator.0, generator.1, nonce),
    ensures
        spec_verify(
            generator,
            jubjub_mul(generator.0, generator.1, secret),
            message,
            spec_sign(generator, secret, message, nonce).0,
            spec_sign(generator, secret, message, nonce).1,
        ),
{
}

/// What a signature scheme over field messages offers.
pub trait SignatureScheme {
    type Parameters;

    type PublicKey;

    type SecretKey;

    type Signature;

    /// Whether the public key is the one that belongs to the secret key.
    spec fn key_pair(pp: &Self::Parameters, pk: &Self::PublicKey, sk: &Self::SecretKey) -> bool;

    /// Whether the signature is one on the message under the public key.
    spec fn accepts(
        pp: &Self::Parameters,
        pk: &Self::PublicKey,
        message: &Fp,
        signature: &Self::Signature,
    ) -> bool;

    /// Whether the parameters are those of the scheme.
    spec fn standard(pp: &Self::Parameters) -> bool;

    /// Sets the parameters up.
    fn setup() -> (pp: Self::Parameters)
        ensures
            Self::standard(&pp),
    ;

    /// Draws a secret key and gives the public key that belongs to it.
    fn keygen(pp: &Self::Parameters) -> (keys: (Self::PublicKey, Self::SecretKey))
        ensures
            Self::key_pair(pp, &keys.0, &keys.1),
    ;

    /// Signs a message.
    fn sign(pp: &Self::Parameters, sk: &Self::SecretKey, message: &Fp) -> Self::Signature;

    /// Checks a signature on a message under a public key.
    fn verify(
        pp: &Self::Parameters,
        pk: &Self::PublicKey,
        message: &Fp,
        signature: &Self::Signature,
    ) -> (ok: bool)
        ensures
            ok == Self::accepts(pp, pk, message, signature),
    ;
}

/// The Schnorr scheme on JubJub.
pub struct Schnorr {}

impl Schnorr {
    /// The key pair of a given secret.
    pub fn keygen_with(parameters: &Parameters, secret_key: FpEd) -> (keys: (PublicKey, SecretKey))
        ensures
            keys.0@ == jubjub_mul(
                parameters.generator@.0,
                parameters.generator@.1,
                secret_key.value(),
            ),
            keys.1.secret_key == secret_key,
            keys.1.public_key == keys.0,
    {
        let public_key = parameters.generator.mul(&secret_key);
        (public_key, SecretKey { secret_key, public_key })
    }

    /// The signature on `message` that the random scalar `random_scalar`
    /// gives.
    pub fn sign_with_nonce(
        parameters: &Parameters,
        sk: &SecretKey,
        message: &Fp,
        random_scalar: &FpEd,
    ) -> (signature: Signature)
        ensures
            (signature.prover_response.value(), signature.verifier_challenge@) == spec_sign(
                parameters.generator@,
                sk.secret_key.value(),
                message@,
                random_scalar.value(),
            ),
    {
        let prover_commitment = parameters.generator.mul(random_scalar);
        let mut hash_input = prover_commitment.to_bytes();
        append_block(&mut hash_input, &message.to_bytes());
        let sponge_params = params::poseidon();
        let verifier_challenge = sponge_params.squeeze_challenge(&hash_input);
        let verifier_challenge_fe = FpEd::from_le_bytes_mod_order(verifier_challenge.as_slice());
        let prover_response = random_scalar.sub(&verifier_challenge_fe.mul(&sk.secret_key));
        Signature { prover_response, verifier_challenge }
    }
}

impl SignatureScheme for Schnorr {
    type Parameters = Parameters;

    type PublicKey = PublicKey;

    type SecretKey = SecretKey;

    type Signature = Signature;

    open spec fn standard(pp: &Parameters) -> bool {
        &&& fp_canonical(pp.generator@.0)
        &&& fp_canonical(pp.generator@.1)
        &&& le_value(pp.generator@.0) == jubjub_generator_x()
        &&& le_value(pp.generator@.1) == jubjub_generator_y()
    }

    open spec fn key_pair(pp: &Parameters, pk: &PublicKey, sk: &SecretKey) -> bool {
        &&& pk@ == jubjub_mul(pp.generator@.0, pp.generator@.1, sk.secret_key.value())
        &&& sk.public_key == *pk
    }

    open spec fn accepts(
        pp: &Parameters,
        pk: &PublicKey,
        message: &Fp,
        signature: &Signature,
    ) -> bool {
        spec_verify(
            pp.generator@,
            pk@,
            message@,
            signature.prover_response.value(),
            signature.verifier_challenge@,
        )
    }

    fn setup() -> (pp: Parameters) {
        let generator = Point::generator();
        Parameters { generator }
    }

    fn keygen(parameters: &Parameters) -> (keys: (PublicKey, SecretKey)) {
        let secret_key = FpEd::rand();
        Self::keygen_with(parameters, secret_key)
    }

    fn sign(parameters: &Parameters, sk: &SecretKey, message: &Fp) -> (signature: Signature)
        ensures
            exists|nonce: nat|
                (signature.prover_response.value(), signature.verifier_challenge@) == spec_sign(
                    parameters.generator@,
                    sk.secret_key.value(),
                    message@,
                    nonce,
                ),
    {
        let random_scalar = FpEd::rand();
        Self::sign_with_nonce(parameters, sk, message, &random_scalar)
    }

    fn verify(parameters: &Parameters, pk: &PublicKey, message: &Fp, signature: &Signature) -> (ok:
        bool) {
        let verifier_challenge_fe = FpEd::from_le_bytes_mod_order(
            signature.verifier_challenge.as_slice(),
        );
        let claimed = parameters.generator.mul(&signature.prover_response);
        let public_key_times_verifier_challenge = pk.mul(&verifier_challenge_fe);
        let claimed_prover_commitment = claimed.add(&public_key_times_verifier_challenge);
        let mut hash_input = claimed_prover_commitment.to_bytes();
        append_block(&mut hash_input, &message.to_bytes());
        let sponge_params = params::poseidon();
        let obtained_verifier_challenge = sponge_params.squeeze_challenge(&hash_input);
        blocks_equal(&signature.verifier_challenge, &obtained_verifier_challenge)
    }
}

/// Writes a block of 32 bytes behind what `dest` holds.
pub fn append_block(dest: &mut Vec<u8>, block: &[u8; 32])
    ensures
        final(dest)@ == old(dest)@ + block@,
{
    let mut i: usize = 0;
    while i < 32
        invariant
            i <= 32,
            dest@ == old(dest)@ + block@.take(i as int),
        decreases 32 - i,
    {
        dest.push(block[i]);
        assert(dest@ =~= old(dest)@ + block@.take(i + 1));
        i += 1;
    }
    assert(block@.take(32) =~= block@);
}

/// Whether two blocks of 32 bytes are the same.
pub fn blocks_equal(a: &[u8; 32], b: &[u8; 32]) -> (same: bool)
    ensures
        same == (a@ == b@),
{
    let mut i: usize = 0;
    while i < 32
        invariant
            i <= 32,
            forall|j: int| 0 <= j < i ==> a@[j] == b@[j],
        decreases 32 - i,
    {
        if a[i] != b[i] {
            return false;
        }
        i += 1;
    }
    assert(a@ =~= b@);
    true
}

/// The bits of a byte string, the most significant bit of each byte first.
pub fn bytes_to_bits(bytes: &[u8]) -> (bits: Vec<bool>)
    requires
        8 * bytes@.len() <= usize::MAX,
    ensures
        bits@ == bytes_to_bits_msb(bytes@),
{
    let mut bits: Vec<bool> = Vec::with_capacity(bytes.len() * 8);
    let mut k: usize = 0;
    while k < bytes.len()
        invariant
            k <= bytes@.len(),
            8 * bytes@.len() <= usize::MAX,
            bits@.len() == 8 * k,
            forall|j: int| 0 <= j < 8 * k ==> bits@[j] == bytes_to_bits_msb(bytes@)[j],
        decreases bytes@.len() - k,
    {
        let byte = bytes[k];
        let mut i: u8 = 0;
        while i < 8
            invariant
                i <= 8,
                k < bytes@.len(),
                byte == bytes@[k as int],
                bits@.len() == 8 * k + i,
                forall|j: int| 0 <= j < 8 * k + i ==> bits@[j] == bytes_to_bits_msb(bytes@)[j],
            decreases 8 - i,
        {
            let bit = (byte >> (8 - i - 1)) & 1;
            proof {
                let j = 8 * k + i;
                assert(j / 8 == k && j % 8 == i);
            }
            bits.push(bit == 1);
            i += 1;
        }
        k += 1;
    }
    assert(bits@ =~= bytes_to_bits_msb(bytes@));
    bits
}

} // verus!
