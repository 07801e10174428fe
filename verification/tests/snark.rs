use ark_bls12_381::{Bls12_381, Fr};
use ark_crypto_primitives::SNARK;
use ark_ff::{BigInteger, PrimeField};
use ark_groth16::Groth16;
use ark_r1cs_std::alloc::AllocVar;
use ark_r1cs_std::eq::EqGadget;
use ark_r1cs_std::fields::fp::FpVar;
use ark_relations::r1cs::{ConstraintSynthesizer, ConstraintSystemRef, SynthesisError};
use ark_serialize::CanonicalSerialize;
use ark_std::test_rng;
use divtokens::dap::messages::RedeemRequest;
use divtokens::dap::server::Server;
use divtokens::dap::snark::verify_proof;
use divtokens::dap::types::{Coin, PP};
use divtokens::field::fp::Fp;
use divtokens::ggm::GGM;
use divtokens::poseidon::{setup_params, Curve, Poseidon};
use divtokens::schnorr::{Schnorr, SignatureScheme};

// Knowledge of a square root of the public input.
struct Square {
    root: Fr,
    square: Fr,
}

impl ConstraintSynthesizer<Fr> for Square {
    fn generate_constraints(self, cs: ConstraintSystemRef<Fr>) -> Result<(), SynthesisError> {
        let square = FpVar::new_input(cs.clone(), || Ok(self.square))?;
        let root = FpVar::new_witness(cs.clone(), || Ok(self.root))?;
        (&root * &root).enforce_equal(&square)
    }
}

fn to_fp(f: &Fr) -> Fp {
    Fp::from_le_bytes_mod_order(&f.into_repr().to_bytes_le())
}

fn proof_of_square(root: u64) -> (Vec<u8>, Vec<u8>) {
    let rng = &mut test_rng();
    let circuit = Square {
        root: Fr::from(root),
        square: Fr::from(root * root),
    };
    let (pk, vk) = Groth16::<Bls12_381>::circuit_specific_setup(circuit, rng).unwrap();
    let circuit = Square {
        root: Fr::from(root),
        square: Fr::from(root * root),
    };
    let proof = Groth16::<Bls12_381>::prove(&pk, circuit, rng).unwrap();
    let mut vk_bytes = vec![];
    vk.serialize(&mut vk_bytes).unwrap();
    let mut proof_bytes = vec![];
    proof.serialize(&mut proof_bytes).unwrap();
    (vk_bytes, proof_bytes)
}

#[test]
fn verdict_on_a_real_proof() {
    let (vk, proof) = proof_of_square(7);
    assert_eq!(verify_proof(&vk, &to_fp(&Fr::from(49u64)), &proof), Some(true));
    assert_eq!(verify_proof(&vk, &to_fp(&Fr::from(50u64)), &proof), Some(false));
}

#[test]
fn verdict_on_what_cannot_be_read() {
    let (vk, proof) = proof_of_square(7);
    let instance = to_fp(&Fr::from(49u64));
    assert_eq!(verify_proof(&[], &instance, &proof), None);
    assert_eq!(verify_proof(&vk, &instance, &[]), None);
    assert_eq!(verify_proof(&vk[..vk.len() - 1], &instance, &proof), None);
    assert_eq!(verify_proof(&vk, &instance, &proof[..10]), None);
    assert_eq!(verify_proof(&proof, &instance, &vk), None);
}

// A server whose key for every depth is the one of the square circuit, so
// that a proof of a square root stands in for the proof of a coin.
fn server_with_key(vk: &[u8], height: usize) -> Server {
    let sig_params = Schnorr::setup();
    let (pk, sk) = Schnorr::keygen(&sig_params);
    let hasher = Poseidon::new(setup_params(Curve::Bls381, 3, 3).unwrap());
    let pp = PP {
        sig_params,
        hasher,
        pk,
        groth_pks: vec![vec![]; height + 1],
    };
    Server::new(pp, sk, vec![vk.to_vec(); height + 1])
}

#[test]
fn redeem_asks_the_verifier() {
    // a key whose first leaf is the square 49 cannot be had, so the coin
    // names as instance what its key gives, and the proof is one for 49
    let (vk, proof) = proof_of_square(7);
    let mut server = server_with_key(&vk, 2);
    let key = [3u8; 32];
    let leaves = GGM::new().expand(&key, 0);
    let instance = Fp::from_le_bytes_mod_order(&leaves[0]);
    let coin = Coin {
        denom: 2,
        key,
        instance_bytes: instance.serialize(),
        proof_bytes: proof.clone(),
    };
    assert_eq!(server.check_proofs(&vec![coin.clone()]), vec![Some(false)]);
    let rsp = server.redeem(RedeemRequest { coins: vec![coin] });
    assert!(!rsp.valid);
    assert!(!server.spent.contains(&instance));

    // the instance that the proof is for is accepted by the verifier, and
    // then refused because the key does not give it
    let coin = Coin {
        denom: 2,
        key,
        instance_bytes: to_fp(&Fr::from(49u64)).serialize(),
        proof_bytes: proof,
    };
    assert_eq!(server.check_proofs(&vec![coin.clone()]), vec![Some(true)]);
    let rsp = server.redeem(RedeemRequest { coins: vec![coin] });
    assert!(!rsp.valid);
}
