use ark_ec::{AffineCurve, ProjectiveCurve};
use ark_ed_on_bls12_381::{EdwardsAffine, Fr as Scalar};
use ark_ff::{BigInteger, PrimeField, ToBytes, UniformRand};
use ark_sponge::poseidon::{PoseidonParameters, PoseidonSponge};
use ark_sponge::CryptographicSponge;
use divtokens::field::fp::Fp;
use divtokens::field::fp_ed::FpEd;
use divtokens::poseidon::{setup_params, Curve};
use divtokens::schnorr::curve::Point;
use divtokens::schnorr::params::{poseidon, sponge_from};
use divtokens::schnorr::{
    append_block, blocks_equal, bytes_to_bits, Schnorr, SecretKey, Signature, SignatureScheme,
};

fn to_fp(f: &ark_bls12_381::Fr) -> Fp {
    Fp::from_le_bytes_mod_order(&f.into_repr().to_bytes_le())
}

fn to_ark(f: &Fp) -> ark_bls12_381::Fr {
    ark_bls12_381::Fr::from_le_bytes_mod_order(&f.to_bytes())
}

fn to_scalar(f: &FpEd) -> Scalar {
    Scalar::from_le_bytes_mod_order(&f.to_bytes())
}

fn to_affine(p: &Point) -> EdwardsAffine {
    EdwardsAffine::new(to_ark(&p.x()), to_ark(&p.y()))
}

fn written<T: ToBytes>(value: &T) -> Vec<u8> {
    let mut out = vec![];
    value.write(&mut out).unwrap();
    out
}

fn sign_and_verify(message: &Fp) {
    let parameters = Schnorr::setup();
    let (pk, sk) = Schnorr::keygen(&parameters);
    let sig = Schnorr::sign(&parameters, &sk, message);
    assert!(Schnorr::verify(&parameters, &pk, message, &sig));
}

fn failed_verification(message: &Fp, bad_message: &Fp) {
    let parameters = Schnorr::setup();
    let (pk, sk) = Schnorr::keygen(&parameters);
    let sig = Schnorr::sign(&parameters, &sk, message);
    assert!(!Schnorr::verify(&parameters, &pk, bad_message, &sig));
}

#[test]
fn mod_schnorr_signature_test() {
    let rng = &mut ark_std::test_rng();
    let message = to_fp(&ark_bls12_381::Fr::rand(rng));
    let bad_message = to_fp(&ark_bls12_381::Fr::rand(rng));
    sign_and_verify(&message);
    failed_verification(&message, &bad_message);
}

#[test]
fn generator_is_the_curve_s() {
    let g = Point::generator();
    assert_eq!(to_affine(&g), EdwardsAffine::prime_subgroup_generator());
    let parameters = Schnorr::setup();
    assert_eq!(parameters.generator, g);
    assert!(Point::new(g.x(), g.y()).is_some());
    assert!(Point::new(Fp::one(), Fp::one()).is_none());
    // the neutral element (0, 1) is on the curve
    assert!(Point::new(Fp::zero(), Fp::one()).is_some());
}

#[test]
fn point_arithmetic_is_the_curve_s() {
    let g = Point::generator();
    let g_ark = EdwardsAffine::prime_subgroup_generator();
    let k = FpEd::from_le_bytes_mod_order(&[77, 1, 2, 3]);
    let kg = g.mul(&k);
    assert_eq!(to_affine(&kg), g_ark.mul(to_scalar(&k)).into_affine());
    assert_ne!(kg, g);
    let sum = kg.add(&g);
    assert_eq!(
        to_affine(&sum),
        (g_ark.mul(to_scalar(&k)) + g_ark.into_projective()).into_affine()
    );
    assert_ne!(sum, kg);
    assert!(kg.equals(&kg));
    assert!(!kg.equals(&sum));
    let mut bytes = g.x().to_bytes().to_vec();
    bytes.extend_from_slice(&g.y().to_bytes());
    assert_eq!(g.to_bytes(), bytes);
    assert_eq!(g.to_bytes(), written(&g_ark));
}

#[test]
fn key_pair_is_secret_times_generator() {
    let parameters = Schnorr::setup();
    let secret = FpEd::from_le_bytes_mod_order(&[42]);
    let (pk, sk) = Schnorr::keygen_with(&parameters, secret);
    assert_eq!(sk.secret_key, secret);
    assert_eq!(sk.public_key, pk);
    assert_eq!(
        to_affine(&pk),
        EdwardsAffine::prime_subgroup_generator()
            .mul(Scalar::from(42u64))
            .into_affine()
    );
    let (pk2, sk2) = Schnorr::keygen(&parameters);
    assert_eq!(pk2, parameters.generator.mul(&sk2.secret_key));
    assert_eq!(sk2.public_key, pk2);
}

fn outside_sponge_params() -> PoseidonParameters<ark_bls12_381::Fr> {
    let table = setup_params(Curve::Bls381, 3, 3).unwrap();
    let ark: Vec<Vec<ark_bls12_381::Fr>> = (0..65)
        .map(|r| (0..3).map(|c| to_ark(&table.round_keys[3 * r + c])).collect())
        .collect();
    let mds: Vec<Vec<ark_bls12_381::Fr>> = table
        .mds_matrix
        .iter()
        .map(|row| row.iter().map(to_ark).collect())
        .collect();
    PoseidonParameters::new(8, 57, 3, mds, ark)
}

#[test]
fn signature_is_the_formula() {
    let parameters = Schnorr::setup();
    let secret = FpEd::from_le_bytes_mod_order(&[11, 22, 33]);
    let nonce = FpEd::from_le_bytes_mod_order(&[5, 6, 7, 8, 9]);
    let message = Fp::from_le_bytes_mod_order(&[1, 2, 3, 4]);
    let (pk, sk) = Schnorr::keygen_with(&parameters, secret);
    let sig = Schnorr::sign_with_nonce(&parameters, &sk, &message, &nonce);

    let g = EdwardsAffine::prime_subgroup_generator();
    let commitment = g.mul(to_scalar(&nonce)).into_affine();
    let mut hash_input = Vec::new();
    hash_input.extend_from_slice(&written(&commitment));
    hash_input.extend_from_slice(&written(&to_ark(&message)));
    let mut sponge = PoseidonSponge::<ark_bls12_381::Fr>::new(&outside_sponge_params());
    sponge.absorb(&hash_input);
    let digest = sponge.squeeze_bytes(32);
    assert_eq!(sig.verifier_challenge.to_vec(), digest);
    let e = Scalar::from_le_bytes_mod_order(&digest);
    let s = to_scalar(&nonce) - e * to_scalar(&secret);
    assert_eq!(to_scalar(&sig.prover_response), s);

    assert!(Schnorr::verify(&parameters, &pk, &message, &sig));
    // the same nonce gives the same signature
    assert_eq!(
        Schnorr::sign_with_nonce(&parameters, &sk, &message, &nonce),
        sig
    );
}

#[test]
fn tampered_signatures_are_refused() {
    let parameters = Schnorr::setup();
    let (pk, sk) = Schnorr::keygen(&parameters);
    let (other_pk, _) = Schnorr::keygen(&parameters);
    let message = Fp::from_le_bytes_mod_order(&[9; 20]);
    let sig = Schnorr::sign(&parameters, &sk, &message);
    assert!(Schnorr::verify(&parameters, &pk, &message, &sig));
    assert!(!Schnorr::verify(&parameters, &other_pk, &message, &sig));

    let mut challenge = sig.verifier_challenge;
    challenge[0] ^= 1;
    let bad = Signature {
        prover_response: sig.prover_response,
        verifier_challenge: challenge,
    };
    assert!(!Schnorr::verify(&parameters, &pk, &message, &bad));
    let bad = Signature {
        prover_response: sig.prover_response.mul(&FpEd::from_le_bytes_mod_order(&[2])),
        verifier_challenge: sig.verifier_challenge,
    };
    assert!(!Schnorr::verify(&parameters, &pk, &message, &bad));
    let stolen = SecretKey {
        secret_key: FpEd::from_le_bytes_mod_order(&[1]),
        public_key: pk,
    };
    let forged = Schnorr::sign(&parameters, &stolen, &message);
    assert!(!Schnorr::verify(&parameters, &pk, &message, &forged));
}

#[test]
fn sponge_constants_are_the_table_s() {
    let table = setup_params(Curve::Bls381, 3, 3).unwrap();
    let sponge = poseidon();
    assert_eq!(sponge.full_rounds, 8);
    assert_eq!(sponge.partial_rounds, 57);
    assert_eq!(sponge.alpha, 3);
    assert_eq!(sponge.ark.len(), 65);
    assert_eq!(sponge.mds, table.mds_matrix);
    assert_eq!(sponge.ark[0], table.round_keys[0..3].to_vec());
    assert_eq!(sponge.ark[64], table.round_keys[192..195].to_vec());
    let again = sponge_from(&table);
    assert_eq!(again.ark, sponge.ark);

    let input = vec![1u8, 2, 3];
    let mut outside = PoseidonSponge::<ark_bls12_381::Fr>::new(&outside_sponge_params());
    outside.absorb(&input);
    assert_eq!(
        sponge.squeeze_challenge(&input).to_vec(),
        outside.squeeze_bytes(32)
    );
    assert_ne!(
        sponge.squeeze_challenge(&input),
        sponge.squeeze_challenge(&vec![1u8, 2, 4])
    );
}

#[test]
fn bits_of_bytes() {
    assert_eq!(bytes_to_bits(&[]), Vec::<bool>::new());
    assert_eq!(
        bytes_to_bits(&[0b1000_0001]),
        vec![true, false, false, false, false, false, false, true]
    );
    let bits = bytes_to_bits(&[0x0f, 0xf0]);
    assert_eq!(bits.len(), 16);
    assert_eq!(&bits[0..4], &[false; 4]);
    assert_eq!(&bits[4..12], &[true; 8]);
    assert_eq!(&bits[12..16], &[false; 4]);
}

#[test]
fn blocks() {
    let a = [1u8; 32];
    let mut b = [1u8; 32];
    assert!(blocks_equal(&a, &b));
    b[31] = 2;
    assert!(!blocks_equal(&a, &b));
    let mut dest = vec![7u8];
    append_block(&mut dest, &b);
    assert_eq!(dest.len(), 33);
    assert_eq!(dest[0], 7);
    assert_eq!(&dest[1..], &b[..]);
}

#[test]
fn sum_satisfies_the_addition_law() {
    let d = <ark_ed_on_bls12_381::EdwardsParameters as ark_ec::TEModelParameters>::COEFF_D;
    let one = ark_bls12_381::Fr::from(1u64);
    let g = Point::generator();
    let a = g.mul(&FpEd::from_le_bytes_mod_order(&[3, 1]));
    let b = g.mul(&FpEd::from_le_bytes_mod_order(&[7, 2, 9]));
    for (p, q) in [(a, b), (a, a), (g, a), (Point::new(Fp::zero(), Fp::one()).unwrap(), b)] {
        let r = p.add(&q);
        let (x1, y1) = (to_ark(&p.x()), to_ark(&p.y()));
        let (x2, y2) = (to_ark(&q.x()), to_ark(&q.y()));
        let (x3, y3) = (to_ark(&r.x()), to_ark(&r.y()));
        let t = d * x1 * x2 * y1 * y2;
        assert_eq!(x3 * (one + t), x1 * y2 + y1 * x2);
        assert_eq!(y3 * (one - t), y1 * y2 + x1 * x2);
        assert!(Point::new(r.x(), r.y()).is_some());
    }
    // the neutral element changes nothing
    let zero = Point::new(Fp::zero(), Fp::one()).unwrap();
    assert_eq!(zero.add(&b), b);
}
