use ark_ff::{BigInteger, Field, FpParameters, PrimeField};
use ark_serialize::CanonicalSerialize;
use divtokens::field::fp::Fp;
use divtokens::field::fp_ed::FpEd;

const FP_MODULUS_LE: [u8; 32] = [
    0x01, 0x00, 0x00, 0x00, 0xff, 0xff, 0xff, 0xff, 0xfe, 0x5b, 0xfe, 0xff, 0x02, 0xa4, 0xbd, 0x53,
    0x05, 0xd8, 0xa1, 0x09, 0x08, 0xd8, 0x39, 0x33, 0x48, 0x7d, 0x9d, 0x29, 0x53, 0xa7, 0xed, 0x73,
];

const FP_ED_MODULUS_LE: [u8; 32] = [
    0xb7, 0x2c, 0xf7, 0xd6, 0x5e, 0x0e, 0x97, 0xd0, 0x82, 0x10, 0xc8, 0xcc, 0x93, 0x20, 0x68, 0xa6,
    0x00, 0x3b, 0x34, 0x01, 0x01, 0x3b, 0x67, 0x06, 0xa9, 0xaf, 0x33, 0x65, 0xea, 0xb4, 0x7d, 0x0e,
];

fn small(n: u8) -> [u8; 32] {
    let mut b = [0u8; 32];
    b[0] = n;
    b
}

#[test]
fn moduli_match_the_outside_fields() {
    assert_eq!(
        ark_bls12_381::FrParameters::MODULUS.to_bytes_le(),
        FP_MODULUS_LE.to_vec()
    );
    assert_eq!(
        ark_ed_on_bls12_381::FrParameters::MODULUS.to_bytes_le(),
        FP_ED_MODULUS_LE.to_vec()
    );
}

#[test]
fn zero_and_one() {
    assert_eq!(Fp::zero().to_bytes(), small(0));
    assert_eq!(Fp::one().to_bytes(), small(1));
    assert!(Fp::zero().equals(&Fp::zero()));
    assert!(!Fp::zero().equals(&Fp::one()));
}

#[test]
fn reduction_by_the_modulus() {
    assert_eq!(Fp::from_le_bytes_mod_order(&FP_MODULUS_LE), Fp::zero());
    let mut plus_one = FP_MODULUS_LE;
    plus_one[0] += 1;
    assert_eq!(Fp::from_le_bytes_mod_order(&plus_one), Fp::one());
    assert_eq!(Fp::from_le_bytes_mod_order(&[]), Fp::zero());
    assert_eq!(Fp::from_le_bytes_mod_order(&[5]).to_bytes(), small(5));
    // 2^256 mod p, as the field itself computes it
    let mut wide = [0u8; 33];
    wide[32] = 1;
    let expected = ark_bls12_381::Fr::from(2u64).pow([256u64]);
    assert_eq!(
        Fp::from_le_bytes_mod_order(&wide).to_bytes().to_vec(),
        expected.into_repr().to_bytes_le()
    );
    assert_eq!(
        FpEd::from_le_bytes_mod_order(&FP_ED_MODULUS_LE).to_bytes(),
        small(0)
    );
}

#[test]
fn deserialize_accepts_only_numbers_below_the_modulus() {
    assert_eq!(Fp::deserialize(&small(9)).unwrap().to_bytes(), small(9));
    assert!(Fp::deserialize(&FP_MODULUS_LE).is_none());
    let mut below = FP_MODULUS_LE;
    below[0] -= 1;
    assert_eq!(Fp::deserialize(&below).unwrap().to_bytes(), below);
    assert!(Fp::deserialize(&[0xff; 32]).is_none());
    assert!(Fp::deserialize(&[0u8; 31]).is_none());
    assert!(Fp::deserialize(&[]).is_none());
    // bytes behind the first 32 are not looked at
    let mut long = small(3).to_vec();
    long.extend_from_slice(&[0xff, 0xff]);
    assert_eq!(Fp::deserialize(&long).unwrap().to_bytes(), small(3));

    assert!(FpEd::deserialize(&FP_ED_MODULUS_LE).is_none());
    let mut below = FP_ED_MODULUS_LE;
    below[0] -= 1;
    assert_eq!(FpEd::deserialize(&below).unwrap().to_bytes(), below);
    assert!(FpEd::deserialize(&[0u8; 31]).is_none());
}

#[test]
fn serialize_is_what_the_outside_field_writes() {
    let f = ark_bls12_381::Fr::from(0x0102030405060708u64);
    let mut bytes = vec![];
    f.serialize(&mut bytes).unwrap();
    let e = Fp::deserialize(&bytes).unwrap();
    assert_eq!(e.serialize(), bytes);
    assert_eq!(e.to_bytes().to_vec(), bytes);
    assert_eq!(bytes[0], 0x08);
    assert_eq!(bytes[7], 0x01);
}

#[test]
fn addition_wraps_at_the_modulus() {
    let mut last = FP_MODULUS_LE;
    last[0] -= 1;
    let minus_one = Fp::deserialize(&last).unwrap();
    assert_eq!(minus_one.add(&Fp::one()), Fp::zero());
    assert_eq!(
        Fp::one().add(&Fp::one()).to_bytes(),
        small(2)
    );
    let two = Fp::one().add(&Fp::one());
    assert_eq!(minus_one.add(&two), Fp::one());
}

#[test]
fn scalar_arithmetic() {
    let three = FpEd::from_le_bytes_mod_order(&[3]);
    let five = FpEd::from_le_bytes_mod_order(&[5]);
    assert_eq!(three.mul(&five).to_bytes(), small(15));
    assert_eq!(five.sub(&three).to_bytes(), small(2));
    // 3 - 5 = q - 2
    let mut expected = FP_ED_MODULUS_LE;
    expected[0] -= 2;
    assert_eq!(three.sub(&five).to_bytes(), expected);
    let mut last = FP_ED_MODULUS_LE;
    last[0] -= 1;
    let minus_one = FpEd::deserialize(&last).unwrap();
    assert_eq!(minus_one.mul(&minus_one).to_bytes(), small(1));
    assert!(three.equals(&FpEd::from_le_bytes_mod_order(&[3])));
    assert!(!three.equals(&five));
    assert_eq!(three.serialize(), small(3).to_vec());
}

#[test]
fn words_split_at_bit_128() {
    let mut b = [0u8; 32];
    b[0] = 1;
    b[15] = 2;
    b[16] = 3;
    b[31] = 4;
    let e = Fp::deserialize(&b).unwrap();
    assert_eq!(e.to_words(), (1u128 + (2u128 << 120), 3u128 + (4u128 << 120)));
    assert_eq!(Fp::zero().to_words(), (0, 0));
}

#[test]
fn random_elements_differ() {
    let a = Fp::rand();
    let b = Fp::rand();
    assert_ne!(a, b);
    assert!(Fp::deserialize(&a.to_bytes()).is_some());
    let c = FpEd::rand();
    let d = FpEd::rand();
    assert_ne!(c, d);
    assert!(FpEd::deserialize(&c.to_bytes()).is_some());
}
