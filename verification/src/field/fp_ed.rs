//! The scalar field of the JubJub curve, in which the secrets and the
//! responses of the signature scheme live.

use vstd::prelude::*;

use crate::field::le_value;
use crate::field::lemma_le_value_injective;

use ark_ff::PrimeField;
use ark_ff::BigInteger;
use ark_ff::UniformRand;
use ark_serialize::CanonicalDeserialize;
use ark_serialize::CanonicalSerialize;

verus! {

/// The order of the field.
pub open spec fn fp_ed_modulus() -> nat {
    0x0e7db4ea6533afa906673b0101343b00a6682093ccc81082d0970e5ed6f72cb7nat
}

/// Whether a byte string is the encoding of a field element: 32 bytes that
/// denote a number below the modulus.
pub open spec fn fp_ed_canonical(bytes: Seq<u8>) -> bool {
    bytes.len() == 32 && le_value(bytes) < fp_ed_modulus()
}

/// What a reader takes from the front of `bytes` as one field element: the
/// first 32 bytes, if there are as many and they are canonical.
pub open spec fn fp_ed_decode(bytes: Seq<u8>) -> Option<Seq<u8>> {
    if bytes.len() >= 32 && fp_ed_canonical(bytes.take(32)) {
        Some(bytes.take(32))
    } else {
        None
    }
}

/// An element of the field, held as its canonical encoding.
#[derive(Clone, Copy, Debug, PartialEq, Eq)]
pub struct FpEd {
    pub(crate) bytes: [u8; 32],
}

impl View for FpEd {
    type V = Seq<u8>;

    closed spec fn view(&self) -> Seq<u8> {
        self.bytes@
    }
}

impl DeepView for FpEd {
    type V = Seq<u8>;

    open spec fn deep_view(&self) -> Seq<u8> {
        self@
    }
}

impl FpEd {
    #[verifier::type_invariant]
    pub(crate) closed spec fn canonical(self) -> bool {
        fp_ed_canonical(self.bytes@)
    }

    /// The number this element is, below the modulus.
    pub open spec fn value(&self) -> nat {
        le_value(self@)
    }

    /// The encoding of this element.
    pub fn to_bytes(&self) -> (out: [u8; 32])
        ensures
            out@ == self@,
            fp_ed_canonical(out@),
    {
        proof {
            use_type_invariant(self);
        }
        self.bytes
    }

    /// Whether two elements are the same.
    pub fn equals(&self, other: &FpEd) -> (same: bool)
        ensures
            same == (self@ == other@),
            same == (self.value() == other.value()),
    {
        proof {
            use_type_invariant(self);
            use_type_invariant(other);
        }
        let mut i: usize = 0;
        while i < 32
            invariant
                i <= 32,
                forall|j: int| 0 <= j < i ==> self.bytes@[j] == other.bytes@[j],
            decreases 32 - i,
        {
            if self.bytes[i] != other.bytes[i] {
                proof {
                    if self.value() == other.value() {
                        lemma_le_value_injective(self@, other@);
                    }
                }
                return false;
            }
            i += 1;
        }
        assert(self.bytes@ =~= other.bytes@);
        true
    }

    /// The element that a little-endian byte string of any length denotes,
    /// reduced by the modulus.
    pub fn from_le_bytes_mod_order(bytes: &[u8]) -> (r: FpEd)
        ensures
            fp_ed_canonical(r@),
            r.value() == le_value(bytes@) % fp_ed_modulus(),
    {
        reduce_le_bytes(bytes)
    }

    /// Reads an element from the first 32 bytes of `bytes`. Fails when there
    /// are fewer, or when they denote a number that is not below the modulus.
    pub fn deserialize(bytes: &[u8]) -> (r: Option<FpEd>)
        ensures
            match r {
                Some(e) => fp_ed_decode(bytes@) == Some(e@),
                None => fp_ed_decode(bytes@) is None,
            },
    {
        read_canonical(bytes)
    }

    /// The 32 bytes that `deserialize` reads this element back from.
    pub fn serialize(&self) -> (out: Vec<u8>)
        ensures
            out@ == self@,
            fp_ed_canonical(out@),
    {
        proof {
            use_type_invariant(self);
        }
        write_canonical(self)
    }

    /// The product of two elements.
    pub fn mul(&self, other: &FpEd) -> (r: FpEd)
        ensures
            fp_ed_canonical(r@),
            r.value() == (self.value() * other.value()) % fp_ed_modulus(),
    {
        field_mul(self, other)
    }

    /// The difference of two elements.
    pub fn sub(&self, other: &FpEd) -> (r: FpEd)
        ensures
            fp_ed_canonical(r@),
            r.value() == (self.value() - other.value()) % (fp_ed_modulus() as int),
    {
        field_sub(self, other)
    }

    /// An element drawn uniformly at random.
    pub fn rand() -> (r: FpEd)
        ensures
            fp_ed_canonical(r@),
    {
        let r = sample();
        proof {
            use_type_invariant(&r);
        }
        r
    }
}

/// `ark_ff::PrimeField::from_le_bytes_mod_order` on the JubJub scalar
/// field: the bytes are read as one little-endian number, of whatever
/// length, and reduced by the modulus.
#[verifier::external_body]
fn reduce_le_bytes(bytes: &[u8]) -> (r: FpEd)
    ensures
        fp_ed_canonical(r@),
        r.value() == le_value(bytes@) % fp_ed_modulus(),
{
    let f = ark_ed_on_bls12_381::Fr::from_le_bytes_mod_order(bytes);
    FpEd { bytes: f.into_repr().to_bytes_le().try_into().unwrap() }
}

/// `ark_serialize::CanonicalDeserialize::deserialize` on the JubJub scalar
/// field: it takes 32 bytes from the front of the input and accepts them only
/// as the little-endian form of a number below the modulus.
#[verifier::external_body]
fn read_canonical(bytes: &[u8]) -> (r: Option<FpEd>)
    ensures
        match r {
            Some(e) => fp_ed_decode(bytes@) == Some(e@),
            None => fp_ed_decode(bytes@) is None,
        },
{
    match ark_ed_on_bls12_381::Fr::deserialize(bytes) {
        Ok(f) => Some(FpEd { bytes: f.into_repr().to_bytes_le().try_into().unwrap() }),
        Err(_) => None,
    }
}

/// `ark_serialize::CanonicalSerialize::serialize` on the JubJub scalar
/// field: it writes the element as 32 little-endian bytes.
#[verifier::external_body]
fn write_canonical(e: &FpEd) -> (out: Vec<u8>)
    ensures
        out@ == e@,
{
    let mut out = Vec::new();
    ark_ed_on_bls12_381::Fr::from_le_bytes_mod_order(&e.bytes).serialize(&mut out).unwrap();
    out
}

/// Multiplication of `ark_ed_on_bls12_381::Fr`: the product of the two
/// numbers, reduced by the modulus.
#[verifier::external_body]
fn field_mul(a: &FpEd, b: &FpEd) -> (r: FpEd)
    ensures
        fp_ed_canonical(r@),
        r.value() == (a.value() * b.value()) % fp_ed_modulus(),
{
    let f = ark_ed_on_bls12_381::Fr::from_le_bytes_mod_order(&a.bytes)
        * ark_ed_on_bls12_381::Fr::from_le_bytes_mod_order(&b.bytes);
    FpEd { bytes: f.into_repr().to_bytes_le().try_into().unwrap() }
}

/// Subtraction of `ark_ed_on_bls12_381::Fr`: the first number less the
/// second, brought back into the field by the modulus.
#[verifier::external_body]
fn field_sub(a: &FpEd, b: &FpEd) -> (r: FpEd)
    ensures
        fp_ed_canonical(r@),
        r.value() == (a.value() - b.value()) % (fp_ed_modulus() as int),
{
    let f = ark_ed_on_bls12_381::Fr::from_le_bytes_mod_order(&a.bytes)
        - ark_ed_on_bls12_381::Fr::from_le_bytes_mod_order(&b.bytes);
    FpEd { bytes: f.into_repr().to_bytes_le().try_into().unwrap() }
}

/// `ark_ff::UniformRand::rand` on the JubJub scalar field, fed by the
/// thread's random number generator. Nothing is known of which element comes
/// back.
#[verifier::external_body]
fn sample() -> FpEd {
    let f = ark_ed_on_bls12_381::Fr::rand(&mut rand::thread_rng());
    FpEd { bytes: f.into_repr().to_bytes_le().try_into().unwrap() }
}

} // verus!
