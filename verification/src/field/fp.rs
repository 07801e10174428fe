//! The scalar field of BLS12-381, in which every Merkle node and commitment
//! lives.

use vstd::prelude::*;

use vstd::arithmetic::power2::pow2;
use vstd::arithmetic::power2::lemma_pow2_adds;
use vstd::arithmetic::power2::lemma_pow2_strictly_increases;
use vstd::arithmetic::power2::lemma2_to64;

use crate::field::le_value;
use crate::field::lemma_le_value_bound;
use crate::field::lemma_le_value_concat;
use crate::field::lemma_le_value_injective;
use crate::field::lemma_le_value_zeros;

use ark_ff::PrimeField;
use ark_ff::BigInteger;
use ark_ff::UniformRand;
use ark_serialize::CanonicalDeserialize;
use ark_serialize::CanonicalSerialize;

verus! {

/// The order of the field.
pub open spec fn fp_modulus() -> nat {
    0x73eda753299d7d483339d80809a1d80553bda402fffe5bfeffffffff00000001nat
}

/// Whether a byte string is the encoding of a field element: 32 bytes that
/// denote a number below the modulus.
pub open spec fn fp_canonical(bytes: Seq<u8>) -> bool {
    bytes.len() == 32 && le_value(bytes) < fp_modulus()
}

/// What a reader takes from the front of `bytes` as one field element: the
/// first 32 bytes, if there are as many and they are canonical.
pub open spec fn fp_decode(bytes: Seq<u8>) -> Option<Seq<u8>> {
    if bytes.len() >= 32 && fp_canonical(bytes.take(32)) {
        Some(bytes.take(32))
    } else {
        None
    }
}

/// An element of the field, held as its canonical encoding.
#[derive(Clone, Copy, Debug, PartialEq, Eq)]
pub struct Fp {
    pub(crate) bytes: [u8; 32],
}

impl View for Fp {
    type V = Seq<u8>;

    closed spec fn view(&self) -> Seq<u8> {
        self.bytes@
    }
}

impl DeepView for Fp {
    type V = Seq<u8>;

    open spec fn deep_view(&self) -> Seq<u8> {
        self@
    }
}

impl Fp {
    #[verifier::type_invariant]
    pub(crate) closed spec fn canonical(self) -> bool {
        fp_canonical(self.bytes@)
    }

    /// The number this element is, below the modulus.
    pub open spec fn value(&self) -> nat {
        le_value(self@)
    }

    /// The encoding of this element.
    pub fn to_bytes(&self) -> (out: [u8; 32])
        ensures
            out@ == self@,
            fp_canonical(out@),
    {
        proof {
            use_type_invariant(self);
        }
        self.bytes
    }

    /// Whether two elements are the same.
    pub fn equals(&self, other: &Fp) -> (same: bool)
        ensures
            same == (self@ == other@),
            same == (self.value() == other.value()),
    {
        proof {
            use_type_invariant(self);
            use_type_invariant(other);
        }
        let mut i: usize = 0;
        while i < 32
            invariant
                i <= 32,
                forall|j: int| 0 <= j < i ==> self.bytes@[j] == other.bytes@[j],
            decreases 32 - i,
        {
            if self.bytes[i] != other.bytes[i] {
                proof {
                    if self.value() == other.value() {
                        lemma_le_value_injective(self@, other@);
                    }
                }
                return false;
            }
            i += 1;
        }
        assert(self.bytes@ =~= other.bytes@);
        true
    }

    /// The element as two words: the number it is, is the first word plus
    /// `2^128` times the second.
    pub fn to_words(&self) -> (words: (u128, u128))
        ensures
            self.value() == words.0 + 0x1_0000_0000_0000_0000_0000_0000_0000_0000 * words.1,
            self.value() < fp_modulus(),
    {
        proof {
            use_type_invariant(self);
        }
        let low = le_word(&self.bytes, 0);
        let high = le_word(&self.bytes, 16);
        proof {
            let a = self.bytes@.subrange(0, 16);
            let b = self.bytes@.subrange(16, 32);
            assert(self.bytes@ =~= a + b);
            lemma_le_value_concat(a, b);
            lemma2_to64();
            lemma_pow2_adds(64, 64);
        }
        (low, high)
    }

    /// The additive identity.
    pub fn zero() -> (z: Fp)
        ensures
            z.value() == 0,
            fp_canonical(z@),
    {
        let bytes = [0u8; 32];
        proof {
            lemma_le_value_zeros(bytes@);
        }
        Fp { bytes }
    }

    /// The multiplicative identity.
    pub fn one() -> (o: Fp)
        ensures
            o.value() == 1,
            fp_canonical(o@),
    {
        let mut bytes = [0u8; 32];
        bytes[0] = 1;
        proof {
            lemma_le_value_zeros(bytes@.drop_first());
        }
        Fp { bytes }
    }

    /// The element that a little-endian byte string of any length denotes,
    /// reduced by the modulus.
    pub fn from_le_bytes_mod_order(bytes: &[u8]) -> (r: Fp)
        ensures
            fp_canonical(r@),
            r.value() == le_value(bytes@) % fp_modulus(),
    {
        reduce_le_bytes(bytes)
    }

    /// Reads an element from the first 32 bytes of `bytes`. Fails when there
    /// are fewer, or when they denote a number that is not below the modulus.
    pub fn deserialize(bytes: &[u8]) -> (r: Option<Fp>)
        ensures
            match r {
                Some(e) => fp_decode(bytes@) == Some(e@),
                None => fp_decode(bytes@) is None,
            },
    {
        read_canonical(bytes)
    }

    /// The 32 bytes that `deserialize` reads this element back from.
    pub fn serialize(&self) -> (out: Vec<u8>)
        ensures
            out@ == self@,
            fp_canonical(out@),
    {
        proof {
            use_type_invariant(self);
        }
        write_canonical(self)
    }

    /// The sum of two elements.
    pub fn add(&self, other: &Fp) -> (r: Fp)
        ensures
            fp_canonical(r@),
            r.value() == (self.value() + other.value()) % fp_modulus(),
    {
        field_add(self, other)
    }

    /// An element drawn uniformly at random.
    pub fn rand() -> (r: Fp)
        ensures
            fp_canonical(r@),
    {
        let r = sample();
        proof {
            use_type_invariant(&r);
        }
        r
    }
}

/// The number that the 16 bytes from `base` on denote.
fn le_word(bytes: &[u8; 32], base: usize) -> (word: u128)
    requires
        base + 16 <= 32,
    ensures
        word == le_value(bytes@.subrange(base as int, base + 16)),
{
    let mut word: u128 = 0;
    let mut i: usize = 16;
    proof {
        lemma2_to64();
        lemma_pow2_adds(64, 64);
        assert(bytes@.subrange(base + 16, base + 16).len() == 0);
    }
    while i > 0
        invariant
            i <= 16,
            base + 16 <= 32,
            word == le_value(bytes@.subrange(base + i, base + 16)),
            pow2(128) == 0x1_0000_0000_0000_0000_0000_0000_0000_0000,
        decreases i,
    {
        i -= 1;
        proof {
            let now = bytes@.subrange(base + i, base + 16);
            assert(now.drop_first() =~= bytes@.subrange(base + i + 1, base + 16));
            lemma_le_value_bound(now);
            if now.len() < 16 {
                lemma_pow2_strictly_increases(8 * now.len(), 128);
            }
        }
        word = word * 256 + bytes[base + i] as u128;
    }
    word
}

/// `ark_ff::PrimeField::from_le_bytes_mod_order` on the BLS12-381 scalar
/// field: the bytes are read as one little-endian number, of whatever
/// length, and reduced by the modulus.
#[verifier::external_body]
fn reduce_le_bytes(bytes: &[u8]) -> (r: Fp)
    ensures
        fp_canonical(r@),
        r.value() == le_value(bytes@) % fp_modulus(),
{
    let f = ark_bls12_381::Fr::from_le_bytes_mod_order(bytes);
    Fp { bytes: f.into_repr().to_bytes_le().try_into().unwrap() }
}

/// `ark_serialize::CanonicalDeserialize::deserialize` on the BLS12-381 scalar
/// field: it takes 32 bytes from the front of the input and accepts them only
/// as the little-endian form of a number below the modulus.
#[verifier::external_body]
fn read_canonical(bytes: &[u8]) -> (r: Option<Fp>)
    ensures
        match r {
            Some(e) => fp_decode(bytes@) == Some(e@),
            None => fp_decode(bytes@) is None,
        },
{
    match ark_bls12_381::Fr::deserialize(bytes) {
        Ok(f) => Some(Fp { bytes: f.into_repr().to_bytes_le().try_into().unwrap() }),
        Err(_) => None,
    }
}

/// `ark_serialize::CanonicalSerialize::serialize` on the BLS12-381 scalar
/// field: it writes the element as 32 little-endian bytes.
#[verifier::external_body]
fn write_canonical(e: &Fp) -> (out: Vec<u8>)
    ensures
        out@ == e@,
{
    let mut out = Vec::new();
    ark_bls12_381::Fr::from_le_bytes_mod_order(&e.bytes).serialize(&mut out).unwrap();
    out
}

/// Addition of `ark_bls12_381::Fr`: the sum of the two numbers, reduced by
/// the modulus.
#[verifier::external_body]
fn field_add(a: &Fp, b: &Fp) -> (r: Fp)
    ensures
        fp_canonical(r@),
        r.value() == (a.value() + b.value()) % fp_modulus(),
{
    let f = ark_bls12_381::Fr::from_le_bytes_mod_order(&a.bytes)
        + ark_bls12_381::Fr::from_le_bytes_mod_order(&b.bytes);
    Fp { bytes: f.into_repr().to_bytes_le().try_into().unwrap() }
}

/// `ark_ff::UniformRand::rand` on the BLS12-381 scalar field, fed by the
/// thread's random number generator. Nothing is known of which element comes
/// back.
#[verifier::external_body]
fn sample() -> Fp {
    let f = ark_bls12_381::Fr::rand(&mut rand::thread_rng());
    Fp { bytes: f.into_repr().to_bytes_le().try_into().unwrap() }
}

} // verus!
