//! Labels of the GGM tree as bit vectors: the path from the root to a node,
//! first branch first.

use vstd::prelude::*;
use vstd::arithmetic::power2::pow2;

use bit_vec::BitVec;

verus! {

/// `bit_vec::BitVec`, of which only what the wrappers below state is known.
#[verifier::external_type_specification]
#[verifier::external_body]
#[verifier::reject_recursive_types(B)]
pub struct ExBitVec<B>(BitVec<B>);

/// The bits that a bit vector holds, in the order of their indices.
pub uninterp spec fn bit_vec_bits(bv: BitVec<u32>) -> Seq<bool>;

/// The bits of a byte string, the most significant bit of each byte first.
pub open spec fn bytes_to_bits_msb(bytes: Seq<u8>) -> Seq<bool> {
    Seq::new(8 * bytes.len(), |i: int| (bytes[i / 8] >> ((7 - i % 8) as u8)) & 1 == 1)
}

/// The lowest `len` bits of `i`, the most significant of them first: the
/// label of the `i`-th node from the left at depth `len`.
pub open spec fn bits_msb(i: nat, len: nat) -> Seq<bool> {
    Seq::new(len, |j: int| (i / pow2((len - 1 - j) as nat)) % 2 == 1)
}

/// `bit_vec::BitVec`'s iterator, collected: every bit in the order of its
/// index.
#[verifier::external_body]
pub(crate) fn label_bits(x: &BitVec) -> (bits: Vec<bool>)
    ensures
        bits@ == bit_vec_bits(*x),
{
    x.iter().collect()
}

/// `bit_vec::BitVec::from_bytes`: each byte becomes eight bits, its most
/// significant bit first.
#[verifier::external_body]
pub(crate) fn label_from_bytes(bytes: &[u8]) -> (bv: BitVec)
    requires
        8 * bytes@.len() <= usize::MAX,
    ensures
        bit_vec_bits(bv) == bytes_to_bits_msb(bytes@),
{
    BitVec::from_bytes(bytes)
}

/// `bit_vec::BitVec::split_off`: the vector keeps its first `at` bits and
/// the rest is handed out.
#[verifier::external_body]
pub(crate) fn label_split_off(bv: &mut BitVec, at: usize) -> (tail: BitVec)
    requires
        at <= bit_vec_bits(*old(bv)).len(),
    ensures
        bit_vec_bits(*final(bv)) == bit_vec_bits(*old(bv)).take(at as int),
        bit_vec_bits(tail) == bit_vec_bits(*old(bv)).skip(at as int),
{
    bv.split_off(at)
}

} // verus!
