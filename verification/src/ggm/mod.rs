//! The GGM tree: a binary tree of 32-byte blocks in which every block gives
//! its two children through the generator. A block at depth `d` stands for
//! the `2^(L-d)` leaves below it, and whoever holds it can derive them all.

use vstd::prelude::*;
use vstd::arithmetic::power2::pow2;

use bit_vec::BitVec;

use crate::ggm::label::bit_vec_bits;
use crate::ggm::label::bits_msb;
use crate::ggm::label::label_bits;
use crate::ggm::label::label_from_bytes;
use crate::ggm::label::label_split_off;
use crate::ggm::prg::PRG;
use crate::ggm::prg::prg;
use crate::ggm::prg::prg_bit;

pub mod label;
pub mod laws;
pub mod prg;

verus! {

/// The block reached from `key` by taking the branches that `bits` names,
/// first bit first.
pub open spec fn ggm_eval(key: Seq<u8>, bits: Seq<bool>) -> Seq<u8>
    decreases bits.len(),
{
    if bits.len() == 0 {
        key
    } else {
        ggm_eval(prg_bit(key, bits[0]), bits.drop_first())
    }
}

/// The leaves at `depth` below `key`, from left to right.
pub open spec fn ggm_expand(key: Seq<u8>, depth: nat) -> Seq<Seq<u8>>
    decreases depth,
{
    if depth == 0 {
        seq![key]
    } else {
        ggm_expand(prg(key).0, (depth - 1) as nat) + ggm_expand(prg(key).1, (depth - 1) as nat)
    }
}

/// A list of blocks as byte strings.
pub open spec fn blocks_of(v: Seq<[u8; 32]>) -> Seq<Seq<u8>> {
    v.map_values(|b: [u8; 32]| b@)
}

/// The GGM tree over the generator.
pub struct GGM {
    pub prg: PRG,
}

impl GGM {
    pub fn new() -> (ggm: Self) {
        let prg = PRG::new();
        Self { prg }
    }

    /// The block that the label `x` leads to from `key`.
    pub fn eval(&self, key: &[u8; 32], x: &BitVec) -> (out: [u8; 32])
        ensures
            out@ == ggm_eval(key@, bit_vec_bits(*x)),
    {
        let bits = label_bits(x);
        let mut out = *key;
        let mut i: usize = 0;
        assert(bits@.skip(0) =~= bits@);
        while i < bits.len()
            invariant
                i <= bits@.len(),
                bits@ == bit_vec_bits(*x),
                ggm_eval(key@, bits@) == ggm_eval(out@, bits@.skip(i as int)),
            decreases bits@.len() - i,
        {
            proof {
                assert(bits@.skip(i as int).drop_first() =~= bits@.skip(i + 1));
            }
            self.prg.evalf(bits[i], &mut out);
            i += 1;
        }
        out
    }

    /// All leaves at `depth` below `key`, from left to right.
    pub fn expand(&self, key: &[u8; 32], depth: u8) -> (leaves: Vec<[u8; 32]>)
        requires
            pow2(depth as nat) <= usize::MAX,
        ensures
            blocks_of(leaves@) == ggm_expand(key@, depth as nat),
            leaves@.len() == pow2(depth as nat),
        decreases depth,
    {
        if depth == 0 {
            let mut leaves = Vec::new();
            leaves.push(*key);
            proof {
                vstd::arithmetic::power2::lemma2_to64();
                assert(blocks_of(leaves@) =~= seq![key@]);
            }
            leaves
        } else {
            let mut blocks = [[0u8; 32]; 2];
            self.prg.eval(key, &mut blocks);
            proof {
                vstd::arithmetic::power2::lemma_pow2_unfold(depth as nat);
            }
            let mut l_tree = self.expand(&blocks[0], depth - 1);
            let mut r_tree = self.expand(&blocks[1], depth - 1);
            let ghost left = blocks_of(l_tree@);
            let ghost right = blocks_of(r_tree@);
            l_tree.append(&mut r_tree);
            proof {
                assert(blocks_of(l_tree@) =~= left + right);
            }
            l_tree
        }
    }
}

/// The label of the `x`-th node from the left at depth `bv_len`: the lowest
/// `bv_len` bits of `x`, the most significant of them first.
pub fn u16_to_bv(x: u16, bv_len: usize) -> (bv: BitVec)
    requires
        bv_len <= 16,
    ensures
        bit_vec_bits(bv) == bits_msb(x as nat, bv_len as nat),
{
    let bytes: [u8; 2] = [(x >> 8) as u8, (x & 0xff) as u8];
    let mut bv = label_from_bytes(bytes.as_slice());
    let tail = label_split_off(&mut bv, 16 - bv_len);
    proof {
        laws::lemma_be_bytes_bits(x, bytes@, bv_len as nat);
    }
    tail
}

} // verus!
