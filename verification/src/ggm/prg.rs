//! The length-doubling generator under the GGM tree: a 32-byte block gives a
//! left and a right block, each the BLAKE3 digest of the block and one byte
//! that tells the two apart.

use vstd::prelude::*;

verus! {

/// The BLAKE3 digest of a byte string.
pub uninterp spec fn blake3_digest(input: Seq<u8>) -> Seq<u8>;

/// The byte that stands for a branch: 0 for the left, 1 for the right.
pub open spec fn branch_tag(bit: bool) -> u8 {
    if bit {
        1
    } else {
        0
    }
}

/// The block on one branch below `key`.
pub open spec fn prg_bit(key: Seq<u8>, bit: bool) -> Seq<u8> {
    blake3_digest(key.push(branch_tag(bit)))
}

/// The left and the right block below `key`.
pub open spec fn prg(key: Seq<u8>) -> (Seq<u8>, Seq<u8>) {
    (blake3_digest(key.push(0u8)), blake3_digest(key.push(1u8)))
}

/// Doubling a block gives the same two blocks as taking each branch by
/// itself.
pub proof fn lemma_prg_agrees(key: Seq<u8>)
    ensures
        prg(key) == (prg_bit(key, false), prg_bit(key, true)),
{
}

/// The generator; it has no state.
pub struct PRG {}

impl PRG {
    pub fn new() -> (prg: Self) {
        Self {  }
    }

    /// Writes the left block below `key` to `out_blocks[0]` and the right one
    /// to `out_blocks[1]`.
    pub fn eval(&self, key: &[u8; 32], out_blocks: &mut [[u8; 32]; 2])
        ensures
            final(out_blocks)[0]@ == prg(key@).0,
            final(out_blocks)[1]@ == prg(key@).1,
    {
        out_blocks[0] = digest_tagged(key, 0);
        out_blocks[1] = digest_tagged(key, 1);
    }

    /// Replaces `key` by the block on one branch below it: the right one
    /// where `bit` is set, else the left one.
    pub fn evalf(&self, bit: bool, key: &mut [u8; 32])
        ensures
            final(key)@ == prg_bit(old(key)@, bit),
    {
        if bit {
            *key = digest_tagged(key, 1);
        } else {
            *key = digest_tagged(key, 0);
        }
    }
}

/// `blake3::Hasher`, fed `key` and then the single byte `tag`, and
/// finalized: the 32-byte digest of the two written one after the other.
#[verifier::external_body]
fn digest_tagged(key: &[u8; 32], tag: u8) -> (out: [u8; 32])
    ensures
        out@ == blake3_digest(key@.push(tag)),
{
    let mut hasher = blake3::Hasher::new();
    hasher.update(key);
    hasher.update(&[tag]);
    *hasher.finalize().as_bytes()
}

} // verus!
