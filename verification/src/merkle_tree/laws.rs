//! What holds of every tree and every path taken from it.

use vstd::prelude::*;
use vstd::arithmetic::power2::pow2;

use vstd::arithmetic::power2::lemma_pow2_pos;
use vstd::arithmetic::power2::lemma_pow2_unfold;
use vstd::arithmetic::power2::lemma_pow2_strictly_increases;
use vstd::arithmetic::power2::lemma2_to64;

use crate::merkle_tree::Error;
use crate::merkle_tree::MerkleError;
use crate::merkle_tree::is_tree_of;
use crate::merkle_tree::node_at;
use crate::merkle_tree::tree_path;
use crate::merkle_tree::path::fold_path;
use crate::merkle_tree::path::spec_check_membership;
use crate::merkle_tree::position::first_leaf;
use crate::merkle_tree::position::spec_parent;
use crate::merkle_tree::position::tree_size;
use crate::poseidon::Poseidon;

verus! {

/// A digest that fails anywhere in the tree leaves the root without a value.
pub proof fn lemma_failure_reaches_root(h: Poseidon, leaves: Seq<Seq<u8>>, height: nat, pos: nat)
    requires
        pos + 1 < 2 * pow2(height),
        node_at(h, leaves, height, pos) is None,
    ensures
        node_at(h, leaves, height, 0) is None,
    decreases pos,
{
    if pos > 0 {
        let up = spec_parent(pos);
        assert(pos == 2 * up + 1 || pos == 2 * up + 2);
        assert(up + 1 < pow2(height));
        lemma_failure_reaches_root(h, leaves, height, up);
    }
}

/// The index of the leaf that shares its parent with the leaf at `i`.
pub open spec fn sibling_leaf(i: nat) -> nat {
    if i % 2 == 0 {
        i + 1
    } else {
        (i - 1) as nat
    }
}

/// Every position of a tree fits a machine word with room to spare.
proof fn lemma_tree_fits(height: nat)
    requires
        height <= 32,
    ensures
        1 <= pow2(height) <= 0x1_0000_0000,
        tree_size(height) < 0x2_0000_0000,
{
    lemma2_to64();
    lemma_pow2_pos(height);
    if height < 32 {
        lemma_pow2_strictly_increases(height, 32);
    }
}

/// Hashing the path of any node upwards from that node gives the root.
pub proof fn lemma_path_folds_to_root(
    h: Poseidon,
    leaves: Seq<Seq<u8>>,
    height: nat,
    nodes: Map<u64, Seq<u8>>,
    pos: nat,
)
    requires
        is_tree_of(nodes, h, leaves, height),
        pos < tree_size(height),
    ensures
        fold_path(h, tree_path(nodes, pos), nodes[pos as u64]) == Ok::<Seq<u8>, Error>(nodes[0]),
    decreases pos,
{
    lemma_tree_fits(height);
    if pos > 0 {
        let up = spec_parent(pos);
        let left = (2 * up + 1) as u64;
        let right = (2 * up + 2) as u64;
        let path = tree_path(nodes, pos);
        assert(pos == left || pos == right);
        assert(up + 1 < pow2(height));
        assert(nodes.contains_key(left) && nodes.contains_key(right) && nodes.contains_key(
            up as u64,
        ));
        assert(node_at(h, leaves, height, left as nat) == Some(nodes[left]));
        assert(node_at(h, leaves, height, right as nat) == Some(nodes[right]));
        assert(node_at(h, leaves, height, up) == Some(nodes[up as u64]));
        assert(h.digest_two(nodes[left], nodes[right]) == Some(nodes[up as u64]));
        assert(path[0] == (nodes[left], nodes[right]));
        assert(path.drop_first() =~= tree_path(nodes, up));
        lemma_path_folds_to_root(h, leaves, height, nodes, up);
    }
}

/// The path of a leaf leads from that leaf to the root of its tree.
pub proof fn lemma_membership_sound(
    h: Poseidon,
    leaves: Seq<Seq<u8>>,
    height: nat,
    nodes: Map<u64, Seq<u8>>,
    i: nat,
)
    requires
        is_tree_of(nodes, h, leaves, height),
        i < pow2(height),
    ensures
        spec_check_membership(
            h,
            tree_path(nodes, first_leaf(height) + i),
            nodes[0],
            leaves[i as int],
        ) == Ok::<bool, Error>(true),
{
    lemma_tree_fits(height);
    let pos = first_leaf(height) + i;
    let path = tree_path(nodes, pos);
    assert(nodes.contains_key(pos as u64));
    assert(node_at(h, leaves, height, pos) == Some(nodes[pos as u64]));
    assert(nodes[pos as u64] == leaves[i as int]);
    lemma_path_folds_to_root(h, leaves, height, nodes, pos);
    if pos > 0 {
        let up = spec_parent(pos);
        assert(pos == 2 * up + 1 || pos == 2 * up + 2);
        assert(path[0] == (nodes[(2 * up + 1) as u64], nodes[(2 * up + 2) as u64]));
    } else {
        assert(path.len() == 0);
    }
}

/// The path of a leaf is refused for every value that is neither that leaf
/// nor the one beside it: it leads from no other value to the root.
pub proof fn lemma_membership_rejects(
    h: Poseidon,
    leaves: Seq<Seq<u8>>,
    height: nat,
    nodes: Map<u64, Seq<u8>>,
    i: nat,
    j: nat,
)
    requires
        is_tree_of(nodes, h, leaves, height),
        i < pow2(height),
        j < pow2(height),
        leaves[j as int] != leaves[i as int],
        leaves[j as int] != leaves[sibling_leaf(i) as int],
    ensures
        height >= 1,
        spec_check_membership(
            h,
            tree_path(nodes, first_leaf(height) + i),
            nodes[0],
            leaves[j as int],
        ) == Err::<bool, Error>(Error::Merkle(MerkleError::InvalidLeaf)),
{
    lemma_tree_fits(height);
    if height == 0 {
        lemma2_to64();
        assert(i == 0 && j == 0);
    } else {
        lemma_pow2_unfold(height);
        let pos = first_leaf(height) + i;
        let up = spec_parent(pos);
        let left = (2 * up + 1) as u64;
        let right = (2 * up + 2) as u64;
        let path = tree_path(nodes, pos);
        assert(pos == left || pos == right);
        assert(path[0] == (nodes[left], nodes[right]));
        assert(nodes.contains_key(left) && nodes.contains_key(right));
        assert(node_at(h, leaves, height, left as nat) == Some(nodes[left]));
        assert(node_at(h, leaves, height, right as nat) == Some(nodes[right]));
        if i % 2 == 0 {
            assert(pos == left);
            assert(nodes[left] == leaves[i as int]);
            assert(nodes[right] == leaves[(i + 1) as int]);
        } else {
            assert(pos == right);
            assert(nodes[right] == leaves[i as int]);
            assert(nodes[left] == leaves[i - 1]);
        }
    }
}

} // verus!
