//! A Merkle tree of fixed height over field elements, stored by position,
//! and the membership paths it hands out.
//!
//! Positions count the nodes level by level from the root, which is 0; the
//! children of `p` are `2p + 1` and `2p + 2`, and the leaves of a tree of
//! height `n` start at `2^n - 1`. A path lists, from the leaf level up to
//! just below the root, the pair of siblings of which one lies on the way.

use vstd::prelude::*;
use vstd::arithmetic::power2::pow2;
use vstd::arithmetic::power2::lemma_pow2_pos;
use vstd::arithmetic::power2::lemma_pow2_unfold;
use vstd::arithmetic::power2::lemma_pow2_strictly_increases;
use vstd::arithmetic::power2::lemma2_to64;

use std::collections::BTreeMap;

use crate::field::fp::Fp;
use crate::merkle_tree::position::convert_index_to_last_level;
use crate::merkle_tree::position::first_leaf;
use crate::merkle_tree::position::is_left_child;
use crate::merkle_tree::position::is_root;
use crate::merkle_tree::position::parent;
use crate::merkle_tree::position::sibling;
use crate::merkle_tree::position::spec_parent;
use crate::merkle_tree::position::tree_size;
use crate::merkle_tree::position::left_child;
use crate::merkle_tree::position::right_child;
use crate::merkle_tree::position::tree_height;
use crate::merkle_tree::position::two_to_the;
use crate::poseidon::Poseidon;

pub use crate::merkle_tree::path::Path;

pub mod laws;
pub mod path;
pub mod position;

verus! {

/// What a path can be refused for.
#[derive(Clone, Copy, Debug, PartialEq, Eq, Structural)]
pub enum MerkleError {
    /// The leaf is not in the tree or the path.
    InvalidLeaf,
    /// The nodes of the path do not follow from one another.
    InvalidPathNodes,
}

impl MerkleError {
    /// The message of the error.
    pub fn message(&self) -> (msg: String)
        ensures
            msg@ == match self {
                MerkleError::InvalidLeaf => "Invalid leaf"@,
                MerkleError::InvalidPathNodes => "Path nodes are not consistent"@,
            },
    {
        match self {
            MerkleError::InvalidLeaf => "Invalid leaf".to_owned(),
            MerkleError::InvalidPathNodes => "Path nodes are not consistent".to_owned(),
        }
    }
}

/// Why an operation on a tree or a path failed.
#[derive(Clone, Copy, Debug, PartialEq, Eq, Structural)]
pub enum Error {
    /// The path or the leaf is not acceptable.
    Merkle(MerkleError),
    /// The hasher refused a pair of nodes.
    Hasher,
}

/// The value of the node at `pos` in the tree of the given height over
/// `leaves`: a leaf itself on the last level, the digest of the two children
/// above it, and `None` outside the tree or where a digest below fails.
pub open spec fn node_at(h: Poseidon, leaves: Seq<Seq<u8>>, height: nat, pos: nat) -> Option<
    Seq<u8>,
>
    decreases 2 * pow2(height) - pos,
{
    if pos + 1 >= 2 * pow2(height) {
        None
    } else if pos + 1 >= pow2(height) {
        if pos + 1 - pow2(height) < leaves.len() {
            Some(leaves[pos + 1 - pow2(height)])
        } else {
            None
        }
    } else {
        match (node_at(h, leaves, height, 2 * pos + 1), node_at(h, leaves, height, 2 * pos + 2)) {
            (Some(l), Some(r)) => h.digest_two(l, r),
            _ => None,
        }
    }
}

/// Whether `nodes` holds exactly the nodes of the tree of the given height
/// over `leaves`, each at its position.
pub open spec fn is_tree_of(
    nodes: Map<u64, Seq<u8>>,
    h: Poseidon,
    leaves: Seq<Seq<u8>>,
    height: nat,
) -> bool {
    &&& height <= 32
    &&& leaves.len() == pow2(height)
    &&& forall|p: u64| #[trigger] nodes.contains_key(p) <==> p < tree_size(height)
    &&& forall|p: u64|
        p < tree_size(height) ==> node_at(h, leaves, height, p as nat) == Some(#[trigger] nodes[p])
}

/// The pairs on the way from `pos` up to just below the root, bottom first:
/// at each step the left and the right child of the parent.
pub open spec fn tree_path(nodes: Map<u64, Seq<u8>>, pos: nat) -> Seq<(Seq<u8>, Seq<u8>)>
    decreases pos,
{
    if pos == 0 {
        seq![]
    } else {
        let up = spec_parent(pos);
        seq![(nodes[(2 * up + 1) as u64], nodes[(2 * up + 2) as u64])] + tree_path(nodes, up)
    }
}

/// Whether a batch holds a leaf for every index of a tree of the given
/// height and for no other.
pub open spec fn full_batch(leaves: Map<u32, Fp>, height: nat) -> bool {
    &&& height <= 32
    &&& leaves.dom().finite()
    &&& leaves.dom().len() == pow2(height)
    &&& forall|k: u32| #[trigger] leaves.contains_key(k) <==> k < pow2(height)
}

/// The leaves of a full batch in the order of their indices.
pub open spec fn batch_leaves(leaves: Map<u32, Fp>, height: nat) -> Seq<Seq<u8>> {
    Seq::new(pow2(height), |i: int| leaves[i as u32]@)
}

/// The pairs of a vector of siblings as byte strings.
pub open spec fn pairs_of(v: Seq<(Fp, Fp)>) -> Seq<(Seq<u8>, Seq<u8>)> {
    v.map_values(|p: (Fp, Fp)| (p.0@, p.1@))
}

/// A Merkle tree of a fixed height, stored as a map from positions to nodes.
pub struct SparseMerkleTree {
    /// The nodes by position.
    pub tree: BTreeMap<u64, Fp>,
    /// The number of levels below the root.
    pub height: usize,
}

impl SparseMerkleTree {
    /// The nodes as byte strings.
    pub open spec fn nodes(&self) -> Map<u64, Seq<u8>> {
        self.tree@.map_values(|e: Fp| e@)
    }

    /// Whether the tree holds every node of its height.
    pub open spec fn complete(&self) -> bool {
        &&& self.height <= 32
        &&& forall|p: u64|
            p < tree_size(self.height as nat) ==> #[trigger] self.tree@.contains_key(p)
    }

    /// Puts a full batch of leaves on the last level and hashes every level
    /// above it anew.
    ///
    /// Fails only where the hasher refuses a pair of nodes; the tree then
    /// holds the leaves and the levels hashed so far.
    pub fn insert_batch(&mut self, leaves: &BTreeMap<u32, Fp>, hasher: &Poseidon) -> (r: Result<
        (),
        Error,
    >)
        requires
            hasher.params.wf(),
            full_batch(leaves@, old(self).height as nat),
            forall|p: u64|
                old(self).tree@.contains_key(p) ==> p < tree_size(old(self).height as nat),
        ensures
            final(self).height == old(self).height,
            r is Ok <==> node_at(
                *hasher,
                batch_leaves(leaves@, old(self).height as nat),
                old(self).height as nat,
                0,
            ) is Some,
            r is Ok ==> is_tree_of(
                final(self).nodes(),
                *hasher,
                batch_leaves(leaves@, old(self).height as nat),
                old(self).height as nat,
            ),
            r matches Err(e) ==> e == Error::Hasher,
            hasher.params.hashes_pairs() ==> r is Ok,
    {
        let height = self.height;
        proof {
            lemma2_to64();
            lemma_pow2_pos(height as nat);
            if height < 32 {
                lemma_pow2_strictly_increases(height as nat, 32);
            }
        }
        let count: u64 = two_to_the(height);
        let first: u64 = count - 1;
        let ghost ls = batch_leaves(leaves@, height as nat);
        let mut i: u64 = 0;
        while i < count
            invariant
                i <= count,
                count == pow2(height as nat),
                1 <= count <= 0x1_0000_0000,
                first == count - 1,
                self.height == height,
                height == old(self).height,
                ls == batch_leaves(leaves@, height as nat),
                full_batch(leaves@, height as nat),
                forall|q: u64| self.tree@.contains_key(q) ==> q < tree_size(height as nat),
                forall|q: u64|
                    first <= q < first + i ==> #[trigger] self.tree@.contains_key(q)
                        && self.tree@[q]@ == ls[q - first],
            decreases count - i,
        {
            assert(leaves@.contains_key(i as u32));
            let leaf = *leaves.get(&(i as u32)).unwrap();
            assert(leaf@ == ls[i as int]);
            self.tree.insert(first + i, leaf);
            i += 1;
        }
        assert forall|q: u64| first <= q < tree_size(height as nat) implies node_at(
            *hasher,
            ls,
            height as nat,
            q as nat,
        ) == Some(self.tree@[q]@) && #[trigger] self.tree@.contains_key(q) by {
            assert(ls.len() == count);
            assert(q + 1 - pow2(height as nat) == q - first);
            assert(self.tree@.contains_key(q));
        }
        let mut p: u64 = first;
        while p > 0
            invariant
                p <= first,
                count == pow2(height as nat),
                1 <= count <= 0x1_0000_0000,
                first == count - 1,
                self.height == height,
                height == old(self).height,
                hasher.params.wf(),
                ls == batch_leaves(leaves@, height as nat),
                forall|q: u64| self.tree@.contains_key(q) ==> q < tree_size(height as nat),
                forall|q: u64|
                    p <= q < tree_size(height as nat) ==> #[trigger] self.tree@.contains_key(q)
                        && node_at(*hasher, ls, height as nat, q as nat) == Some(self.tree@[q]@),
            decreases p,
        {
            p = p - 1;
            let left_index = left_child(p);
            let right_index = right_child(p);
            assert(self.tree@.contains_key(left_index));
            assert(self.tree@.contains_key(right_index));
            let left = *self.tree.get(&left_index).unwrap();
            let right = *self.tree.get(&right_index).unwrap();
            assert(node_at(*hasher, ls, height as nat, (2 * p + 1) as nat) == Some(left@));
            assert(node_at(*hasher, ls, height as nat, (2 * p + 2) as nat) == Some(right@));
            assert(node_at(*hasher, ls, height as nat, p as nat) == hasher.digest_two(
                left@,
                right@,
            ));
            match hasher.hash_two(&left, &right) {
                Ok(d) => {
                    self.tree.insert(p, d);
                },
                Err(_) => {
                    proof {
                        laws::lemma_failure_reaches_root(*hasher, ls, height as nat, p as nat);
                    }
                    return Err(Error::Hasher);
                },
            }
        }
        proof {
            assert(self.tree@.contains_key(0));
            assert forall|q: u64| #[trigger]
                self.nodes().contains_key(q) <==> q < tree_size(height as nat) by {
                assert(self.nodes().contains_key(q) == self.tree@.contains_key(q));
            }
            assert forall|q: u64| q < tree_size(height as nat) implies node_at(
                *hasher,
                ls,
                height as nat,
                q as nat,
            ) == Some(#[trigger] self.nodes()[q]) by {
                assert(self.tree@.contains_key(q));
            }
        }
        Ok(())
    }

    /// Builds the tree over a full batch of leaves; the batch's size gives
    /// the height.
    pub fn new(leaves: &BTreeMap<u32, Fp>, hasher: &Poseidon) -> (r: Result<Self, Error>)
        requires
            hasher.params.wf(),
            exists|n: nat| full_batch(leaves@, n),
        ensures
            match r {
                Ok(smt) => {
                    &&& full_batch(leaves@, smt.height as nat)
                    &&& is_tree_of(
                        smt.nodes(),
                        *hasher,
                        batch_leaves(leaves@, smt.height as nat),
                        smt.height as nat,
                    )
                },
                Err(e) => {
                    &&& e == Error::Hasher
                    &&& forall|n: nat| #[trigger]
                        full_batch(leaves@, n) ==> node_at(
                            *hasher,
                            batch_leaves(leaves@, n),
                            n,
                            0,
                        ) is None
                },
            },
            hasher.params.hashes_pairs() ==> r is Ok,
    {
        let ghost n = choose|n: nat| full_batch(leaves@, n);
        let last_level_size = leaves.len();
        proof {
            lemma2_to64();
            if n < 32 {
                lemma_pow2_strictly_increases(n, 32);
            }
        }
        proof {
            lemma_pow2_pos(n);
        }
        let tree_size = 2 * (last_level_size as u64) - 1;
        let levels = tree_height(tree_size);
        let height: usize = if last_level_size == 1 {
            0
        } else {
            proof {
                position::lemma_levels_of_full_tree(n, levels as nat);
            }
            (levels - 1) as usize
        };
        proof {
            if last_level_size == 1 {
                position::lemma_pow2_injective(n, 0);
            }
            assert forall|m: nat| #[trigger] full_batch(leaves@, m) implies m == n by {
                position::lemma_pow2_injective(m, n);
            }
        }
        let tree: BTreeMap<u64, Fp> = BTreeMap::new();
        let mut smt = SparseMerkleTree { tree, height };
        match smt.insert_batch(leaves, hasher) {
            Ok(()) => Ok(smt),
            Err(e) => Err(e),
        }
    }

    /// Builds the tree over a full level of leaves, the first at index 0.
    pub fn new_sequential(leaves: &[Fp], hasher: &Poseidon) -> (r: Result<Self, Error>)
        requires
            hasher.params.wf(),
            exists|n: nat| n <= 32 && leaves@.len() == pow2(n),
        ensures
            match r {
                Ok(smt) => {
                    &&& leaves@.len() == pow2(smt.height as nat)
                    &&& is_tree_of(smt.nodes(), *hasher, leaves.deep_view(), smt.height as nat)
                },
                Err(e) => {
                    &&& e == Error::Hasher
                    &&& forall|n: nat|
                        leaves@.len() == #[trigger] pow2(n) ==> node_at(
                            *hasher,
                            leaves.deep_view(),
                            n,
                            0,
                        ) is None
                },
            },
            hasher.params.hashes_pairs() ==> r is Ok,
    {
        let ghost n = choose|n: nat| n <= 32 && leaves@.len() == pow2(n);
        proof {
            lemma2_to64();
            if n < 32 {
                lemma_pow2_strictly_increases(n, 32);
            }
        }
        let mut pairs: BTreeMap<u32, Fp> = BTreeMap::new();
        let mut i: usize = 0;
        while i < leaves.len()
            invariant
                i <= leaves@.len(),
                leaves@.len() <= 0x1_0000_0000,
                pairs@.dom().finite(),
                pairs@.dom().len() == i,
                forall|k: u32| #[trigger] pairs@.contains_key(k) <==> k < i,
                forall|k: u32| k < i ==> (#[trigger] pairs@[k])@ == leaves@[k as int]@,
            decreases leaves@.len() - i,
        {
            pairs.insert(i as u32, leaves[i]);
            i += 1;
        }
        proof {
            assert(full_batch(pairs@, n));
            assert(batch_leaves(pairs@, n) =~= leaves.deep_view());
            assert forall|m: nat| leaves@.len() == #[trigger] pow2(m) implies m == n by {
                position::lemma_pow2_injective(m, n);
            }
        }
        let r = Self::new(&pairs, hasher);
        proof {
            if r is Ok {
                position::lemma_pow2_injective(r->Ok_0.height as nat, n);
            }
        }
        r
    }

    /// Gives the path that leads from the leaf at `index` up to the root.
    pub fn generate_membership_proof(&self, index: u64) -> (path: Path)
        requires
            self.complete(),
            index < pow2(self.height as nat),
        ensures
            path.pairs() == tree_path(
                self.nodes(),
                (first_leaf(self.height as nat) + index) as nat,
            ),
            path.path@.len() == self.height,
    {
        let mut path: Vec<(Fp, Fp)> = Vec::new();
        proof {
            lemma2_to64();
            lemma_pow2_pos(self.height as nat);
            if self.height < 32 {
                lemma_pow2_strictly_increases(self.height as nat, 32);
            }
        }
        let tree_index = convert_index_to_last_level(index, self.height);
        let ghost nodes = self.nodes();
        let mut current_node = tree_index;
        let mut level: usize = 0;
        assert(pairs_of(path@) + tree_path(nodes, current_node as nat) =~= tree_path(
            nodes,
            tree_index as nat,
        ));
        while !is_root(current_node)
            invariant
                self.complete(),
                nodes == self.nodes(),
                level <= self.height,
                path@.len() == level,
                pow2(self.height as nat) <= 0x1_0000_0000,
                pow2((self.height - level) as nat) <= current_node + 1,
                current_node + 1 < 2 * pow2((self.height - level) as nat),
                pairs_of(path@) + tree_path(nodes, current_node as nat) == tree_path(
                    nodes,
                    tree_index as nat,
                ),
            decreases current_node,
        {
            proof {
                lemma2_to64();
                if level == self.height {
                    assert(false);
                }
                lemma_pow2_unfold((self.height - level) as nat);
                if level > 0 {
                    lemma_pow2_strictly_increases(
                        (self.height - level) as nat,
                        self.height as nat,
                    );
                }
                assert(current_node < tree_size(self.height as nat));
                assert(self.tree@.contains_key(current_node));
            }
            let sibling_node = sibling(current_node).unwrap();
            assert(self.tree@.contains_key(sibling_node));
            let current = *self.tree.get(&current_node).unwrap();
            let other = *self.tree.get(&sibling_node).unwrap();
            let ghost before = path@;
            if is_left_child(current_node) {
                path.push((current, other));
            } else {
                path.push((other, current));
            }
            proof {
                let up = spec_parent(current_node as nat);
                let pair = (nodes[(2 * up + 1) as u64], nodes[(2 * up + 2) as u64]);
                assert(pairs_of(path@) =~= pairs_of(before) + seq![pair]);
                assert(tree_path(nodes, current_node as nat) == seq![pair] + tree_path(nodes, up));
                assert(pairs_of(path@) + tree_path(nodes, up) =~= pairs_of(before) + tree_path(
                    nodes,
                    current_node as nat,
                ));
            }
            current_node = parent(current_node).unwrap();
            level += 1;
        }
        proof {
            assert(tree_path(nodes, 0) =~= seq![]);
            assert(pairs_of(path@) + Seq::<(Seq<u8>, Seq<u8>)>::empty() =~= pairs_of(path@));
            if level < self.height {
                lemma_pow2_strictly_increases(0, (self.height - level) as nat);
            }
        }
        Path { path }
    }

    /// Returns the root.
    pub fn root(&self) -> (r: Fp)
        requires
            self.tree@.contains_key(0),
        ensures
            r@ == self.nodes()[0],
    {
        let node = self.tree.get(&0);
        *node.unwrap()
    }
}

} // verus!
