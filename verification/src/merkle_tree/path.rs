//! Membership paths and what they prove.

use vstd::prelude::*;
use vstd::arithmetic::power2::pow2;
use vstd::arithmetic::power2::lemma_pow2_unfold;
use vstd::arithmetic::power2::lemma2_to64;
use vstd::arithmetic::div_mod::lemma_add_mod_noop;
use vstd::arithmetic::div_mod::lemma_small_mod;

use crate::field::fp::Fp;
use crate::field::fp::fp_modulus;
use crate::merkle_tree::Error;
use crate::merkle_tree::MerkleError;
use crate::poseidon::Poseidon;

verus! {

/// The way from a leaf up to just below the root: at each level the left
/// and the right sibling, one of which lies on the way.
#[derive(Clone, Debug)]
pub struct Path {
    pub path: Vec<(Fp, Fp)>,
}

/// Hashes the pairs upwards from `prev`, which each pair in turn has to hold.
pub open spec fn fold_path(h: Poseidon, pairs: Seq<(Seq<u8>, Seq<u8>)>, prev: Seq<u8>) -> Result<
    Seq<u8>,
    Error,
>
    decreases pairs.len(),
{
    if pairs.len() == 0 {
        Ok(prev)
    } else if prev != pairs[0].0 && prev != pairs[0].1 {
        Err(Error::Merkle(MerkleError::InvalidPathNodes))
    } else {
        match h.digest_two(pairs[0].0, pairs[0].1) {
            None => Err(Error::Hasher),
            Some(d) => fold_path(h, pairs.drop_first(), d),
        }
    }
}

/// The root that a path leads to from a leaf: the leaf has to be in the
/// first pair, and every digest in the pair above it.
pub open spec fn spec_calculate_root(
    h: Poseidon,
    pairs: Seq<(Seq<u8>, Seq<u8>)>,
    leaf: Seq<u8>,
) -> Result<Seq<u8>, Error> {
    if pairs.len() > 0 && leaf != pairs[0].0 && leaf != pairs[0].1 {
        Err(Error::Merkle(MerkleError::InvalidLeaf))
    } else {
        fold_path(h, pairs, leaf)
    }
}

/// Whether a path leads from a leaf to the given root.
pub open spec fn spec_check_membership(
    h: Poseidon,
    pairs: Seq<(Seq<u8>, Seq<u8>)>,
    root: Seq<u8>,
    leaf: Seq<u8>,
) -> Result<bool, Error> {
    match spec_calculate_root(h, pairs, leaf) {
        Ok(r) => Ok(r == root),
        Err(e) => Err(e),
    }
}

/// The index that a path spells from the bottom up: a bit is set at each
/// level where the node on the way is not the left one of the pair.
pub open spec fn path_index(h: Poseidon, pairs: Seq<(Seq<u8>, Seq<u8>)>, prev: Seq<u8>) -> nat
    decreases pairs.len(),
{
    if pairs.len() == 0 {
        0
    } else {
        let bit: nat = if prev != pairs[0].0 {
            1
        } else {
            0
        };
        match h.digest_two(pairs[0].0, pairs[0].1) {
            None => bit,
            Some(d) => bit + 2 * path_index(h, pairs.drop_first(), d),
        }
    }
}

/// The index of a leaf as its path spells it, once the path has been found
/// to lead from the leaf to the root.
pub open spec fn spec_get_index(
    h: Poseidon,
    pairs: Seq<(Seq<u8>, Seq<u8>)>,
    root: Seq<u8>,
    leaf: Seq<u8>,
) -> Result<nat, Error> {
    match spec_check_membership(h, pairs, root, leaf) {
        Err(e) => Err(e),
        Ok(false) => Err(Error::Merkle(MerkleError::InvalidLeaf)),
        Ok(true) => Ok(path_index(h, pairs, leaf)),
    }
}

impl Path {
    /// The pairs of the path as byte strings.
    pub open spec fn pairs(&self) -> Seq<(Seq<u8>, Seq<u8>)> {
        crate::merkle_tree::pairs_of(self.path@)
    }

    /// Whether the path leads from `leaf` to `root_hash`.
    pub fn check_membership(&self, root_hash: &Fp, leaf: &Fp, hasher: &Poseidon) -> (r: Result<
        bool,
        Error,
    >)
        requires
            hasher.params.wf(),
        ensures
            r == spec_check_membership(*hasher, self.pairs(), root_hash@, leaf@),
    {
        match self.calculate_root(leaf, hasher) {
            Ok(root) => Ok(root.equals(root_hash)),
            Err(e) => Err(e),
        }
    }

    /// The root that the path leads to from `leaf`.
    pub fn calculate_root(&self, leaf: &Fp, hasher: &Poseidon) -> (r: Result<Fp, Error>)
        requires
            hasher.params.wf(),
        ensures
            match r {
                Ok(root) => spec_calculate_root(*hasher, self.pairs(), leaf@) == Ok::<
                    Seq<u8>,
                    Error,
                >(root@),
                Err(e) => spec_calculate_root(*hasher, self.pairs(), leaf@) == Err::<
                    Seq<u8>,
                    Error,
                >(e),
            },
    {
        let n = self.path.len();
        if n > 0 && !leaf.equals(&self.path[0].0) && !leaf.equals(&self.path[0].1) {
            return Err(Error::Merkle(MerkleError::InvalidLeaf));
        }
        let ghost pairs = self.pairs();
        let mut prev = *leaf;
        let mut i: usize = 0;
        assert(pairs.skip(0) =~= pairs);
        while i < n
            invariant
                i <= n,
                n == self.path@.len(),
                pairs == self.pairs(),
                hasher.params.wf(),
                spec_calculate_root(*hasher, pairs, leaf@) == fold_path(
                    *hasher,
                    pairs.skip(i as int),
                    prev@,
                ),
            decreases n - i,
        {
            let left = &self.path[i].0;
            let right = &self.path[i].1;
            proof {
                assert(pairs.skip(i as int)[0] == pairs[i as int]);
                assert(pairs.skip(i as int).drop_first() =~= pairs.skip(i + 1));
            }
            if !prev.equals(left) && !prev.equals(right) {
                return Err(Error::Merkle(MerkleError::InvalidPathNodes));
            }
            match hasher.hash_two(left, right) {
                Ok(d) => {
                    prev = d;
                },
                Err(_) => {
                    return Err(Error::Hasher);
                },
            }
            i += 1;
        }
        Ok(prev)
    }

    /// The index of `leaf` in the tree of `root_hash`, read off the path once
    /// the path has been checked to lead from the one to the other.
    pub fn get_index(&self, root_hash: &Fp, leaf: &Fp, hasher: &Poseidon) -> (r: Result<Fp, Error>)
        requires
            hasher.params.wf(),
        ensures
            match r {
                Ok(index) => {
                    &&& spec_get_index(*hasher, self.pairs(), root_hash@, leaf@) is Ok
                    &&& index.value() == spec_get_index(
                        *hasher,
                        self.pairs(),
                        root_hash@,
                        leaf@,
                    )->Ok_0 % fp_modulus()
                },
                Err(e) => spec_get_index(*hasher, self.pairs(), root_hash@, leaf@) == Err::<
                    nat,
                    Error,
                >(e),
            },
    {
        match self.check_membership(root_hash, leaf, hasher) {
            Err(e) => {
                return Err(e);
            },
            Ok(false) => {
                return Err(Error::Merkle(MerkleError::InvalidLeaf));
            },
            Ok(true) => {},
        }
        let ghost pairs = self.pairs();
        let ghost total = path_index(*hasher, pairs, leaf@);
        let ghost mut acc: nat = 0;
        let n = self.path.len();
        let mut prev = *leaf;
        let mut index = Fp::zero();
        let mut twopower = Fp::one();
        let mut i: usize = 0;
        proof {
            assert(pairs.skip(0) =~= pairs);
            lemma2_to64();
            lemma_small_mod(1, fp_modulus());
            lemma_small_mod(0, fp_modulus());
        }
        while i < n
            invariant
                i <= n,
                n == self.path@.len(),
                pairs == self.pairs(),
                hasher.params.wf(),
                spec_get_index(*hasher, pairs, root_hash@, leaf@) == Ok::<nat, Error>(total),
                fold_path(*hasher, pairs.skip(i as int), prev@) is Ok,
                total == acc + pow2(i as nat) * path_index(*hasher, pairs.skip(i as int), prev@),
                index.value() == acc % fp_modulus(),
                twopower.value() == pow2(i as nat) % fp_modulus(),
            decreases n - i,
        {
            let left = &self.path[i].0;
            let right = &self.path[i].1;
            let ghost rest = pairs.skip(i as int);
            proof {
                assert(rest[0] == pairs[i as int]);
                assert(rest.drop_first() =~= pairs.skip(i + 1));
                lemma_pow2_unfold((i + 1) as nat);
            }
            let ghost bit: nat = if prev@ != left@ {
                1
            } else {
                0
            };
            if !prev.equals(left) {
                proof {
                    lemma_add_mod_noop(acc as int, pow2(i as nat) as int, fp_modulus() as int);
                }
                index = index.add(&twopower);
            }
            proof {
                lemma_add_mod_noop(
                    pow2(i as nat) as int,
                    pow2(i as nat) as int,
                    fp_modulus() as int,
                );
            }
            twopower = twopower.add(&twopower);
            match hasher.hash_two(left, right) {
                Ok(d) => {
                    proof {
                        let tail = path_index(*hasher, pairs.skip(i + 1), d@);
                        assert(path_index(*hasher, rest, prev@) == bit + 2 * tail);
                        assert(pow2(i as nat) * (bit + 2 * tail) == pow2(i as nat) * bit + pow2(
                            (i + 1) as nat,
                        ) * tail) by (nonlinear_arith)
                            requires
                                pow2((i + 1) as nat) == 2 * pow2(i as nat),
                        ;
                        acc = acc + pow2(i as nat) * bit;
                    }
                    prev = d;
                },
                Err(_) => {
                    return Err(Error::Hasher);
                },
            }
            i += 1;
        }
        proof {
            assert(pairs.skip(n as int).len() == 0);
            assert(path_index(*hasher, pairs.skip(n as int), prev@) == 0);
            assert(total == acc) by (nonlinear_arith)
                requires
                    total == acc + pow2(n as nat) * 0,
            ;
        }
        Ok(index)
    }
}

} // verus!
