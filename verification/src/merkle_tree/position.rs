//! Arithmetic on the positions of a tree stored level by level.

use vstd::prelude::*;
use vstd::arithmetic::power2::pow2;
use vstd::arithmetic::power2::lemma_pow2_pos;
use vstd::arithmetic::power2::lemma_pow2_strictly_increases;
use vstd::bits::lemma_u64_shl_is_mul;
use vstd::bits::lemma_u64_pow2_no_overflow;

verus! {

/// The position of the first leaf of a tree of the given height.
pub open spec fn first_leaf(height: nat) -> nat {
    (pow2(height) - 1) as nat
}

/// The number of nodes of a tree of the given height.
pub open spec fn tree_size(height: nat) -> nat {
    (2 * pow2(height) - 1) as nat
}

/// The parent of a position other than the root.
pub open spec fn spec_parent(index: nat) -> nat {
    ((index - 1) / 2) as nat
}

/// The other child of the parent of a position other than the root.
pub open spec fn spec_sibling(index: nat) -> nat {
    if index % 2 == 1 {
        index + 1
    } else {
        (index - 1) as nat
    }
}

/// Whether `k` is the smallest exponent with `2^k >= x`.
pub open spec fn is_ceil_log2(x: nat, k: nat) -> bool {
    x <= pow2(k) && (k > 0 ==> pow2((k - 1) as nat) < x)
}

/// Only one exponent gives a power of two.
pub proof fn lemma_pow2_injective(a: nat, b: nat)
    requires
        pow2(a) == pow2(b),
    ensures
        a == b,
{
    if a < b {
        lemma_pow2_strictly_increases(a, b);
    }
    if b < a {
        lemma_pow2_strictly_increases(b, a);
    }
}

/// A tree of one level and more below its root has one level more than its
/// height: `2^(n+1) - 1` nodes count up to `n + 1` bits.
pub proof fn lemma_levels_of_full_tree(n: nat, k: nat)
    requires
        n >= 1,
        is_ceil_log2((2 * pow2(n) - 1) as nat, k),
    ensures
        k == n + 1,
{
    vstd::arithmetic::power2::lemma_pow2_unfold(n + 1);
    vstd::arithmetic::power2::lemma_pow2_unfold(n);
    lemma_pow2_pos((n - 1) as nat);
    if k <= n {
        if k < n {
            lemma_pow2_strictly_increases(k, n);
        }
    }
    if k > n + 1 {
        if n + 1 < k - 1 {
            lemma_pow2_strictly_increases(n + 1, (k - 1) as nat);
        }
    }
}

/// `2^height` as a machine word.
pub fn two_to_the(height: usize) -> (r: u64)
    requires
        height < 64,
    ensures
        r == pow2(height as nat),
{
    proof {
        lemma_u64_pow2_no_overflow(height as nat);
        lemma_u64_shl_is_mul(1u64, height as u64);
    }
    1u64 << (height as u64)
}

/// The position, among all nodes, of the leaf with the given index.
pub fn convert_index_to_last_level(index: u64, height: usize) -> (r: u64)
    requires
        height < 64,
        index + pow2(height as nat) <= u64::MAX,
    ensures
        r == index + first_leaf(height as nat),
{
    proof {
        lemma_pow2_pos(height as nat);
    }
    index + two_to_the(height) - 1
}

/// The number of levels that a tree of `tree_size` nodes needs above its
/// last one: the smallest `k` with `2^k >= tree_size`.
pub fn tree_height(tree_size: u64) -> (r: u32)
    requires
        tree_size <= usize::MAX,
    ensures
        is_ceil_log2(tree_size as nat, r as nat),
{
    log2(tree_size)
}

/// Whether the position is the root's.
pub fn is_root(index: u64) -> (r: bool)
    ensures
        r == (index == 0),
{
    index == 0
}

/// The position of the left child.
pub fn left_child(index: u64) -> (r: u64)
    requires
        2 * index + 1 <= u64::MAX,
    ensures
        r == 2 * index + 1,
{
    2 * index + 1
}

/// The position of the right child.
pub fn right_child(index: u64) -> (r: u64)
    requires
        2 * index + 2 <= u64::MAX,
    ensures
        r == 2 * index + 2,
{
    2 * index + 2
}

/// The position of the sibling, which the root has not.
pub fn sibling(index: u64) -> (r: Option<u64>)
    requires
        index < u64::MAX,
    ensures
        r == if index == 0 {
            None
        } else {
            Some(spec_sibling(index as nat) as u64)
        },
{
    if index == 0 {
        None
    } else if is_left_child(index) {
        Some(index + 1)
    } else {
        Some(index - 1)
    }
}

/// Whether the position is a left child's: the odd ones are.
pub fn is_left_child(index: u64) -> (r: bool)
    ensures
        r == (index % 2 == 1),
{
    index % 2 == 1
}

/// The position of the parent, which the root has not.
pub fn parent(index: u64) -> (r: Option<u64>)
    ensures
        r == if index > 0 {
            Some(spec_parent(index as nat) as u64)
        } else {
            None
        },
{
    if index > 0 {
        assert((index - 1) as u64 >> 1 == (index - 1) as u64 / 2) by (bit_vector);
        Some((index - 1) >> 1)
    } else {
        None
    }
}

/// `ark_std::log2`: the number of bits it takes to count up to `number`,
/// that is the smallest `k` with `2^k >= number`, and 0 for 0.
#[verifier::external_body]
fn log2(number: u64) -> (r: u32)
    requires
        number <= usize::MAX,
    ensures
        is_ceil_log2(number as nat, r as nat),
{
    ark_std::log2(number as usize)
}

} // verus!
