//! What holds of every key, depth and label.

use vstd::prelude::*;
use vstd::arithmetic::power2::pow2;
use vstd::arithmetic::power2::lemma_pow2_pos;
use vstd::arithmetic::power2::lemma_pow2_unfold;
use vstd::arithmetic::power2::lemma2_to64;
use vstd::arithmetic::power2::lemma_pow2_adds;
use vstd::arithmetic::div_mod::lemma_hoist_over_denominator;
use vstd::arithmetic::div_mod::lemma_basic_div;
use vstd::bits::lemma_u16_shr_is_div;

use crate::ggm::ggm_eval;
use crate::ggm::ggm_expand;
use crate::ggm::label::bits_msb;
use crate::ggm::label::bytes_to_bits_msb;
use crate::ggm::prg::prg;
use crate::ggm::prg::prg_bit;

verus! {

/// The two bytes of a 16-bit number, high byte first, read bit by bit from
/// the most significant one, end in the label of that number.
pub proof fn lemma_be_bytes_bits(x: u16, bytes: Seq<u8>, len: nat)
    requires
        len <= 16,
        bytes.len() == 2,
        bytes[0] == (x >> 8) as u8,
        bytes[1] == (x & 0xff) as u8,
    ensures
        bytes_to_bits_msb(bytes).skip(16 - len) == bits_msb(x as nat, len),
{
    let all = bytes_to_bits_msb(bytes);
    let tail = all.skip(16 - len);
    let want = bits_msb(x as nat, len);
    assert forall|j: int| 0 <= j < len implies tail[j] == want[j] by {
        let k = 16 - len + j;
        let e: u16 = (15 - k) as u16;
        assert(e == len - 1 - j);
        assert(tail[j] == all[k]);
        let hi = bytes[0];
        let lo = bytes[1];
        if k < 8 {
            let s: u8 = (7 - k) as u8;
            assert(k / 8 == 0 && k % 8 == k);
            assert(((hi >> s) & 1 == 1) == ((x >> e) & 1 == 1)) by (bit_vector)
                requires
                    hi == (x >> 8) as u8,
                    s < 8,
                    e == s + 8,
            ;
        } else {
            let s: u8 = (15 - k) as u8;
            assert(k / 8 == 1 && k % 8 == k - 8);
            assert(((lo >> s) & 1 == 1) == ((x >> e) & 1 == 1)) by (bit_vector)
                requires
                    lo == (x & 0xff) as u8,
                    s < 8,
                    e == s,
            ;
        }
        assert(((x >> e) & 1 == 1) == ((x >> e) % 2 == 1)) by (bit_vector);
        lemma_u16_shr_is_div(x, e);
    }
    assert(tail =~= want);
}

/// A tree of depth `depth` has `2^depth` leaves.
pub proof fn lemma_expand_len(key: Seq<u8>, depth: nat)
    ensures
        ggm_expand(key, depth).len() == pow2(depth),
    decreases depth,
{
    if depth == 0 {
        lemma2_to64();
    } else {
        lemma_pow2_unfold(depth);
        lemma_expand_len(prg(key).0, (depth - 1) as nat);
        lemma_expand_len(prg(key).1, (depth - 1) as nat);
    }
}

/// Leaving out the highest bit of a label leaves the label of the same
/// index within the half that the bit chose.
pub proof fn lemma_label_tail(i: nat, depth: nat)
    requires
        depth >= 1,
        i < pow2(depth),
    ensures
        bits_msb(i, depth)[0] == (i >= pow2((depth - 1) as nat)),
        i < pow2((depth - 1) as nat) ==> bits_msb(i, depth).drop_first() == bits_msb(
            i,
            (depth - 1) as nat,
        ),
        i >= pow2((depth - 1) as nat) ==> bits_msb(i, depth).drop_first() == bits_msb(
            (i - pow2((depth - 1) as nat)) as nat,
            (depth - 1) as nat,
        ),
{
    let half = pow2((depth - 1) as nat);
    let bits = bits_msb(i, depth);
    lemma_pow2_unfold(depth);
    lemma_pow2_pos((depth - 1) as nat);
    assert(bits[0] == ((i / half) % 2 == 1));
    if i < half {
        lemma_basic_div(i as int, half as int);
        assert(bits.drop_first() =~= bits_msb(i, (depth - 1) as nat));
    } else {
        let rest = (i - half) as nat;
        lemma_basic_div(rest as int, half as int);
        lemma_hoist_over_denominator(rest as int, 1, half);
        assert(i / half == 1);
        assert forall|j: int| 0 <= j < depth - 1 implies bits.drop_first()[j] == bits_msb(
            rest,
            (depth - 1) as nat,
        )[j] by {
            let e = (depth - 2 - j) as nat;
            let q = pow2((depth - 1 - e) as nat);
            lemma_pow2_pos(e);
            lemma_pow2_adds(e, (depth - 1 - e) as nat);
            lemma_pow2_unfold((depth - 1 - e) as nat);
            assert(half == pow2(e) * q);
            assert(q % 2 == 0);
            lemma_hoist_over_denominator(rest as int, q as int, pow2(e));
            assert(q * pow2(e) == pow2(e) * q) by (nonlinear_arith);
            assert(i / pow2(e) == rest / pow2(e) + q);
        }
        assert(bits.drop_first() =~= bits_msb(rest, (depth - 1) as nat));
    }
}

/// The `i`-th leaf of the tree below `key` is the block that the label of
/// `i` leads to from `key`.
pub proof fn lemma_expand_is_eval(key: Seq<u8>, depth: nat, i: nat)
    requires
        i < pow2(depth),
    ensures
        ggm_expand(key, depth)[i as int] == ggm_eval(key, bits_msb(i, depth)),
    decreases depth,
{
    if depth == 0 {
        lemma2_to64();
        assert(bits_msb(i, depth).len() == 0);
    } else {
        let half = pow2((depth - 1) as nat);
        let left = prg(key).0;
        let right = prg(key).1;
        lemma_pow2_unfold(depth);
        lemma_expand_len(left, (depth - 1) as nat);
        lemma_expand_len(right, (depth - 1) as nat);
        lemma_label_tail(i, depth);
        assert(bits_msb(i, depth).len() == depth);
        if i < half {
            assert(prg_bit(key, false) == left);
            lemma_expand_is_eval(left, (depth - 1) as nat, i);
        } else {
            assert(prg_bit(key, true) == right);
            lemma_expand_is_eval(right, (depth - 1) as nat, (i - half) as nat);
        }
    }
}

/// The leaves below a node of the tree are the leaves that follow from the
/// node's own block: whoever holds the block that the label of `i` at depth
/// `depth` leads to, holds the `i`-th run of `2^rest` leaves of the tree of
/// depth `depth + rest`, and nothing else.
pub proof fn lemma_subtree_leaves(key: Seq<u8>, depth: nat, rest: nat, i: nat)
    requires
        i < pow2(depth),
    ensures
        (i + 1) * pow2(rest) <= pow2(depth + rest),
        ggm_expand(ggm_eval(key, bits_msb(i, depth)), rest) == ggm_expand(
            key,
            depth + rest,
        ).subrange((i * pow2(rest)) as int, ((i + 1) * pow2(rest)) as int),
    decreases depth,
{
    let run = pow2(rest);
    lemma_pow2_pos(rest);
    lemma_pow2_adds(depth, rest);
    lemma_expand_len(key, depth + rest);
    assert((i + 1) * run <= pow2(depth) * run) by (nonlinear_arith)
        requires
            i + 1 <= pow2(depth),
    ;
    if depth == 0 {
        lemma2_to64();
        assert(bits_msb(i, depth).len() == 0);
        assert(i * run == 0 && (i + 1) * run == run) by (nonlinear_arith)
            requires
                i == 0,
        ;
        assert(ggm_expand(key, rest).subrange(0, run as int) =~= ggm_expand(key, rest));
    } else {
        let up = (depth - 1) as nat;
        let half = pow2(up);
        let left = prg(key).0;
        let right = prg(key).1;
        let whole = ggm_expand(key, depth + rest);
        lemma_pow2_unfold(depth);
        lemma_pow2_adds(up, rest);
        lemma_expand_len(left, up + rest);
        lemma_expand_len(right, up + rest);
        lemma_label_tail(i, depth);
        assert(bits_msb(i, depth).len() == depth);
        assert(whole == ggm_expand(left, up + rest) + ggm_expand(right, up + rest));
        let part = pow2(up + rest);
        assert(part == half * run);
        assert(ggm_expand(left, up + rest).len() == part);
        assert(ggm_expand(right, up + rest).len() == part);
        if i < half {
            assert(prg_bit(key, false) == left);
            lemma_subtree_leaves(left, up, rest, i);
            assert(0 <= i * run <= (i + 1) * run && (i + 1) * run <= half * run) by (
                nonlinear_arith)
                requires
                    i + 1 <= half,
                    0 < run,
            ;
            assert(ggm_expand(left, up + rest).subrange((i * run) as int, ((i + 1) * run) as int)
                =~= whole.subrange((i * run) as int, ((i + 1) * run) as int));
        } else {
            let j = (i - half) as nat;
            assert(prg_bit(key, true) == right);
            lemma_subtree_leaves(right, up, rest, j);
            assert(i * run == half * run + j * run && (i + 1) * run == half * run + (j + 1) * run
                && 0 <= j * run <= (j + 1) * run && (j + 1) * run <= half * run) by (
                nonlinear_arith)
                requires
                    i == half + j,
                    j + 1 <= half,
                    0 < run,
            ;
            assert(ggm_expand(right, up + rest).subrange((j * run) as int, ((j + 1) * run) as int)
                =~= whole.subrange((i * run) as int, ((i + 1) * run) as int));
        }
    }
}

} // verus!
