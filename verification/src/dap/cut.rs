//! What is left of a wallet and how a value is cut out of it.
//!
//! The leaves not yet cut out are kept as nodes of the wallet, at most one
//! at each depth. A value is cut as one node for each of its binary digits,
//! the highest first. Each node is taken from the deepest node left that
//! holds it: that node gives way to its leftmost node of the depth asked
//! for, which is taken, and to the right-hand neighbours on the way down to
//! it, which are left.

use vstd::prelude::*;
use vstd::arithmetic::power2::pow2;
use vstd::arithmetic::power2::lemma_pow2_pos;
use vstd::arithmetic::power2::lemma_pow2_adds;
use vstd::arithmetic::power2::lemma_pow2_unfold;
use vstd::arithmetic::power2::lemma_pow2_strictly_increases;
use vstd::arithmetic::power2::lemma2_to64;

use crate::dap::plan::CoinSpec;
use crate::ggm::label::bits_msb;
use crate::ggm::laws::lemma_label_tail;
use crate::merkle_tree::position::two_to_the;

verus! {

/// The node at depth `d` that is left, where one is.
pub open spec fn left_node(free: Seq<Option<u64>>, d: int) -> CoinSpec {
    CoinSpec { denom: d as u8, index: free[d]->Some_0 }
}

/// Whether leaf `x` is below a node left at some depth.
pub open spec fn is_left(free: Seq<Option<u64>>, height: nat, x: nat) -> bool {
    exists|d: int| 0 <= d < free.len() && free[d] is Some && #[trigger] left_node(free, d).covers(
        height,
        x,
    )
}

/// Whether the nodes left are nodes of a wallet of the given height, one
/// place for each depth, and no leaf is below two of them.
pub open spec fn left_wf(free: Seq<Option<u64>>, height: nat) -> bool {
    &&& height <= 16
    &&& free.len() == height + 1
    &&& forall|d: int|
        0 <= d <= height && (#[trigger] free[d]) is Some ==> left_node(free, d).fits(height)
    &&& forall|d: int, e: int, x: nat|
        0 <= d < e <= height && free[d] is Some && free[e] is Some ==> !(#[trigger] left_node(
            free,
            d,
        ).covers(height, x) && #[trigger] left_node(free, e).covers(height, x))
}

/// The deepest depth, no deeper than `depth`, at which a node is left, or
/// -1 where there is none.
pub open spec fn source(free: Seq<Option<u64>>, depth: int) -> int
    decreases depth + 1,
{
    if depth < 0 || depth >= free.len() {
        -1
    } else if free[depth] is Some {
        depth
    } else {
        source(free, depth - 1)
    }
}

/// The index, at depth `k`, of the leftmost node below the node `index` at
/// depth `e`.
pub open spec fn way(index: nat, e: int, k: int) -> int {
    (index * pow2((k - e) as nat)) as int
}

/// The node at `depth` that is taken: the leftmost one below the source.
pub open spec fn taken(free: Seq<Option<u64>>, depth: int) -> CoinSpec {
    let e = source(free, depth);
    CoinSpec { denom: depth as u8, index: (free[e]->Some_0 * pow2((depth - e) as nat)) as u64 }
}

/// The nodes left after the node at `depth` was taken: the source is gone,
/// and at each depth below it down to `depth` the right-hand neighbour of
/// the way to the taken node is left.
pub open spec fn left_after(free: Seq<Option<u64>>, depth: int) -> Seq<Option<u64>> {
    let e = source(free, depth);
    Seq::new(
        free.len(),
        |k: int|
            if k < e || k > depth {
                free[k]
            } else if k == e {
                None
            } else {
                Some((free[e]->Some_0 * pow2((k - e) as nat) + 1) as u64)
            },
    )
}

/// A leaf is below a node exactly if it is in the node's run of leaves,
/// counted in runs of the node's size.
pub proof fn lemma_covers_is_quotient(spec: CoinSpec, height: nat, x: nat)
    requires
        spec.denom <= height,
    ensures
        spec.covers(height, x) <==> x / spec.size(height) == spec.index,
{
    let s = spec.size(height);
    lemma_pow2_pos((height - spec.denom) as nat);
    let i = spec.index as nat;
    assert((i * s <= x < i * s + s) <==> (x / s == i)) by (nonlinear_arith)
        requires
            s > 0,
    ;
}

/// The node at a depth.
pub open spec fn node(depth: int, index: int) -> CoinSpec {
    CoinSpec { denom: depth as u8, index: index as u64 }
}

/// No leaf is below two nodes of one depth.
pub proof fn lemma_same_depth_disjoint(height: nat, k: nat, a: nat, b: nat, x: nat)
    requires
        k <= height <= 16,
        a <= 0x10000,
        b <= 0x10000,
        node(k as int, a as int).covers(height, x),
        node(k as int, b as int).covers(height, x),
    ensures
        a == b,
{
    lemma_covers_is_quotient(node(k as int, a as int), height, x);
    lemma_covers_is_quotient(node(k as int, b as int), height, x);
}

/// A node at depth `low` whose index is `index * 2^(low - high) + b`, with
/// `b` below `2^(low - high)`, is one of the nodes below the node `index` at
/// depth `high`: it is a node of the wallet if that one is, and its leaves
/// are that one's.
pub proof fn lemma_covers_ancestor(height: nat, high: nat, low: nat, index: nat, b: nat)
    requires
        high <= low <= height <= 16,
        index < pow2(high),
        b < pow2((low - high) as nat),
    ensures
        index * pow2((low - high) as nat) + b < pow2(low),
        pow2(low) <= 0x10000,
        forall|x: nat|
            node(low as int, (index * pow2((low - high) as nat) + b) as int).covers(
                height,
                x,
            ) ==> node(
                high as int,
                index as int,
            ).covers(height, x),
{
    let c = pow2((low - high) as nat);
    let j = index * c + b;
    let sl = pow2((height - low) as nat);
    let sh = pow2((height - high) as nat);
    lemma2_to64();
    lemma_pow2_pos((low - high) as nat);
    lemma_pow2_pos((height - low) as nat);
    lemma_pow2_adds((height - low) as nat, (low - high) as nat);
    lemma_pow2_adds(high, (low - high) as nat);
    if low < 16 {
        lemma_pow2_strictly_increases(low, 16);
    }
    if high < 16 {
        lemma_pow2_strictly_increases(high, 16);
    }
    assert(sh == sl * c);
    assert(j < pow2(high) * c) by (nonlinear_arith)
        requires
            j == index * c + b,
            b < c,
            index + 1 <= pow2(high),
    ;
    assert forall|x: nat| node(low as int, j as int).covers(height, x) implies node(
        high as int,
        index as int,
    ).covers(height, x) by {
        assert(index * sh <= x < index * sh + sh) by (nonlinear_arith)
            requires
                j * sl <= x < j * sl + sl,
                j == index * c + b,
                0 <= b < c,
                sh == sl * c,
                sl > 0,
        ;
    }
}

/// What is below the way node of a deeper depth, or below its right-hand
/// neighbour, is below the way node of a depth above.
pub proof fn lemma_way_step(height: nat, index: nat, e: int, k: int, m: int, b: nat, x: nat)
    requires
        0 <= e <= k < m <= height <= 16,
        index < pow2(e as nat),
        b <= 1,
        node(m, way(index, e, m) + b).covers(height, x),
    ensures
        node(k, way(index, e, k)).covers(height, x),
        way(index, e, k) + 1 <= 0x10000,
{
    lemma_pow2_adds((k - e) as nat, (m - k) as nat);
    lemma_pow2_unfold((m - k) as nat);
    lemma_pow2_pos((m - k - 1) as nat);
    lemma_pow2_pos((k - e) as nat);
    lemma_covers_ancestor(height, e as nat, k as nat, index, 0);
    assert(way(index, e, m) == way(index, e, k) * pow2((m - k) as nat)) by (nonlinear_arith)
        requires
            way(index, e, m) == index * pow2((m - e) as nat),
            way(index, e, k) == index * pow2((k - e) as nat),
            pow2((m - e) as nat) == pow2((k - e) as nat) * pow2((m - k) as nat),
    ;
    lemma_covers_ancestor(height, k as nat, m as nat, way(index, e, k) as nat, b);
}

/// No deeper node is left between the source and the depth asked for.
pub proof fn lemma_source(free: Seq<Option<u64>>, depth: int)
    requires
        0 <= depth < free.len(),
    ensures
        -1 <= source(free, depth) <= depth,
        source(free, depth) >= 0 ==> free[source(free, depth)] is Some,
        forall|k: int| source(free, depth) < k <= depth ==> (#[trigger] free[k]) is None,
    decreases depth,
{
    reveal_with_fuel(source, 2);
    if free[depth] is None && depth > 0 {
        lemma_source(free, depth - 1);
    }
}

/// Taking a node out of what is left of a wallet gives a node of the wallet
/// whose leaves were left, and leaves nodes of the wallet whose leaves were
/// left too and are not the taken node's.
pub proof fn lemma_take(free: Seq<Option<u64>>, height: nat, depth: int)
    requires
        left_wf(free, height),
        0 <= depth <= height,
        source(free, depth) >= 0,
    ensures
        taken(free, depth).fits(height),
        taken(free, depth).denom == depth,
        forall|x: nat| taken(free, depth).covers(height, x) ==> is_left(free, height, x),
        left_wf(left_after(free, depth), height),
        forall|x: nat| #[trigger]
            is_left(left_after(free, depth), height, x) ==> is_left(free, height, x) && !taken(
                free,
                depth,
            ).covers(height, x),
{
    let e = source(free, depth);
    let after = left_after(free, depth);
    let got = taken(free, depth);
    lemma_source(free, depth);
    lemma2_to64();
    let i = free[e]->Some_0 as nat;
    assert(left_node(free, e).fits(height));
    assert(left_node(free, e) == node(e, i as int));
    // the way down from the source: the node on the way at each depth
    assert forall|k: int| e <= k <= depth implies #[trigger] way(i, e, k) + 1 <= pow2(
        k as nat,
    ) && pow2(k as nat)
        <= 0x10000 && (forall|x: nat|
        node(k, way(i, e, k)).covers(height, x) ==> node(e, i as int).covers(height, x)) && (k
        > e ==> way(i, e, k) + 1 < pow2(k as nat) && (forall|x: nat|
        node(k, way(i, e, k) + 1).covers(height, x) ==> node(e, i as int).covers(height, x))) by {
        lemma_pow2_pos((k - e) as nat);
        lemma_covers_ancestor(height, e as nat, k as nat, i, 0);
        if k > e {
            lemma_pow2_unfold((k - e) as nat);
            lemma_pow2_pos((k - e - 1) as nat);
            lemma_covers_ancestor(height, e as nat, k as nat, i, 1);
        }
    }
    assert(got == node(depth, way(i, e, depth)));
    assert forall|x: nat| got.covers(height, x) implies is_left(free, height, x) by {
        assert(left_node(free, e).covers(height, x));
    }
    assert forall|k: int| e < k <= depth implies after[k] is Some && left_node(after, k) == node(
        k,
        way(i, e, k) + 1,
    ) by {}
    assert forall|d: int| 0 <= d <= height && (#[trigger] after[d]) is Some implies left_node(
        after,
        d,
    ).fits(height) by {
        if d < e || d > depth {
            assert(free[d] is Some);
            assert(left_node(free, d).fits(height));
        }
    }
    assert forall|x: nat| #[trigger] is_left(after, height, x) implies is_left(free, height, x)
        && !got.covers(height, x) by {
        let d = choose|d: int|
            0 <= d < after.len() && after[d] is Some && #[trigger] left_node(after, d).covers(
                height,
                x,
            );
        if d < e || d > depth {
            assert(left_node(free, d) == left_node(after, d));
            assert(left_node(free, d).covers(height, x));
            if got.covers(height, x) {
                assert(left_node(free, e).covers(height, x));
            }
        } else {
            assert(left_node(free, e).covers(height, x));
            if got.covers(height, x) {
                if d == depth {
                    lemma_same_depth_disjoint(
                        height,
                        depth as nat,
                        way(i, e, depth) as nat,
                        (way(i, e, depth) + 1) as nat,
                        x,
                    );
                } else {
                    lemma_way_step(height, i, e, d, depth, 0, x);
                    lemma_same_depth_disjoint(
                        height,
                        d as nat,
                        way(i, e, d) as nat,
                        (way(i, e, d) + 1) as nat,
                        x,
                    );
                }
            }
        }
    }
    assert forall|d: int, m: int, x: nat|
        0 <= d < m <= height && after[d] is Some && after[m] is Some implies !(
    #[trigger] left_node(after, d).covers(height, x) && #[trigger] left_node(after, m).covers(
        height,
        x,
    )) by {
        if left_node(after, d).covers(height, x) && left_node(after, m).covers(height, x) {
            let d_new = e < d <= depth;
            let m_new = e < m <= depth;
            if !d_new {
                assert(left_node(free, d) == left_node(after, d));
            }
            if !m_new {
                assert(left_node(free, m) == left_node(after, m));
            }
            if d_new && m_new {
                lemma_way_step(height, i, e, d, m, 1, x);
                lemma_same_depth_disjoint(
                    height,
                    d as nat,
                    way(i, e, d) as nat,
                    (way(i, e, d) + 1) as nat,
                    x,
                );
            } else if d_new {
                assert(left_node(free, e).covers(height, x));
                assert(free[m] is Some && m != e);
            } else if m_new {
                assert(left_node(free, e).covers(height, x));
                assert(free[d] is Some && d != e);
            }
        }
    }
}

/// Takes the node at `depth` out of what is left: the leftmost one below
/// the deepest node left that holds it. Fails, and changes nothing, where no
/// node is left at `depth` or above it.
pub fn take_node(free: &mut Vec<Option<u64>>, depth: usize, height: usize) -> (r: Option<CoinSpec>)
    requires
        left_wf(old(free)@, height as nat),
        depth <= height,
    ensures
        r is Some <==> source(old(free)@, depth as int) >= 0,
        r is None ==> final(free)@ == old(free)@,
        r matches Some(got) ==> got == taken(old(free)@, depth as int) && final(free)@
            == left_after(old(free)@, depth as int),
{
    let ghost before = free@;
    let mut e: usize = depth;
    proof {
        lemma2_to64();
    }
    while free[e].is_none()
        invariant
            e <= depth <= height,
            free@ == before,
            before.len() == height + 1,
            source(before, depth as int) == source(before, e as int),
        decreases e,
    {
        proof {
            reveal_with_fuel(source, 2);
        }
        if e == 0 {
            return None;
        }
        e -= 1;
    }
    let index = free[e].unwrap();
    proof {
        lemma_source(before, depth as int);
        assert(source(before, depth as int) == e);
        assert(left_node(before, e as int).fits(height as nat));
    }
    free.set(e, None);
    let mut at: u64 = index;
    let mut k: usize = e;
    proof {
        lemma_pow2_pos(0);
        assert(way(index as nat, e as int, e as int) == index) by (nonlinear_arith)
            requires
                way(index as nat, e as int, e as int) == index * pow2(0),
                pow2(0) == 1,
        ;
    }
    while k < depth
        invariant
            e <= k <= depth <= height <= 16,
            before.len() == height + 1,
            free@.len() == before.len(),
            index < pow2(e as nat),
            at == way(index as nat, e as int, k as int),
            at < 0x10000,
            source(before, depth as int) == e,
            before[e as int] == Some(index),
            forall|m: int| 0 <= m < e || k < m <= height ==> free@[m] == before[m],
            free@[e as int] is None,
            forall|m: int|
                e < m <= k ==> free@[m] == Some((way(index as nat, e as int, m) + 1) as u64),
        decreases depth - k,
    {
        k += 1;
        proof {
            lemma_pow2_unfold((k - e) as nat);
            lemma_pow2_pos((k - e) as nat);
            lemma_covers_ancestor(height as nat, e as nat, k as nat, index as nat, 0);
            assert(way(index as nat, e as int, k as int) == 2 * at) by (nonlinear_arith)
                requires
                    way(index as nat, e as int, k as int) == index * pow2((k - e) as nat),
                    at == index * pow2((k - 1 - e) as nat),
                    pow2((k - e) as nat) == 2 * pow2((k - 1 - e) as nat),
            ;
        }
        at = 2 * at;
        free.set(k, Some(at + 1));
    }
    proof {
        assert(free@ =~= left_after(before, depth as int));
    }
    Some(CoinSpec { denom: depth as u8, index: at })
}

/// What cutting the value `n` out of what is left gives, digit by digit
/// from the binary digit `bit` down: the nodes taken, the highest first, and
/// what is left then; or `None` where a digit finds no node or `n` has
/// higher digits than `bit`.
pub open spec fn cut(free: Seq<Option<u64>>, height: nat, n: nat, bit: int) -> Option<
    (Seq<CoinSpec>, Seq<Option<u64>>),
>
    decreases bit + 1,
{
    if bit < 0 {
        if n == 0 {
            Some((Seq::<CoinSpec>::empty(), free))
        } else {
            None
        }
    } else if n >= pow2(bit as nat) {
        if source(free, height - bit) < 0 {
            None
        } else {
            match cut(
                left_after(free, height - bit),
                height,
                (n - pow2(bit as nat)) as nat,
                bit - 1,
            ) {
                None => None,
                Some((rest, left)) => Some((seq![taken(free, height - bit)] + rest, left)),
            }
        }
    } else {
        cut(free, height, n, bit - 1)
    }
}

/// The number of leaves below the nodes together.
pub open spec fn nodes_worth(nodes: Seq<CoinSpec>, height: nat) -> nat
    decreases nodes.len(),
{
    if nodes.len() == 0 {
        0
    } else {
        nodes[0].size(height) + nodes_worth(nodes.drop_first(), height)
    }
}

/// Whether the nodes are a cut of the value `n` out of what was left: each
/// is a node of the wallet whose leaves were left, no leaf is below two of
/// them, they go from the highest binary digit of `n` to the lowest with
/// one node for a digit, and together they are worth `n`.
pub open spec fn is_cut_of(
    free: Seq<Option<u64>>,
    height: nat,
    n: nat,
    nodes: Seq<CoinSpec>,
) -> bool {
    &&& forall|k: int| 0 <= k < nodes.len() ==> (#[trigger] nodes[k]).fits(height)
    &&& forall|k: int, m: int|
        0 <= k < m < nodes.len() ==> (#[trigger] nodes[k]).denom < (#[trigger] nodes[m]).denom
    &&& forall|k: int, x: nat|
        0 <= k < nodes.len() && #[trigger] nodes[k].covers(height, x) ==> is_left(
            free,
            height,
            x,
        )
    &&& forall|k: int, m: int, x: nat|
        0 <= k < m < nodes.len() ==> !(#[trigger] nodes[k].covers(height, x)
            && #[trigger] nodes[m].covers(height, x))
    &&& nodes_worth(nodes, height) == n
}

/// Whether what is left after a cut was left before and is below none of
/// the nodes cut out.
pub open spec fn is_left_of(
    free: Seq<Option<u64>>,
    height: nat,
    nodes: Seq<CoinSpec>,
    left: Seq<Option<u64>>,
) -> bool {
    &&& left_wf(left, height)
    &&& forall|x: nat| #[trigger]
        is_left(left, height, x) ==> is_left(free, height, x) && forall|k: int|
            0 <= k < nodes.len() ==> !(#[trigger] nodes[k]).covers(height, x)
}

/// What a cut gives is a cut: its nodes are nodes of the wallet that were
/// left and do not overlap, one for each binary digit of the value, and
/// what is left then was left before and is none of theirs.
pub proof fn lemma_cut(free: Seq<Option<u64>>, height: nat, n: nat, bit: int)
    requires
        left_wf(free, height),
        -1 <= bit <= height,
        cut(free, height, n, bit) is Some,
    ensures
        is_cut_of(free, height, n, cut(free, height, n, bit)->Some_0.0),
        is_left_of(
            free,
            height,
            cut(free, height, n, bit)->Some_0.0,
            cut(free, height, n, bit)->Some_0.1,
        ),
        forall|k: int|
            0 <= k < cut(free, height, n, bit)->Some_0.0.len() ==> (#[trigger] cut(
                free,
                height,
                n,
                bit,
            )->Some_0.0[k]).denom >= height - bit,
    decreases bit + 1,
{
    let nodes = cut(free, height, n, bit)->Some_0.0;
    let left = cut(free, height, n, bit)->Some_0.1;
    if bit < 0 {
    } else if n >= pow2(bit as nat) {
        let depth = height - bit;
        let got = taken(free, depth);
        let next = left_after(free, depth);
        let less = (n - pow2(bit as nat)) as nat;
        lemma_take(free, height, depth);
        lemma_cut(next, height, less, bit - 1);
        let rest = cut(next, height, less, bit - 1)->Some_0.0;
        assert(nodes == seq![got] + rest);
        assert(nodes.drop_first() =~= rest);
        assert forall|k: int| 0 <= k < nodes.len() implies (#[trigger] nodes[k]).fits(height)
            && nodes[k].denom >= depth && (forall|x: nat|
            nodes[k].covers(height, x) ==> is_left(free, height, x)) by {
            if k > 0 {
                assert(nodes[k] == rest[k - 1]);
            }
        }
        assert forall|k: int, m: int| 0 <= k < m < nodes.len() implies (#[trigger] nodes[k]).denom
            < (#[trigger] nodes[m]).denom && (forall|x: nat|
            !(nodes[k].covers(height, x) && nodes[m].covers(height, x))) by {
            assert(nodes[m] == rest[m - 1]);
            if k > 0 {
                assert(nodes[k] == rest[k - 1]);
            } else {
                assert forall|x: nat| !(nodes[k].covers(height, x) && nodes[m].covers(
                    height,
                    x,
                )) by {
                    if rest[m - 1].covers(height, x) {
                        assert(is_left(next, height, x));
                    }
                }
            }
        }
        assert forall|x: nat| #[trigger] is_left(left, height, x) implies is_left(free, height, x)
            && forall|k: int| 0 <= k < nodes.len() ==> !(#[trigger] nodes[k]).covers(height, x) by {
            assert(is_left(next, height, x));
            assert forall|k: int| 0 <= k < nodes.len() implies !(#[trigger] nodes[k]).covers(
                height,
                x,
            ) by {
                if k > 0 {
                    assert(nodes[k] == rest[k - 1]);
                }
            }
        }
    } else {
        lemma_cut(free, height, n, bit - 1);
    }
}

/// The number of leaves below the nodes left at depth `d` and above.
pub open spec fn left_above(free: Seq<Option<u64>>, height: nat, d: int) -> nat
    decreases d + 1,
{
    if d < 0 {
        0
    } else if free[d] is Some {
        left_above(free, height, d - 1) + pow2((height - d) as nat)
    } else {
        left_above(free, height, d - 1)
    }
}

/// The number of leaves that are left of a wallet.
pub open spec fn left_amount(free: Seq<Option<u64>>, height: nat) -> nat {
    left_above(free, height, height as int)
}

/// The nodes left from depth `from + 1` down to depth `to` hold fewer
/// leaves than one node at depth `from`, since at most one is left at each
/// depth.
pub proof fn lemma_left_below(free: Seq<Option<u64>>, height: nat, from: int, to: int)
    requires
        -1 <= from <= to <= height,
    ensures
        left_above(free, height, from) <= left_above(free, height, to),
        left_above(free, height, to) - left_above(free, height, from) + pow2((height - to) as nat)
            <= pow2((height - from) as nat),
    decreases to - from,
{
    if from < to {
        lemma_left_below(free, height, from, to - 1);
        lemma_pow2_unfold((height - to + 1) as nat);
    }
}

/// Where nothing is left at a depth or above, nothing is counted there.
pub proof fn lemma_none_above(free: Seq<Option<u64>>, height: nat, d: int)
    requires
        -1 <= d < free.len(),
        source(free, d) < 0,
    ensures
        left_above(free, height, d) == 0,
    decreases d + 1,
{
    if d >= 0 {
        lemma_none_above(free, height, d - 1);
    }
}

/// A node can be taken at a depth exactly if as many leaves are left as it
/// holds, and then so many fewer are left.
pub proof fn lemma_take_amount(free: Seq<Option<u64>>, height: nat, depth: int)
    requires
        left_wf(free, height),
        0 <= depth <= height,
    ensures
        source(free, depth) >= 0 <==> left_amount(free, height) >= pow2((height - depth) as nat),
        source(free, depth) >= 0 ==> left_amount(left_after(free, depth), height) + pow2(
            (height - depth) as nat,
        ) == left_amount(free, height),
{
    let e = source(free, depth);
    let size = pow2((height - depth) as nat);
    lemma_source(free, depth);
    lemma_left_below(free, height, depth, height as int);
    lemma_pow2_pos(0);
    if e < 0 {
        lemma_none_above(free, height, depth);
    } else {
        let after = left_after(free, depth);
        lemma_left_below(free, height, e, depth);
        lemma_left_below(free, height, e - 1, e);
        if e < depth {
            lemma_pow2_strictly_increases((height - depth) as nat, (height - e) as nat);
        }
        lemma_same_above(free, after, height, e - 1);
        lemma_after_way(free, height, depth, depth);
        lemma_after_below(free, height, depth, height as int);
    }
}

/// Two lists that hold the same down to a depth count the same there.
pub proof fn lemma_same_above(a: Seq<Option<u64>>, b: Seq<Option<u64>>, height: nat, d: int)
    requires
        -1 <= d < a.len(),
        a.len() == b.len(),
        forall|k: int| 0 <= k <= d ==> (#[trigger] a[k]) is Some == b[k] is Some,
    ensures
        left_above(a, height, d) == left_above(b, height, d),
    decreases d + 1,
{
    if d >= 0 {
        lemma_same_above(a, b, height, d - 1);
    }
}

/// On the way from the source down to the taken node, what is left after
/// the take counts as many leaves fewer as a node at that depth holds.
pub proof fn lemma_after_way(free: Seq<Option<u64>>, height: nat, depth: int, k: int)
    requires
        0 <= depth <= height,
        free.len() == height + 1,
        0 <= source(free, depth) <= k <= depth,
    ensures
        left_above(left_after(free, depth), height, k) + pow2((height - k) as nat) == left_above(
            free,
            height,
            k,
        ),
    decreases k,
{
    let e = source(free, depth);
    let after = left_after(free, depth);
    lemma_source(free, depth);
    if k == e {
        lemma_same_above(free, after, height, e - 1);
    } else {
        lemma_after_way(free, height, depth, k - 1);
        lemma_pow2_unfold((height - k + 1) as nat);
    }
}

/// Below the taken node the two lists hold the same.
pub proof fn lemma_after_below(free: Seq<Option<u64>>, height: nat, depth: int, k: int)
    requires
        0 <= depth <= k <= height,
        free.len() == height + 1,
        source(free, depth) >= 0,
    ensures
        left_above(left_after(free, depth), height, k) + pow2((height - depth) as nat)
            == left_above(free, height, k),
    decreases k - depth,
{
    lemma_source(free, depth);
    if k == depth {
        lemma_after_way(free, height, depth, depth);
    } else {
        lemma_after_below(free, height, depth, k - 1);
    }
}

/// A value with a binary digit above `bit` cannot be cut digit by digit
/// from `bit` down.
pub proof fn lemma_cut_too_much(free: Seq<Option<u64>>, height: nat, n: nat, bit: int)
    requires
        -1 <= bit,
        n >= pow2((bit + 1) as nat),
    ensures
        cut(free, height, n, bit) is None,
    decreases bit + 1,
{
    lemma_pow2_pos(0);
    if bit >= 0 {
        lemma_pow2_unfold((bit + 1) as nat);
        if source(free, height - bit) >= 0 {
            lemma_cut_too_much(
                left_after(free, height - bit),
                height,
                (n - pow2(bit as nat)) as nat,
                bit - 1,
            );
        }
    }
}

/// A value can be cut out of what is left of a wallet exactly if so many
/// leaves are left.
pub proof fn lemma_cut_succeeds(free: Seq<Option<u64>>, height: nat, n: nat, bit: int)
    requires
        left_wf(free, height),
        -1 <= bit <= height,
        n < pow2((bit + 1) as nat),
    ensures
        cut(free, height, n, bit) is Some <==> n <= left_amount(free, height),
    decreases bit + 1,
{
    lemma2_to64();
    if bit >= 0 {
        lemma_pow2_unfold((bit + 1) as nat);
        if n >= pow2(bit as nat) {
            let depth = height - bit;
            let next = left_after(free, depth);
            let less = (n - pow2(bit as nat)) as nat;
            assert(pow2((height - depth) as nat) == pow2(bit as nat));
            lemma_take_amount(free, height, depth);
            if source(free, depth) >= 0 {
                lemma_take(free, height, depth);
                lemma_cut_succeeds(next, height, less, bit - 1);
                assert(cut(free, height, n, bit) is Some <==> cut(next, height, less, bit - 1)
                    is Some);
            } else {
                assert(cut(free, height, n, bit) is None);
            }
        } else {
            lemma_cut_succeeds(free, height, n, bit - 1);
        }
    }
}

/// Whether one of the nodes holds `2^i` leaves: it is `i` levels above the
/// leaves.
pub open spec fn has_node_of(nodes: Seq<CoinSpec>, height: nat, i: int) -> bool {
    exists|k: int| 0 <= k < nodes.len() && (#[trigger] nodes[k]).denom == height - i
}

/// A cut has one node for each binary digit of the value that is set, and
/// none else: a node of `2^i` leaves exactly where digit `i` is set.
pub proof fn lemma_cut_digits(free: Seq<Option<u64>>, height: nat, n: nat, bit: int)
    requires
        left_wf(free, height),
        -1 <= bit <= height,
        n < pow2((bit + 1) as nat),
        cut(free, height, n, bit) is Some,
    ensures
        forall|i: int|
            0 <= i <= bit ==> (#[trigger] has_node_of(
                cut(free, height, n, bit)->Some_0.0,
                height,
                i,
            ) <==> (n / pow2(i as nat)) % 2 == 1),
    decreases bit + 1,
{
    let nodes = cut(free, height, n, bit)->Some_0.0;
    lemma_cut(free, height, n, bit);
    if bit >= 0 {
        let top = pow2(bit as nat);
        let depth = height - bit;
        let digits = bits_msb(n, (bit + 1) as nat);
        lemma_label_tail(n, (bit + 1) as nat);
        assert(digits[0] == ((n / top) % 2 == 1));
        if n >= top {
            let next = left_after(free, depth);
            let less = (n - top) as nat;
            let rest = cut(next, height, less, bit - 1)->Some_0.0;
            lemma_pow2_unfold((bit + 1) as nat);
            lemma_take(free, height, depth);
            lemma_cut_digits(next, height, less, bit - 1);
            lemma_cut(next, height, less, bit - 1);
            assert(nodes == seq![taken(free, depth)] + rest);
            assert(nodes[0].denom == depth);
            assert forall|i: int| 0 <= i <= bit implies (#[trigger] has_node_of(
                nodes,
                height,
                i,
            ) <==> (n / pow2(i as nat)) % 2 == 1) by {
                if i < bit {
                    assert(digits.drop_first()[bit - 1 - i] == digits[bit - i]);
                    assert(bits_msb(less, bit as nat)[bit - 1 - i] == ((less / pow2(i as nat)) % 2
                        == 1));
                    if has_node_of(rest, height, i) {
                        let k = choose|k: int|
                            0 <= k < rest.len() && (#[trigger] rest[k]).denom == height - i;
                        assert(nodes[k + 1] == rest[k]);
                    }
                    if has_node_of(nodes, height, i) {
                        let k = choose|k: int|
                            0 <= k < nodes.len() && (#[trigger] nodes[k]).denom == height - i;
                        assert(k > 0);
                        assert(rest[k - 1] == nodes[k]);
                    }
                }
            }
        } else {
            lemma_cut_digits(free, height, n, bit - 1);
            assert forall|i: int| 0 <= i <= bit implies (#[trigger] has_node_of(
                nodes,
                height,
                i,
            ) <==> (n / pow2(i as nat)) % 2 == 1) by {
                if i == bit {
                    if has_node_of(nodes, height, i) {
                        let k = choose|k: int|
                            0 <= k < nodes.len() && (#[trigger] nodes[k]).denom == height - i;
                        assert(nodes[k].denom >= height - (bit - 1));
                    }
                }
            }
        }
    }
}

/// What is cut out of a wallet after an earlier cut shares no leaf with
/// what was cut out then.
pub proof fn lemma_later_cut_disjoint(
    free: Seq<Option<u64>>,
    height: nat,
    first: nat,
    second: nat,
)
    requires
        left_wf(free, height),
        cut(free, height, first, height as int) is Some,
        cut(cut(free, height, first, height as int)->Some_0.1, height, second, height as int)
            is Some,
    ensures
        forall|k: int, m: int, x: nat|
            0 <= k < cut(free, height, first, height as int)->Some_0.0.len() && 0 <= m < cut(
                cut(free, height, first, height as int)->Some_0.1,
                height,
                second,
                height as int,
            )->Some_0.0.len() ==> !(#[trigger] cut(
                free,
                height,
                first,
                height as int,
            )->Some_0.0[k].covers(height, x) && #[trigger] cut(
                cut(free, height, first, height as int)->Some_0.1,
                height,
                second,
                height as int,
            )->Some_0.0[m].covers(height, x)),
{
    let earlier = cut(free, height, first, height as int)->Some_0.0;
    let left = cut(free, height, first, height as int)->Some_0.1;
    let later = cut(left, height, second, height as int)->Some_0.0;
    lemma_cut(free, height, first, height as int);
    lemma_cut(left, height, second, height as int);
    assert forall|k: int, m: int, x: nat|
        0 <= k < earlier.len() && 0 <= m < later.len() implies !(#[trigger] earlier[k].covers(
        height,
        x,
    ) && #[trigger] later[m].covers(height, x)) by {
        if later[m].covers(height, x) {
            assert(is_left(left, height, x));
        }
    }
}

/// Fewer leaves are left than two wallets hold.
pub proof fn lemma_left_bound(free: Seq<Option<u64>>, height: nat)
    ensures
        left_amount(free, height) < pow2(height + 1),
{
    lemma_left_below(free, height, -1, height as int);
    lemma_pow2_pos(0);
    assert(left_above(free, height, -1) == 0);
}

/// After a cut as many leaves fewer are left as were cut out.
pub proof fn lemma_cut_amount(free: Seq<Option<u64>>, height: nat, n: nat, bit: int)
    requires
        left_wf(free, height),
        -1 <= bit <= height,
        cut(free, height, n, bit) is Some,
    ensures
        left_amount(cut(free, height, n, bit)->Some_0.1, height) + n == left_amount(free, height),
    decreases bit + 1,
{
    if bit >= 0 {
        if n >= pow2(bit as nat) {
            let depth = height - bit;
            assert(pow2((height - depth) as nat) == pow2(bit as nat));
            lemma_take_amount(free, height, depth);
            lemma_take(free, height, depth);
            lemma_cut_amount(
                left_after(free, depth),
                height,
                (n - pow2(bit as nat)) as nat,
                bit - 1,
            );
        } else {
            lemma_cut_amount(free, height, n, bit - 1);
        }
    }
}

/// A value can be cut out of what is left of a wallet, with one node for
/// each of its binary digits, exactly if so many leaves are left.
pub proof fn lemma_cut_iff_left(free: Seq<Option<u64>>, height: nat, n: nat)
    requires
        left_wf(free, height),
    ensures
        cut(free, height, n, height as int) is Some <==> n <= left_amount(free, height),
{
    lemma_left_below(free, height, -1, height as int);
    lemma_pow2_pos(0);
    assert(left_above(free, height, -1) == 0);
    if n < pow2(height + 1) {
        lemma_cut_succeeds(free, height, n, height as int);
    } else {
        lemma_cut_too_much(free, height, n, height as int);
    }
}

/// The nodes taken so far put before what a later cut gives.
pub open spec fn after_nodes(
    done: Seq<CoinSpec>,
    later: Option<(Seq<CoinSpec>, Seq<Option<u64>>)>,
) -> Option<(Seq<CoinSpec>, Seq<Option<u64>>)> {
    match later {
        None => None,
        Some((rest, left)) => Some((done + rest, left)),
    }
}

/// Cuts the value `n` out of what is left of a wallet: one node for each
/// binary digit of `n`, the highest first. Gives the nodes and what is left
/// then, or `None` where a digit finds no node.
pub fn cut_value(free: &Vec<Option<u64>>, n: u64, height: usize) -> (r: Option<
    (Vec<CoinSpec>, Vec<Option<u64>>),
>)
    requires
        left_wf(free@, height as nat),
    ensures
        r is Some <==> cut(free@, height as nat, n as nat, height as int) is Some,
        r matches Some((nodes, left)) ==> cut(free@, height as nat, n as nat, height as int)
            == Some((nodes@, left@)),
{
    let ghost start = free@;
    let ghost tall = height as nat;
    let mut work: Vec<Option<u64>> = Vec::new();
    let mut c: usize = 0;
    while c < free.len()
        invariant
            c <= free@.len(),
            work@ == free@.take(c as int),
        decreases free@.len() - c,
    {
        work.push(free[c]);
        assert(work@ =~= free@.take(c + 1));
        c += 1;
    }
    assert(work@ =~= start);
    let mut nodes: Vec<CoinSpec> = Vec::new();
    let mut rest: u64 = n;
    let mut b: usize = height + 1;
    proof {
        assert(nodes@ + Seq::<CoinSpec>::empty() =~= nodes@);
        let whole = cut(start, tall, n as nat, height as int);
        assert(after_nodes(nodes@, whole) == whole) by {
            if whole is Some {
                assert(nodes@ + whole->Some_0.0 =~= whole->Some_0.0);
            }
        }
    }
    while b > 0
        invariant
            b <= height + 1,
            height <= 16,
            left_wf(work@, tall),
            tall == height,
            start == free@,
            cut(start, tall, n as nat, height as int) == after_nodes(
                nodes@,
                cut(work@, tall, rest as nat, b - 1),
            ),
        decreases b,
    {
        b -= 1;
        proof {
            lemma2_to64();
            if b < 16 {
                lemma_pow2_strictly_increases(b as nat, 16);
            }
        }
        let size = two_to_the(b);
        if rest >= size {
            let ghost before = work@;
            match take_node(&mut work, height - b, height) {
                None => {
                    proof {
                        assert(cut(before, tall, rest as nat, b as int) is None);
                    }
                    return None;
                },
                Some(got) => {
                    proof {
                        lemma_take(before, tall, height - b);
                        assert(cut(before, tall, rest as nat, b as int) == after_nodes(
                            seq![got],
                            cut(work@, tall, (rest - size) as nat, b - 1),
                        ));
                        let later = cut(work@, tall, (rest - size) as nat, b - 1);
                        if later is Some {
                            assert(nodes@.push(got) + later->Some_0.0 =~= nodes@ + (seq![got]
                                + later->Some_0.0));
                        }
                    }
                    nodes.push(got);
                    rest = rest - size;
                },
            }
        }
    }
    if rest != 0 {
        return None;
    }
    proof {
        assert(nodes@ + Seq::<CoinSpec>::empty() =~= nodes@);
    }
    Some((nodes, work))
}

} // verus!
