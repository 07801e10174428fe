//! What holds of every index and every sequence of bundles.

use vstd::prelude::*;
use vstd::arithmetic::power2::pow2;
use vstd::set_lib::lemma_len_subset;
use vstd::set_lib::lemma_set_disjoint_lens;

use crate::dap::plan::CoinSpec;
use crate::dap::server::bundle_leaves;
use crate::dap::server::coin_admissible;
use crate::dap::server::is_field_encoding;
use crate::field::le_value;
use vstd::arithmetic::power2::lemma_pow2_pos;
use crate::dap::server::coin_leaves;
use crate::dap::server::coin_value;
use crate::dap::server::index_after;
use crate::dap::server::leaf_value;
use crate::dap::server::settles;
use crate::dap::types::Coin;
use crate::ggm::ggm_eval;
use crate::ggm::ggm_expand;
use crate::ggm::label::bits_msb;
use crate::ggm::laws::lemma_expand_len;
use crate::ggm::laws::lemma_subtree_leaves;

verus! {

/// A bundle leaves the index as it was or adds to it, and an accepted one
/// adds all its leaves.
pub proof fn lemma_index_grows(
    coins: Seq<Coin>,
    height: nat,
    verdicts: Seq<Option<bool>>,
    index: Set<nat>,
)
    ensures
        index.subset_of(index_after(coins, height, verdicts, index)),
        settles(coins, height, verdicts, index) ==> bundle_leaves(coins, height).to_set().subset_of(
            index_after(coins, height, verdicts, index),
        ),
{
}

/// Of two bundles that share a leaf, the second is refused once the first
/// has been accepted, whatever was handed in between and whichever of the
/// two comes first.
pub proof fn lemma_no_double_spend(
    first: Seq<Coin>,
    first_verdicts: Seq<Option<bool>>,
    second: Seq<Coin>,
    second_verdicts: Seq<Option<bool>>,
    height: nat,
    index: Set<nat>,
    later: Set<nat>,
    leaf: nat,
)
    requires
        bundle_leaves(first, height).contains(leaf),
        bundle_leaves(second, height).contains(leaf),
        settles(first, height, first_verdicts, index),
        index_after(first, height, first_verdicts, index).subset_of(later),
    ensures
        !settles(second, height, second_verdicts, later),
{
    let after = index_after(first, height, first_verdicts, index);
    assert(bundle_leaves(first, height).to_set().contains(leaf));
    assert(after.contains(leaf));
    let k = choose|k: int|
        0 <= k < bundle_leaves(second, height).len() && bundle_leaves(second, height)[k] == leaf;
    assert(later.contains(bundle_leaves(second, height)[k]));
}

/// The number of leaves that a bundle is worth.
pub open spec fn bundle_value(coins: Seq<Coin>, height: nat) -> nat
    decreases coins.len(),
{
    if coins.len() == 0 {
        0
    } else {
        bundle_value(coins.drop_last(), height) + coin_value(coins.last(), height)
    }
}

/// The index after a sequence of bundles, each with what the verifier said
/// of its proofs.
pub open spec fn index_after_all(
    bundles: Seq<(Seq<Coin>, Seq<Option<bool>>)>,
    height: nat,
    index: Set<nat>,
) -> Set<nat>
    decreases bundles.len(),
{
    if bundles.len() == 0 {
        index
    } else {
        index_after(
            bundles.last().0,
            height,
            bundles.last().1,
            index_after_all(bundles.drop_last(), height, index),
        )
    }
}

/// The value of all bundles of a sequence that were accepted.
pub open spec fn accepted_value(
    bundles: Seq<(Seq<Coin>, Seq<Option<bool>>)>,
    height: nat,
    index: Set<nat>,
) -> nat
    decreases bundles.len(),
{
    if bundles.len() == 0 {
        0
    } else {
        let before = index_after_all(bundles.drop_last(), height, index);
        let earlier = accepted_value(bundles.drop_last(), height, index);
        if settles(bundles.last().0, height, bundles.last().1, before) {
            earlier + bundle_value(bundles.last().0, height)
        } else {
            earlier
        }
    }
}

/// The leaves of all bundles of a sequence that were accepted.
pub open spec fn accepted_leaves(
    bundles: Seq<(Seq<Coin>, Seq<Option<bool>>)>,
    height: nat,
    index: Set<nat>,
) -> Set<nat>
    decreases bundles.len(),
{
    if bundles.len() == 0 {
        Set::empty()
    } else {
        let before = index_after_all(bundles.drop_last(), height, index);
        let earlier = accepted_leaves(bundles.drop_last(), height, index);
        if settles(bundles.last().0, height, bundles.last().1, before) {
            earlier.union(bundle_leaves(bundles.last().0, height).to_set())
        } else {
            earlier
        }
    }
}

/// Whether a coin is a node of the wallet that grows from `seed`: its key
/// is the block that a label of its depth leads to.
pub open spec fn coin_of_wallet(seed: Seq<u8>, height: nat, coin: Coin) -> bool {
    &&& coin.denom <= height
    &&& exists|i: nat|
        i < pow2(coin.denom as nat) && coin.key@ == ggm_eval(
            seed,
            #[trigger] bits_msb(i, coin.denom as nat),
        )
}

/// The leaves of the wallet that grows from `seed`.
pub open spec fn wallet_leaves(seed: Seq<u8>, height: nat) -> Seq<nat> {
    ggm_expand(seed, height).map_values(|b: Seq<u8>| leaf_value(b))
}

/// A bundle is worth as many leaves as it holds.
pub proof fn lemma_bundle_value_is_len(coins: Seq<Coin>, height: nat)
    ensures
        bundle_leaves(coins, height).len() == bundle_value(coins, height),
    decreases coins.len(),
{
    if coins.len() > 0 {
        lemma_bundle_value_is_len(coins.drop_last(), height);
        lemma_expand_len(coins.last().key@, (height - coins.last().denom) as nat);
    }
}

/// Every leaf of a coin of a wallet is a leaf of the wallet.
pub proof fn lemma_coin_in_wallet(seed: Seq<u8>, height: nat, coin: Coin, leaf: nat)
    requires
        coin_of_wallet(seed, height, coin),
        coin_leaves(coin, height).contains(leaf),
    ensures
        wallet_leaves(seed, height).contains(leaf),
{
    let depth = coin.denom as nat;
    let rest = (height - depth) as nat;
    let i = choose|i: nat|
        i < pow2(depth) && coin.key@ == ggm_eval(seed, #[trigger] bits_msb(i, depth));
    let k = choose|k: int| 0 <= k < coin_leaves(coin, height).len() && coin_leaves(
        coin,
        height,
    )[k] == leaf;
    lemma_subtree_leaves(seed, depth, rest, i);
    lemma_expand_len(coin.key@, rest);
    lemma_expand_len(seed, height);
    let run = pow2(rest);
    let at = i * run + k;
    assert(depth + rest == height);
    assert((i + 1) * run == i * run + run && 0 <= i * run) by (nonlinear_arith);
    assert(0 <= at < pow2(height));
    let whole = ggm_expand(seed, height);
    assert(whole.subrange((i * run) as int, ((i + 1) * run) as int)[k] == whole[at]);
    assert(ggm_expand(coin.key@, rest)[k] == whole[at]);
    assert(wallet_leaves(seed, height)[at] == leaf);
}

/// Every leaf of a bundle of coins of a wallet is a leaf of the wallet.
pub proof fn lemma_bundle_in_wallet(seed: Seq<u8>, height: nat, coins: Seq<Coin>, leaf: nat)
    requires
        forall|i: int| 0 <= i < coins.len() ==> coin_of_wallet(seed, height, #[trigger] coins[i]),
        bundle_leaves(coins, height).contains(leaf),
    ensures
        wallet_leaves(seed, height).contains(leaf),
    decreases coins.len(),
{
    if coins.len() > 0 {
        let front = bundle_leaves(coins.drop_last(), height);
        let back = coin_leaves(coins.last(), height);
        let k = choose|k: int| 0 <= k < (front + back).len() && (front + back)[k] == leaf;
        if k < front.len() {
            assert(front[k] == leaf);
            assert forall|i: int| 0 <= i < coins.drop_last().len() implies coin_of_wallet(
                seed,
                height,
                #[trigger] coins.drop_last()[i],
            ) by {
                assert(coins.drop_last()[i] == coins[i]);
            }
            lemma_bundle_in_wallet(seed, height, coins.drop_last(), leaf);
        } else {
            assert(back[k - front.len()] == leaf);
            assert(coin_of_wallet(seed, height, coins[coins.len() - 1]));
            lemma_coin_in_wallet(seed, height, coins.last(), leaf);
        }
    }
}

/// The accepted leaves are in the index, are leaves of the wallet, and are
/// as many as the accepted bundles were worth.
proof fn lemma_accepted_leaves(
    seed: Seq<u8>,
    height: nat,
    bundles: Seq<(Seq<Coin>, Seq<Option<bool>>)>,
    index: Set<nat>,
)
    requires
        forall|b: int, i: int|
            0 <= b < bundles.len() && 0 <= i < bundles[b].0.len() ==> coin_of_wallet(
                seed,
                height,
                #[trigger] bundles[b].0[i],
            ),
    ensures
        accepted_leaves(bundles, height, index).finite(),
        accepted_leaves(bundles, height, index).subset_of(index_after_all(bundles, height, index)),
        accepted_leaves(bundles, height, index).subset_of(wallet_leaves(seed, height).to_set()),
        accepted_leaves(bundles, height, index).len() == accepted_value(bundles, height, index),
    decreases bundles.len(),
{
    if bundles.len() > 0 {
        let prev = bundles.drop_last();
        let coins = bundles.last().0;
        let verdicts = bundles.last().1;
        let before = index_after_all(prev, height, index);
        let earlier = accepted_leaves(prev, height, index);
        assert forall|b: int, i: int|
            0 <= b < prev.len() && 0 <= i < prev[b].0.len() implies coin_of_wallet(
            seed,
            height,
            #[trigger] prev[b].0[i],
        ) by {
            assert(prev[b] == bundles[b]);
        }
        lemma_accepted_leaves(seed, height, prev, index);
        if settles(coins, height, verdicts, before) {
            let leaves = bundle_leaves(coins, height);
            let added = leaves.to_set();
            leaves.unique_seq_to_set();
            lemma_bundle_value_is_len(coins, height);
            assert(earlier.disjoint(added)) by {
                assert forall|x: nat| earlier.contains(x) && added.contains(x) implies false by {
                    let k = choose|k: int| 0 <= k < leaves.len() && leaves[k] == x;
                    assert(before.contains(leaves[k]));
                }
            }
            lemma_set_disjoint_lens(earlier, added);
            assert forall|x: nat| added.contains(x) implies wallet_leaves(
                seed,
                height,
            ).to_set().contains(x) by {
                assert forall|i: int| 0 <= i < coins.len() implies coin_of_wallet(
                    seed,
                    height,
                    #[trigger] coins[i],
                ) by {
                    assert(coins[i] == bundles[bundles.len() - 1].0[i]);
                }
                lemma_bundle_in_wallet(seed, height, coins, x);
            }
        }
    }
}

/// However many bundles of coins of one wallet are handed in, in whatever
/// order and against whatever index, those that are accepted are worth no
/// more than the wallet has leaves.
pub proof fn lemma_value_integrity(
    seed: Seq<u8>,
    height: nat,
    bundles: Seq<(Seq<Coin>, Seq<Option<bool>>)>,
    index: Set<nat>,
)
    requires
        forall|b: int, i: int|
            0 <= b < bundles.len() && 0 <= i < bundles[b].0.len() ==> coin_of_wallet(
                seed,
                height,
                #[trigger] bundles[b].0[i],
            ),
    ensures
        accepted_value(bundles, height, index) <= pow2(height),
{
    let wallet = wallet_leaves(seed, height);
    lemma_accepted_leaves(seed, height, bundles, index);
    lemma_expand_len(seed, height);
    wallet.lemma_cardinality_of_set();
    lemma_len_subset(accepted_leaves(bundles, height, index), wallet.to_set());
}

/// Whether a coin is the one of a node of the wallet that grows from
/// `seed`: it has the node's depth and block, and names the first leaf below
/// the node as its instance.
pub open spec fn coin_of_node(seed: Seq<u8>, height: nat, spec: CoinSpec, coin: Coin) -> bool {
    &&& coin.denom == spec.denom
    &&& coin.key@ == ggm_eval(seed, bits_msb(spec.index as nat, spec.denom as nat))
    &&& is_field_encoding(coin.instance_bytes@)
    &&& le_value(coin.instance_bytes@) == wallet_leaves(seed, height)[spec.first(height) as int]
}

/// The leaves of the coin of a node are the leaves of the wallet below the
/// node.
pub proof fn lemma_coin_leaves_of_node(seed: Seq<u8>, height: nat, spec: CoinSpec, coin: Coin)
    requires
        spec.fits(height),
        coin.denom == spec.denom,
        coin.key@ == ggm_eval(seed, bits_msb(spec.index as nat, spec.denom as nat)),
    ensures
        spec.first(height) + spec.size(height) <= pow2(height),
        coin_leaves(coin, height) == wallet_leaves(seed, height).subrange(
            spec.first(height) as int,
            (spec.first(height) + spec.size(height)) as int,
        ),
{
    let depth = spec.denom as nat;
    let rest = (height - depth) as nat;
    let run = pow2(rest);
    let first = spec.first(height);
    lemma_subtree_leaves(seed, depth, rest, spec.index as nat);
    lemma_expand_len(coin.key@, rest);
    lemma_expand_len(seed, height);
    assert((spec.index + 1) * run == first + run) by (nonlinear_arith)
        requires
            first == spec.index * run,
    ;
    assert(coin_leaves(coin, height) =~= wallet_leaves(seed, height).subrange(
        first as int,
        (first + run) as int,
    ));
}

/// The places, among the leaves of the wallet, of the leaves below the
/// nodes, node after node.
pub open spec fn bundle_places(nodes: Seq<CoinSpec>, height: nat) -> Seq<nat>
    decreases nodes.len(),
{
    if nodes.len() == 0 {
        seq![]
    } else {
        bundle_places(nodes.drop_last(), height) + Seq::new(
            nodes.last().size(height),
            |o: int| (nodes.last().first(height) + o) as nat,
        )
    }
}

/// Every place of the nodes is a leaf below one of them.
pub proof fn lemma_places_covered(nodes: Seq<CoinSpec>, height: nat, p: int)
    requires
        0 <= p < bundle_places(nodes, height).len(),
    ensures
        exists|k: int|
            0 <= k < nodes.len() && (#[trigger] nodes[k]).covers(
                height,
                bundle_places(nodes, height)[p],
            ),
    decreases nodes.len(),
{
    if nodes.len() > 0 {
        let front = bundle_places(nodes.drop_last(), height);
        if p < front.len() {
            lemma_places_covered(nodes.drop_last(), height, p);
            let k = choose|k: int|
                0 <= k < nodes.drop_last().len() && (#[trigger] nodes.drop_last()[k]).covers(
                    height,
                    front[p],
                );
            assert(nodes[k] == nodes.drop_last()[k]);
        } else {
            assert(nodes[nodes.len() - 1].covers(height, bundle_places(nodes, height)[p]));
        }
    }
}

/// Nodes that share no leaf have every place once.
pub proof fn lemma_places_distinct(nodes: Seq<CoinSpec>, height: nat)
    requires
        forall|k: int, m: int, x: nat|
            0 <= k < m < nodes.len() ==> !(#[trigger] nodes[k].covers(height, x)
                && #[trigger] nodes[m].covers(height, x)),
    ensures
        bundle_places(nodes, height).no_duplicates(),
    decreases nodes.len(),
{
    if nodes.len() > 0 {
        let short = nodes.drop_last();
        let front = bundle_places(short, height);
        let all = bundle_places(nodes, height);
        assert forall|k: int, m: int, x: nat| 0 <= k < m < short.len() implies !(
        #[trigger] short[k].covers(height, x) && #[trigger] short[m].covers(height, x)) by {
            assert(short[k] == nodes[k] && short[m] == nodes[m]);
        }
        lemma_places_distinct(short, height);
        assert forall|p: int, q: int| 0 <= p < q < all.len() implies all[p] != all[q] by {
            if q < front.len() {
                assert(all[p] == front[p] && all[q] == front[q]);
            } else if p < front.len() {
                lemma_places_covered(short, height, p);
                let k = choose|k: int|
                    0 <= k < short.len() && (#[trigger] short[k]).covers(height, front[p]);
                assert(short[k] == nodes[k]);
                assert(nodes[nodes.len() - 1].covers(height, all[q]));
                assert(all[p] == front[p]);
            }
        }
    }
}

/// The coins of nodes of a wallet hold, one after the other, the leaves of
/// the wallet at the places of the nodes.
pub proof fn lemma_bundle_at_places(
    seed: Seq<u8>,
    height: nat,
    nodes: Seq<CoinSpec>,
    coins: Seq<Coin>,
)
    requires
        coins.len() == nodes.len(),
        forall|k: int| 0 <= k < nodes.len() ==> (#[trigger] nodes[k]).fits(height),
        forall|k: int|
            0 <= k < coins.len() ==> coin_of_node(seed, height, nodes[k], #[trigger] coins[k]),
    ensures
        bundle_leaves(coins, height).len() == bundle_places(nodes, height).len(),
        forall|p: int|
            0 <= p < bundle_places(nodes, height).len() ==> #[trigger] bundle_places(
                nodes,
                height,
            )[p] < pow2(height),
        forall|p: int|
            0 <= p < bundle_places(nodes, height).len() ==> #[trigger] bundle_leaves(
                coins,
                height,
            )[p] == wallet_leaves(seed, height)[bundle_places(nodes, height)[p] as int],
    decreases nodes.len(),
{
    if nodes.len() > 0 {
        let last = nodes.last();
        assert forall|k: int| 0 <= k < coins.drop_last().len() implies coin_of_node(
            seed,
            height,
            nodes.drop_last()[k],
            #[trigger] coins.drop_last()[k],
        ) by {
            assert(coins.drop_last()[k] == coins[k]);
            assert(nodes.drop_last()[k] == nodes[k]);
        }
        assert forall|k: int| 0 <= k < nodes.drop_last().len() implies (
        #[trigger] nodes.drop_last()[k]).fits(height) by {
            assert(nodes.drop_last()[k] == nodes[k]);
        }
        lemma_bundle_at_places(seed, height, nodes.drop_last(), coins.drop_last());
        assert(nodes[nodes.len() - 1].fits(height));
        assert(coin_of_node(seed, height, nodes[nodes.len() - 1], coins[coins.len() - 1]));
        lemma_coin_leaves_of_node(seed, height, last, coins.last());
        lemma_expand_len(seed, height);
        let front_leaves = bundle_leaves(coins.drop_last(), height);
        let front_places = bundle_places(nodes.drop_last(), height);
        let wallet = wallet_leaves(seed, height);
        assert(coin_leaves(coins.last(), height).len() == last.size(height));
        assert forall|p: int| 0 <= p < bundle_places(nodes, height).len() implies (
        #[trigger] bundle_places(nodes, height)[p]) < pow2(height) by {
            if p < front_places.len() {
                assert(bundle_places(nodes, height)[p] == front_places[p]);
            } else {
                let o = p - front_places.len();
                assert(bundle_places(nodes, height)[p] == last.first(height) + o);
            }
        }
        assert forall|p: int| 0 <= p < bundle_places(nodes, height).len() implies (
        #[trigger] bundle_leaves(coins, height)[p]) == wallet[bundle_places(
            nodes,
            height,
        )[p] as int] by {
            if p < front_places.len() {
                assert(bundle_places(nodes, height)[p] == front_places[p]);
                assert(bundle_leaves(coins, height)[p] == front_leaves[p]);
            } else {
                let o = p - front_places.len();
                assert(bundle_places(nodes, height)[p] == last.first(height) + o);
                assert(bundle_leaves(coins, height)[p] == coin_leaves(coins.last(), height)[o]);
                assert(wallet.subrange(
                    last.first(height) as int,
                    (last.first(height) + last.size(height)) as int,
                )[o] == wallet[last.first(height) + o]);
            }
        }
    } else {
        assert(bundle_places(nodes, height).len() == 0);
    }
}

/// The coins of nodes of a wallet that share no leaf settle, once the
/// verifier has accepted their proofs, against every index that holds none
/// of the leaves below the nodes, as long as no two leaves of the wallet are
/// the same.
pub proof fn lemma_honest_bundle_settles(
    seed: Seq<u8>,
    height: nat,
    nodes: Seq<CoinSpec>,
    coins: Seq<Coin>,
    index: Set<nat>,
)
    requires
        coins.len() == nodes.len(),
        forall|k: int| 0 <= k < nodes.len() ==> (#[trigger] nodes[k]).fits(height),
        forall|k: int|
            0 <= k < coins.len() ==> coin_of_node(seed, height, nodes[k], #[trigger] coins[k]),
        forall|k: int, m: int, x: nat|
            0 <= k < m < nodes.len() ==> !(#[trigger] nodes[k].covers(height, x)
                && #[trigger] nodes[m].covers(height, x)),
        wallet_leaves(seed, height).no_duplicates(),
        forall|k: int, x: nat|
            0 <= k < nodes.len() && #[trigger] nodes[k].covers(height, x) ==> !index.contains(
                wallet_leaves(seed, height)[x as int],
            ),
    ensures
        settles(coins, height, Seq::new(coins.len(), |i: int| Some(true)), index),
{
    let wallet = wallet_leaves(seed, height);
    let verdicts = Seq::new(coins.len(), |i: int| Some(true));
    let leaves = bundle_leaves(coins, height);
    let places = bundle_places(nodes, height);
    lemma_expand_len(seed, height);
    lemma_bundle_at_places(seed, height, nodes, coins);
    lemma_places_distinct(nodes, height);
    assert forall|i: int| 0 <= i < coins.len() implies coin_admissible(
        coins[i],
        height,
        verdicts[i],
    ) by {
        assert(coin_of_node(seed, height, nodes[i], coins[i]));
        lemma_coin_leaves_of_node(seed, height, nodes[i], coins[i]);
        lemma_pow2_pos((height - nodes[i].denom) as nat);
    }
    assert forall|p: int, q: int| 0 <= p < q < leaves.len() implies leaves[p] != leaves[q] by {
        assert(leaves[p] == wallet[places[p] as int]);
        assert(leaves[q] == wallet[places[q] as int]);
        assert(places[p] != places[q]);
    }
    assert forall|p: int| 0 <= p < leaves.len() implies !index.contains(leaves[p]) by {
        assert(leaves[p] == wallet[places[p] as int]);
        lemma_places_covered(nodes, height, p);
    }
}

} // verus!
