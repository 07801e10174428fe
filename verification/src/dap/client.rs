//! The client: it keeps wallets, has their commitments signed, and cuts
//! values out of them as coins.

use vstd::prelude::*;
use vstd::arithmetic::power2::pow2;
use vstd::arithmetic::power2::lemma_pow2_pos;
use vstd::arithmetic::power2::lemma_pow2_adds;
use vstd::arithmetic::power2::lemma_pow2_strictly_increases;
use vstd::arithmetic::power2::lemma2_to64;

use crate::dap::laws::coin_of_wallet;
use crate::dap::laws::wallet_leaves;
use crate::dap::messages::IssueRequest;
use crate::dap::messages::IssueResponse;
use crate::dap::messages::RedeemRequest;
use crate::dap::cut::cut;
use crate::dap::cut::cut_value;
use crate::dap::cut::has_node_of;
use crate::dap::cut::is_cut_of;
use crate::dap::cut::lemma_cut_digits;
use crate::dap::cut::lemma_left_bound;
use crate::dap::cut::is_left_of;
use crate::dap::cut::left_above;
use crate::dap::cut::left_amount;
use crate::dap::cut::lemma_cut_amount;
use crate::dap::cut::lemma_cut_iff_left;
use crate::dap::cut::left_wf;
use crate::dap::cut::lemma_cut;
use crate::dap::plan::CoinSpec;
use crate::schnorr::blocks_equal;
use crate::dap::server::DapError;
use crate::dap::server::coin_admissible;
use crate::dap::server::is_field_encoding;
use crate::dap::server::is_scalar_encoding;
use crate::dap::server::leaf_value;
use crate::dap::types::Coin;
use crate::dap::types::PP;
use crate::field::fp::Fp;
use crate::field::fp_ed::FpEd;
use crate::field::le_value;
use crate::ggm::GGM;
use crate::ggm::blocks_of;
use crate::ggm::ggm_eval;
use crate::ggm::ggm_expand;
use crate::ggm::label::bits_msb;
use crate::ggm::laws::lemma_expand_len;
use crate::ggm::laws::lemma_subtree_leaves;
use crate::ggm::u16_to_bv;
use crate::merkle_tree::Path;
use crate::merkle_tree::SparseMerkleTree;
use crate::merkle_tree::is_tree_of;
use crate::merkle_tree::position::first_leaf;
use crate::merkle_tree::position::tree_size;
use crate::merkle_tree::position::two_to_the;
use crate::merkle_tree::tree_path;
use crate::poseidon::Poseidon;
use crate::schnorr::Schnorr;
use crate::schnorr::Signature;
use crate::schnorr::SignatureScheme;
use crate::schnorr::curve::jubjub_mul;
use crate::schnorr::spec_recover;
use crate::schnorr::spec_sign;
use crate::schnorr::spec_verify;

verus! {

/// One wallet: a GGM tree of leaves below a seed, the Merkle tree over
/// them, and the commitment to its root.
pub struct Entry {
    /// The seed of the GGM tree.
    pub key: [u8; 32],
    /// The leaves as field elements.
    pub leaves: Vec<Fp>,
    /// The Merkle tree over the leaves.
    pub smt: SparseMerkleTree,
    /// The root of the Merkle tree.
    pub root: Fp,
    /// The commitment to the root.
    pub com: Fp,
    /// The randomness of the commitment.
    pub open: Fp,
    /// The server's signature on the commitment, once it has come.
    pub sig: Option<Signature>,
    /// The coins made ahead for nodes of the wallet, whose proofs are at
    /// hand when those nodes are cut out.
    pub coins: Vec<Coin>,
    /// The nodes of the wallet not yet cut out, by depth: the index of the
    /// node left at each depth, where one is.
    pub free: Vec<Option<u64>>,
}

impl Entry {
    /// The leaves as byte strings.
    pub open spec fn leaf_bytes(&self) -> Seq<Seq<u8>> {
        self.leaves.deep_view()
    }

    /// The wallet is what its seed gives: the leaves are those of the GGM
    /// tree, the Merkle tree is the one over them, and the commitment is the
    /// digest of its root and the randomness.
    pub open spec fn wf(&self, hasher: Poseidon, height: nat) -> bool {
        &&& height <= 16
        &&& self.leaves@.len() == pow2(height)
        &&& forall|i: int|
            0 <= i < self.leaves@.len() ==> (#[trigger] self.leaves@[i]).value() == wallet_leaves(
                self.key@,
                height,
            )[i]
        &&& self.smt.height == height
        &&& is_tree_of(self.smt.nodes(), hasher, self.leaf_bytes(), height)
        &&& self.root@ == self.smt.nodes()[0]
        &&& hasher.params.digest(seq![self.root@, self.open@]) == Some(self.com@)
        &&& left_wf(self.free@, height)
    }

    /// Whether the signature kept with the wallet, if there is one, is one
    /// on its commitment under the issuer's key.
    pub open spec fn signed_by(&self, pp: PP) -> bool {
        self.sig matches Some(sig) ==> spec_verify(
            pp.sig_params.generator@,
            pp.pk@,
            self.com@,
            sig.prover_response.value(),
            sig.verifier_challenge@,
        )
    }

    /// Whether the wallet is what its seed gives and its signature, if it
    /// has one, verifies.
    pub open spec fn in_order(&self, pp: PP, height: nat) -> bool {
        self.wf(pp.hasher, height) && self.signed_by(pp)
    }

    /// The block of a node of the wallet, the first leaf below it, and the
    /// path of that leaf.
    pub fn witness(&self, spec: CoinSpec, hasher: &Poseidon) -> (w: CoinWitness)
        requires
            self.wf(*hasher, self.smt.height as nat),
            spec.fits(self.smt.height as nat),
        ensures
            w.spec == spec,
            w.key@ == ggm_eval(self.key@, label_of(spec)),
            w.instance == self.leaves@[spec.first(self.smt.height as nat) as int],
            w.instance.value() == leaf_value(
                ggm_expand(w.key@, (self.smt.height - spec.denom) as nat)[0],
            ),
            w.path.pairs() == tree_path(
                self.smt.nodes(),
                first_leaf(self.smt.height as nat) + spec.first(self.smt.height as nat),
            ),
            w.path.path@.len() == self.smt.height,
    {
        let height = self.smt.height;
        let ghost tall = height as nat;
        let rest: usize = height - spec.denom as usize;
        proof {
            lemma2_to64();
            lemma_pow2_pos(rest as nat);
            lemma_pow2_pos(tall);
            lemma_pow2_adds(spec.denom as nat, rest as nat);
            if height < 16 {
                lemma_pow2_strictly_increases(tall, 16);
            }
            if spec.denom < 16 {
                lemma_pow2_strictly_increases(spec.denom as nat, 16);
            }
            assert((spec.index + 1) * pow2(rest as nat) <= pow2(spec.denom as nat) * pow2(
                rest as nat,
            )) by (nonlinear_arith)
                requires
                    spec.index + 1 <= pow2(spec.denom as nat),
            ;
            assert(spec.index * pow2(rest as nat) + pow2(rest as nat) == (spec.index + 1) * pow2(
                rest as nat,
            )) by (nonlinear_arith);
        }
        let run = two_to_the(rest);
        let first: u64 = spec.index * run;
        let ggm = GGM::new();
        let label = u16_to_bv(spec.index as u16, spec.denom as usize);
        let key = ggm.eval(&self.key, &label);
        let instance = self.leaves[first as usize];
        proof {
            assert forall|p: u64|
                p < tree_size(tall) implies #[trigger] self.smt.tree@.contains_key(p) by {
                assert(self.smt.nodes().contains_key(p));
            }
        }
        let path = self.smt.generate_membership_proof(first);
        proof {
            lemma_subtree_leaves(self.key@, spec.denom as nat, rest as nat, spec.index as nat);
            lemma_expand_len(key@, rest as nat);
            lemma_expand_len(self.key@, tall);
            let whole = ggm_expand(self.key@, tall);
            assert(whole.subrange(first as int, first + run)[0] == whole[first as int]);
            assert(wallet_leaves(self.key@, tall)[first as int] == leaf_value(whole[first as int]));
        }
        CoinWitness { spec, key, instance, path }
    }
}

/// What the prover needs to know of one coin besides the wallet itself.
pub struct CoinWitness {
    /// The node that the coin is.
    pub spec: CoinSpec,
    /// The GGM block of the node.
    pub key: [u8; 32],
    /// The first leaf below the node, which the coin names as its instance.
    pub instance: Fp,
    /// The path from that leaf up to the root of the wallet.
    pub path: Path,
}

/// The nodes of a list of witnesses.
pub open spec fn specs_of(ws: Seq<CoinWitness>) -> Seq<CoinSpec> {
    ws.map_values(|w: CoinWitness| w.spec)
}

/// The label of a node: the lowest `denom` bits of its index.
pub open spec fn label_of(spec: CoinSpec) -> Seq<bool> {
    bits_msb(spec.index as nat, spec.denom as nat)
}

/// The client's state.
pub struct Client {
    /// The public parameters.
    pub pp: PP,
    /// The wallets, oldest first.
    pub wallet: Vec<Entry>,
    /// Coins kept outside any wallet.
    pub coins: Vec<Coin>,
}

impl Client {
    /// The height of the client's wallets.
    pub open spec fn height(&self) -> nat {
        (self.pp.groth_pks@.len() - 1) as nat
    }

    /// There is a proving key for every height from 0 up to the wallets',
    /// the hasher hashes every pair, and every wallet is in order.
    pub open spec fn wf(&self) -> bool {
        &&& 1 <= self.pp.groth_pks@.len() <= 17
        &&& self.pp.hasher.params.hashes_pairs()
        &&& forall|i: int|
            0 <= i < self.wallet@.len() ==> (#[trigger] self.wallet@[i]).in_order(
                self.pp,
                self.height(),
            )
    }

    /// A client without a wallet.
    pub fn new(pp: PP) -> (client: Client)
        ensures
            client.pp == pp,
            client.wallet@.len() == 0,
            client.coins@.len() == 0,
    {
        Client { pp, wallet: Vec::new(), coins: Vec::new() }
    }

    /// Makes a wallet from a fresh seed and fresh randomness and asks the
    /// server to sign its commitment.
    pub fn issue_request(&mut self) -> (req: IssueRequest)
        requires
            old(self).wf(),
        ensures
            final(self).wf(),
            final(self).pp == old(self).pp,
            final(self).wallet@.len() == old(self).wallet@.len() + 1,
            final(self).wallet@.drop_last() == old(self).wallet@,
            final(self).coins == old(self).coins,
            final(self).wallet@.last().sig is None,
            final(self).wallet@.last().coins@.len() == 0,
            final(self).wallet@.last().free@ == whole_wallet(old(self).height()),
            req.com@ == final(self).wallet@.last().com@,
            is_field_encoding(req.com@),
    {
        let key = random_block();
        let open = Fp::rand();
        self.issue_request_with(key, open)
    }

    /// Makes the wallet of the given seed and randomness and asks the server
    /// to sign its commitment.
    pub fn issue_request_with(&mut self, key: [u8; 32], open: Fp) -> (req: IssueRequest)
        requires
            old(self).wf(),
        ensures
            final(self).wf(),
            final(self).pp == old(self).pp,
            final(self).coins == old(self).coins,
            final(self).wallet@.len() == old(self).wallet@.len() + 1,
            final(self).wallet@.drop_last() == old(self).wallet@,
            final(self).wallet@.last().key == key,
            final(self).wallet@.last().open == open,
            final(self).wallet@.last().sig is None,
            final(self).wallet@.last().coins@.len() == 0,
            final(self).wallet@.last().free@ == whole_wallet(old(self).height()),
            req.com@ == final(self).wallet@.last().com@,
            is_field_encoding(req.com@),
    {
        let height: usize = self.pp.groth_pks.len() - 1;
        let ghost tall = height as nat;
        proof {
            lemma2_to64();
            lemma_pow2_pos(tall);
            if height < 16 {
                lemma_pow2_strictly_increases(tall, 16);
            }
            lemma_expand_len(key@, tall);
        }
        let ggm = GGM::new();
        let leaves_bytes = ggm.expand(&key, height as u8);
        let mut leaves: Vec<Fp> = Vec::new();
        let mut i: usize = 0;
        while i < leaves_bytes.len()
            invariant
                i <= leaves_bytes@.len(),
                leaves@.len() == i,
                leaves_bytes@.len() == pow2(tall),
                blocks_of(leaves_bytes@) == ggm_expand(key@, tall),
                forall|k: int|
                    0 <= k < i ==> (#[trigger] leaves@[k]).value() == wallet_leaves(key@, tall)[k],
            decreases leaves_bytes@.len() - i,
        {
            assert(blocks_of(leaves_bytes@)[i as int] == leaves_bytes@[i as int]@);
            leaves.push(Fp::from_le_bytes_mod_order(leaves_bytes[i].as_slice()));
            i += 1;
        }
        let built = SparseMerkleTree::new_sequential(leaves.as_slice(), &self.pp.hasher);
        let smt = built.unwrap();
        proof {
            crate::merkle_tree::position::lemma_pow2_injective(smt.height as nat, tall);
            assert(smt.nodes().contains_key(0));
            assert(smt.tree@.contains_key(0));
        }
        let root = smt.root();
        let inputs = [root, open];
        assert(inputs.deep_view() =~= seq![root@, open@]);
        let com = self.pp.hasher.hash(inputs.as_slice()).unwrap();
        let mut free: Vec<Option<u64>> = Vec::new();
        free.push(Some(0));
        while free.len() <= height
            invariant
                1 <= free@.len() <= height + 1,
                free@ == whole_wallet(tall).take(free@.len() as int),
                tall == height,
            decreases height + 1 - free@.len(),
        {
            free.push(None);
            assert(free@ =~= whole_wallet(tall).take(free@.len() as int));
        }
        proof {
            assert(free@ =~= whole_wallet(tall));
            lemma_whole_wallet(tall);
        }
        let entry = Entry {
            key,
            leaves,
            smt,
            root,
            com,
            open,
            sig: None,
            coins: Vec::new(),
            free,
        };
        let ghost before = self.wallet@;
        self.wallet.push(entry);
        proof {
            assert(self.wallet@.drop_last() =~= before);
            assert forall|k: int| 0 <= k < self.wallet@.len() implies (
            #[trigger] self.wallet@[k]).in_order(self.pp, self.height()) by {
                if k < before.len() {
                    assert(self.wallet@[k] == before[k]);
                }
            }
        }
        IssueRequest { com: com.serialize() }
    }

    /// Takes the server's signature for the oldest wallet.
    ///
    /// A response whose first field is not the encoding of one scalar is
    /// refused and changes nothing. A signature that is not one on the
    /// wallet's commitment is refused and the wallet is thrown away.
    pub fn issue_process(&mut self, rsp: IssueResponse) -> (r: Result<(), DapError>)
        requires
            old(self).wallet@.len() > 0,
        ensures
            final(self).pp == old(self).pp,
            final(self).coins == old(self).coins,
            old(self).wf() ==> final(self).wf(),
            r == spec_issue_process(
                old(self).pp,
                old(self).wallet@[0].com@,
                rsp.sig.prover_response@,
                rsp.sig.verifier_challenge@,
            ),
            match r {
                Ok(()) => {
                    &&& final(self).wallet@.len() == old(self).wallet@.len()
                    &&& final(self).wallet@[0].sig matches Some(sig)
                    &&& sig.prover_response@ == rsp.sig.prover_response@
                    &&& sig.verifier_challenge == rsp.sig.verifier_challenge
                    &&& same_but_sig(old(self).wallet@[0], final(self).wallet@[0])
                    &&& forall|i: int|
                        1 <= i < old(self).wallet@.len() ==> final(self).wallet@[i] == old(
                            self,
                        ).wallet@[i]
                },
                Err(DapError::Malformed) => final(self).wallet == old(self).wallet,
                Err(DapError::InvalidSignature) => final(self).wallet@ == old(
                    self,
                ).wallet@.drop_first(),
            },
    {
        let prover_response = match decode_scalar(&rsp.sig.prover_response) {
            Some(s) => s,
            None => {
                return Err(DapError::Malformed);
            },
        };
        let sig = Signature { prover_response, verifier_challenge: rsp.sig.verifier_challenge };
        let valid = Schnorr::verify(&self.pp.sig_params, &self.pp.pk, &self.wallet[0].com, &sig);
        if !valid {
            let ghost before = self.wallet@;
            self.wallet.remove(0);
            proof {
                assert(self.wallet@ =~= before.drop_first());
                if old(self).wf() {
                    assert forall|i: int| 0 <= i < self.wallet@.len() implies (
                    #[trigger] self.wallet@[i]).in_order(self.pp, self.height()) by {
                        assert(self.wallet@[i] == before[i + 1]);
                    }
                }
            }
            return Err(DapError::InvalidSignature);
        }
        let ghost before = self.wallet@;
        let mut entry = self.wallet.remove(0);
        entry.sig = Some(sig);
        self.wallet.insert(0, entry);
        proof {
            assert forall|i: int| 1 <= i < before.len() implies self.wallet@[i] == before[i] by {}
            if old(self).wf() {
                assert forall|i: int| 0 <= i < self.wallet@.len() implies (
                #[trigger] self.wallet@[i]).in_order(self.pp, self.height()) by {
                    assert(before[i].in_order(self.pp, self.height()));
                    if i > 0 {
                        assert(self.wallet@[i] == before[i]);
                    }
                }
            }
        }
        Ok(())
    }
}

impl CoinWitness {
    /// The coin that the witness and a proof for it make.
    pub fn into_coin(&self, proof_bytes: Vec<u8>) -> (coin: Coin)
        ensures
            coin.denom == self.spec.denom,
            coin.key == self.key,
            coin.instance_bytes@ == self.instance@,
            is_field_encoding(coin.instance_bytes@),
            coin.proof_bytes == proof_bytes,
    {
        Coin {
            denom: self.spec.denom,
            key: self.key,
            instance_bytes: self.instance.serialize(),
            proof_bytes,
        }
    }
}

impl Entry {
    /// The place, among the coins kept with the wallet, of the first that
    /// is the coin of the witness's node.
    pub fn find_proof(&self, w: &CoinWitness, instance_bytes: &Vec<u8>) -> (r: Option<usize>)
        requires
            instance_bytes@ == w.instance@,
        ensures
            match r {
                Some(j) => j < self.coins@.len() && same_node(self.coins@[j as int], *w)
                    && forall|i: int| 0 <= i < j ==> !same_node(#[trigger] self.coins@[i], *w),
                None => forall|i: int|
                    0 <= i < self.coins@.len() ==> !same_node(#[trigger] self.coins@[i], *w),
            },
    {
        let mut j: usize = 0;
        while j < self.coins.len()
            invariant
                j <= self.coins@.len(),
                instance_bytes@ == w.instance@,
                forall|i: int| 0 <= i < j ==> !same_node(#[trigger] self.coins@[i], *w),
            decreases self.coins@.len() - j,
        {
            let stored = &self.coins[j];
            if stored.denom == w.spec.denom && blocks_equal(&stored.key, &w.key) && bytes_equal(
                &stored.instance_bytes,
                instance_bytes,
            ) {
                return Some(j);
            }
            j += 1;
        }
        None
    }
}

impl Client {
    /// Says which coins a cut of `n` leaves out of the oldest wallet makes:
    /// one node for each binary digit of `n`, with what the prover needs to
    /// know of it. Changes nothing.
    ///
    /// Fails where the wallet has no node left for one of the digits.
    pub fn redeem_plan(&self, n: u16) -> (r: Option<Vec<CoinWitness>>)
        requires
            self.wf(),
            self.wallet@.len() > 0,
        ensures
            r is Some <==> self.wallet@[0].cut(self.height(), n as nat) is Some,
            r is Some <==> n <= left_amount(self.wallet@[0].free@, self.height()),
            r matches Some(ws) ==> {
                &&& is_cut_of(
                    self.wallet@[0].free@,
                    self.height(),
                    n as nat,
                    specs_of(ws@),
                )
                &&& forall|i: int|
                    0 <= i <= self.height() ==> (#[trigger] has_node_of(
                        specs_of(ws@),
                        self.height(),
                        i,
                    ) <==> (n as nat / pow2(i as nat)) % 2 == 1)
                &&& specs_of(ws@) == self.wallet@[0].cut(
                    self.height(),
                    n as nat,
                )->Some_0.0
                &&& forall|k: int|
                    0 <= k < ws@.len() ==> witness_of(
                        self.wallet@[0],
                        self.height(),
                        #[trigger] ws@[k],
                    )
            },
    {
        let height: usize = self.pp.groth_pks.len() - 1;
        let ghost tall = height as nat;
        proof {
            assert(self.wallet@[0].in_order(self.pp, tall));
        }
        let entry = &self.wallet[0];
        proof {
            lemma_cut_iff_left(entry.free@, tall, n as nat);
        }
        let nodes = match cut_value(&entry.free, n as u64, height) {
            None => {
                return None;
            },
            Some((nodes, _)) => nodes,
        };
        proof {
            lemma_cut(entry.free@, tall, n as nat, tall as int);
            lemma_left_bound(entry.free@, tall);
            lemma_cut_digits(entry.free@, tall, n as nat, tall as int);
        }
        let mut witnesses: Vec<CoinWitness> = Vec::new();
        let mut k: usize = 0;
        while k < nodes.len()
            invariant
                k <= nodes@.len(),
                witnesses@.len() == k,
                entry.wf(self.pp.hasher, tall),
                forall|i: int| 0 <= i < nodes@.len() ==> (#[trigger] nodes@[i]).fits(tall),
                forall|i: int| 0 <= i < k ==> (#[trigger] witnesses@[i]).spec == nodes@[i],
                forall|i: int| 0 <= i < k ==> witness_of(*entry, tall, #[trigger] witnesses@[i]),
            decreases nodes@.len() - k,
        {
            let w = entry.witness(nodes[k], &self.pp.hasher);
            witnesses.push(w);
            k += 1;
        }
        proof {
            assert(specs_of(witnesses@) =~= nodes@);
        }
        Some(witnesses)
    }

    /// Keeps a coin with the oldest wallet, for its proof to be at hand when
    /// the coin's node is cut out.
    pub fn store_coin(&mut self, coin: Coin)
        requires
            old(self).wallet@.len() > 0,
        ensures
            final(self).pp == old(self).pp,
            final(self).coins == old(self).coins,
            final(self).wallet@.len() == old(self).wallet@.len(),
            forall|i: int|
                1 <= i < old(self).wallet@.len() ==> final(self).wallet@[i] == old(self).wallet@[i],
            same_but_coins(old(self).wallet@[0], final(self).wallet@[0]),
            final(self).wallet@[0].coins@ == old(self).wallet@[0].coins@.push(coin),
            old(self).wf() ==> final(self).wf(),
    {
        let ghost before = self.wallet@;
        let mut entry = self.wallet.remove(0);
        entry.coins.push(coin);
        self.wallet.insert(0, entry);
        proof {
            if old(self).wf() {
                assert forall|i: int| 0 <= i < self.wallet@.len() implies (
                #[trigger] self.wallet@[i]).in_order(self.pp, self.height()) by {
                    assert(before[i].in_order(self.pp, self.height()));
                    if i > 0 {
                        assert(self.wallet@[i] == before[i]);
                    }
                }
            }
        }
    }

    /// Cuts the value `n` out of the oldest wallet and hands the coins in:
    /// one coin for each binary digit of `n`, the highest first, each the
    /// coin of a node that was left, with the proof of the first coin kept
    /// with the wallet that is the coin of that node.
    ///
    /// Fails, and changes nothing, where `n` is 0, where the wallet has no
    /// node left for one of the digits, or where no proof is kept for one of
    /// the nodes.
    pub fn redeem_request(&mut self, n: u16) -> (r: Option<RedeemRequest>)
        requires
            old(self).wf(),
            old(self).wallet@.len() > 0,
        ensures
            final(self).wf(),
            final(self).pp == old(self).pp,
            final(self).coins == old(self).coins,
            final(self).wallet@.len() == old(self).wallet@.len(),
            forall|i: int|
                1 <= i < old(self).wallet@.len() ==> final(self).wallet@[i] == old(self).wallet@[i],
            r is Some <==> n >= 1 && old(self).wallet@[0].can_spend(old(self).height(), n as nat),
            old(self).wallet@[0].cut(old(self).height(), n as nat) is Some <==> n <= left_amount(
                old(self).wallet@[0].free@,
                old(self).height(),
            ),
            r is None ==> final(self).wallet@ == old(self).wallet@,
            r matches Some(req) ==> {
                &&& same_but_left(old(self).wallet@[0], final(self).wallet@[0])
                &&& is_cut_of(
                    old(self).wallet@[0].free@,
                    old(self).height(),
                    n as nat,
                    old(self).wallet@[0].cut(old(self).height(), n as nat)->Some_0.0,
                )
                &&& is_left_of(
                    old(self).wallet@[0].free@,
                    old(self).height(),
                    old(self).wallet@[0].cut(old(self).height(), n as nat)->Some_0.0,
                    final(self).wallet@[0].free@,
                )
                &&& left_amount(final(self).wallet@[0].free@, old(self).height()) + n
                    == left_amount(old(self).wallet@[0].free@, old(self).height())
                &&& forall|i: int|
                    0 <= i <= old(self).height() ==> (#[trigger] has_node_of(
                        old(self).wallet@[0].cut(old(self).height(), n as nat)->Some_0.0,
                        old(self).height(),
                        i,
                    ) <==> (n as nat / pow2(i as nat)) % 2 == 1)
                &&& final(self).wallet@[0].free@ == old(self).wallet@[0].cut(
                    old(self).height(),
                    n as nat,
                )->Some_0.1
                &&& req.coins@.len() == old(self).wallet@[0].cut(
                    old(self).height(),
                    n as nat,
                )->Some_0.0.len()
                &&& forall|k: int|
                    0 <= k < req.coins@.len() ==> is_coin_from(
                        old(self).wallet@[0],
                        old(self).height(),
                        old(self).wallet@[0].cut(old(self).height(), n as nat)->Some_0.0[k],
                        #[trigger] req.coins@[k],
                    ) && is_field_encoding(req.coins@[k].instance_bytes@)
            },
    {
        let height: usize = self.pp.groth_pks.len() - 1;
        let ghost tall = height as nat;
        let ghost before = self.wallet@;
        let ghost first = self.wallet@[0];
        proof {
            assert(first.in_order(self.pp, tall));
        }
        proof {
            lemma_cut_iff_left(first.free@, tall, n as nat);
        }
        if n == 0 {
            return None;
        }
        let (nodes, left) = match cut_value(&self.wallet[0].free, n as u64, height) {
            None => {
                return None;
            },
            Some(cut) => cut,
        };
        proof {
            lemma_cut(first.free@, tall, n as nat, tall as int);
            lemma_cut_amount(first.free@, tall, n as nat, tall as int);
            lemma_left_bound(first.free@, tall);
            lemma_cut_digits(first.free@, tall, n as nat, tall as int);
        }
        let mut coins: Vec<Coin> = Vec::new();
        let mut k: usize = 0;
        while k < nodes.len()
            invariant
                k <= nodes@.len(),
                coins@.len() == k,
                *self == *old(self),
                self.wf(),
                self.wallet@ == before,
                before.len() > 0,
                first == before[0],
                tall == self.height(),
                n <= left_amount(first.free@, tall),
                first.cut(tall, n as nat) is Some,
                nodes@ == first.cut(tall, n as nat)->Some_0.0,
                first.wf(self.pp.hasher, tall),
                forall|i: int| 0 <= i < nodes@.len() ==> (#[trigger] nodes@[i]).fits(tall),
                forall|i: int|
                    0 <= i < k ==> is_coin_from(first, tall, nodes@[i], #[trigger] coins@[i])
                        && is_field_encoding(coins@[i].instance_bytes@),
            decreases nodes@.len() - k,
        {
            let entry = &self.wallet[0];
            let w = entry.witness(nodes[k], &self.pp.hasher);
            let instance_bytes = w.instance.serialize();
            let at = match entry.find_proof(&w, &instance_bytes) {
                None => {
                    proof {
                        assert(!has_proof(first, tall, nodes@[k as int])) by {
                            assert forall|i: int| 0 <= i < first.coins@.len() implies !is_coin_of(
                                first,
                                tall,
                                nodes@[k as int],
                                #[trigger] first.coins@[i],
                            ) by {
                                assert(!same_node(first.coins@[i], w));
                            }
                        }
                    }
                    return None;
                },
                Some(at) => at,
            };
            let proof_bytes = copy_bytes(&entry.coins[at].proof_bytes);
            let coin = Coin { denom: w.spec.denom, key: w.key, instance_bytes, proof_bytes };
            proof {
                assert forall|i: int| 0 <= i < at implies !is_coin_of(
                    first,
                    tall,
                    nodes@[k as int],
                    #[trigger] first.coins@[i],
                ) by {
                    assert(!same_node(first.coins@[i], w));
                }
                assert(is_coin_of(first, tall, nodes@[k as int], first.coins@[at as int]));
            }
            coins.push(coin);
            k += 1;
        }
        let mut entry = self.wallet.remove(0);
        entry.free = left;
        self.wallet.insert(0, entry);
        proof {
            assert forall|k: int| 0 <= k < nodes@.len() implies has_proof(
                first,
                tall,
                #[trigger] nodes@[k],
            ) by {
                assert(is_coin_from(first, tall, nodes@[k], coins@[k]));
            }
            assert forall|i: int| 0 <= i < self.wallet@.len() implies (
            #[trigger] self.wallet@[i]).in_order(self.pp, self.height()) by {
                assert(before[i].in_order(self.pp, self.height()));
                if i > 0 {
                    assert(self.wallet@[i] == before[i]);
                }
            }
        }
        Some(RedeemRequest { coins })
    }
}

impl Entry {
    /// What cutting the value `n` out of the wallet gives: the nodes, one
    /// for each binary digit of `n`, and what is left then.
    pub open spec fn cut(&self, height: nat, n: nat) -> Option<(Seq<CoinSpec>, Seq<Option<u64>>)> {
        cut(self.free@, height, n, height as int)
    }

    /// Whether the value `n` can be cut out and handed in: the wallet has a
    /// node left for each binary digit of `n`, and a proof is kept for each
    /// of those nodes.
    pub open spec fn can_spend(&self, height: nat, n: nat) -> bool {
        &&& self.cut(height, n) is Some
        &&& forall|k: int|
            0 <= k < self.cut(height, n)->Some_0.0.len() ==> has_proof(
                *self,
                height,
                #[trigger] self.cut(height, n)->Some_0.0[k],
            )
    }
}

/// The wallet of which nothing is cut out: its root is left.
pub open spec fn whole_wallet(height: nat) -> Seq<Option<u64>> {
    Seq::new(
        height + 1,
        |d: int|
            if d == 0 {
                Some(0u64)
            } else {
                None
            },
    )
}

/// A whole wallet is in order, and all its leaves are left.
pub proof fn lemma_whole_wallet(height: nat)
    requires
        height <= 16,
    ensures
        left_wf(whole_wallet(height), height),
        left_amount(whole_wallet(height), height) == pow2(height),
{
    lemma2_to64();
    lemma_whole_above(height, height as int);
}

/// All leaves of a whole wallet are counted at its root.
proof fn lemma_whole_above(height: nat, d: int)
    requires
        0 <= d <= height,
    ensures
        left_above(whole_wallet(height), height, d) == pow2(height),
    decreases d,
{
    if d > 0 {
        lemma_whole_above(height, d - 1);
    } else {
        assert(left_above(whole_wallet(height), height, -1) == 0);
    }
}

/// Whether a coin is the coin of a node of the wallet: it has the node's
/// depth, the block that the node's label leads to from the seed, and the
/// encoding of the first leaf below the node as its instance.
pub open spec fn is_coin_of(entry: Entry, height: nat, node: CoinSpec, coin: Coin) -> bool {
    &&& coin.denom == node.denom
    &&& coin.key@ == ggm_eval(entry.key@, label_of(node))
    &&& coin.instance_bytes@ == entry.leaves@[node.first(height) as int]@
}

/// Whether a proof is kept with the wallet for the coin of a node.
pub open spec fn has_proof(entry: Entry, height: nat, node: CoinSpec) -> bool {
    exists|j: int|
        0 <= j < entry.coins@.len() && is_coin_of(entry, height, node, #[trigger] entry.coins@[j])
}

/// Whether a coin is the coin of a node of the wallet with the proof of the
/// first coin kept with the wallet that is the coin of that node.
pub open spec fn is_coin_from(entry: Entry, height: nat, node: CoinSpec, coin: Coin) -> bool {
    &&& is_coin_of(entry, height, node, coin)
    &&& exists|j: int|
        {
            &&& 0 <= j < entry.coins@.len()
            &&& is_coin_of(entry, height, node, #[trigger] entry.coins@[j])
            &&& coin.proof_bytes@ == entry.coins@[j].proof_bytes@
            &&& forall|i: int|
                0 <= i < j ==> !is_coin_of(entry, height, node, #[trigger] entry.coins@[i])
        }
}

/// Whether a witness is the one of its node in the given wallet: the key is
/// the block that the node's label leads to from the seed, the instance is
/// the first leaf below the node and the first that follows from the key,
/// and the path is that leaf's.
pub open spec fn witness_of(entry: Entry, height: nat, w: CoinWitness) -> bool {
    &&& w.spec.fits(height)
    &&& w.key@ == ggm_eval(entry.key@, label_of(w.spec))
    &&& w.instance == entry.leaves@[w.spec.first(height) as int]
    &&& w.instance.value() == leaf_value(ggm_expand(w.key@, (height - w.spec.denom) as nat)[0])
    &&& w.path.pairs() == tree_path(entry.smt.nodes(), first_leaf(height) + w.spec.first(height))
    &&& w.path.path@.len() == height
}

/// Whether a coin has the depth, the block and the instance of a witness.
pub open spec fn same_node(coin: Coin, w: CoinWitness) -> bool {
    &&& coin.denom == w.spec.denom
    &&& coin.key@ == w.key@
    &&& coin.instance_bytes@ == w.instance@
}

/// Whether two byte strings are the same.
pub fn bytes_equal(a: &Vec<u8>, b: &Vec<u8>) -> (same: bool)
    ensures
        same == (a@ == b@),
{
    if a.len() != b.len() {
        return false;
    }
    let mut i: usize = 0;
    while i < a.len()
        invariant
            i <= a@.len(),
            a@.len() == b@.len(),
            forall|j: int| 0 <= j < i ==> a@[j] == b@[j],
        decreases a@.len() - i,
    {
        if a[i] != b[i] {
            return false;
        }
        i += 1;
    }
    assert(a@ =~= b@);
    true
}

/// A copy of a byte string.
pub fn copy_bytes(bytes: &Vec<u8>) -> (out: Vec<u8>)
    ensures
        out@ == bytes@,
{
    let mut out: Vec<u8> = Vec::new();
    let mut i: usize = 0;
    while i < bytes.len()
        invariant
            i <= bytes@.len(),
            out@ == bytes@.take(i as int),
        decreases bytes@.len() - i,
    {
        out.push(bytes[i]);
        assert(out@ =~= bytes@.take(i + 1));
        i += 1;
    }
    assert(bytes@.take(bytes@.len() as int) =~= bytes@);
    out
}

/// The coin that a witness of a wallet makes is a coin of that wallet, and
/// is in order as soon as the verifier accepts its proof.
pub proof fn lemma_honest_coin(entry: Entry, height: nat, w: CoinWitness, coin: Coin)
    requires
        witness_of(entry, height, w),
        coin.denom == w.spec.denom,
        coin.key == w.key,
        coin.instance_bytes@ == w.instance@,
        is_field_encoding(coin.instance_bytes@),
    ensures
        coin_of_wallet(entry.key@, height, coin),
        coin_admissible(coin, height, Some(true)),
{
    lemma_expand_len(coin.key@, (height - coin.denom) as nat);
    lemma_pow2_pos((height - coin.denom) as nat);
    assert(coin.key@ == ggm_eval(entry.key@, bits_msb(w.spec.index as nat, coin.denom as nat)));
}

/// Whether two wallets differ in nothing but what is left of them.
pub open spec fn same_but_left(a: Entry, b: Entry) -> bool {
    &&& a.key == b.key
    &&& a.leaves == b.leaves
    &&& a.smt == b.smt
    &&& a.root == b.root
    &&& a.com == b.com
    &&& a.open == b.open
    &&& a.sig == b.sig
    &&& a.coins == b.coins
}

/// Whether two wallets differ in nothing but the coins kept with them.
pub open spec fn same_but_coins(a: Entry, b: Entry) -> bool {
    &&& a.key == b.key
    &&& a.leaves == b.leaves
    &&& a.smt == b.smt
    &&& a.root == b.root
    &&& a.com == b.com
    &&& a.open == b.open
    &&& a.sig == b.sig
    &&& a.free == b.free
}

/// Whether two wallets differ in nothing but the signature.
pub open spec fn same_but_sig(a: Entry, b: Entry) -> bool {
    &&& a.key == b.key
    &&& a.leaves == b.leaves
    &&& a.smt == b.smt
    &&& a.root == b.root
    &&& a.com == b.com
    &&& a.open == b.open
    &&& a.coins == b.coins
    &&& a.free == b.free
}

/// What becomes of a response for a wallet with the given commitment.
pub open spec fn spec_issue_process(
    pp: PP,
    com: Seq<u8>,
    response: Seq<u8>,
    challenge: Seq<u8>,
) -> Result<(), DapError> {
    if !is_scalar_encoding(response) {
        Err(DapError::Malformed)
    } else if !spec_verify(pp.sig_params.generator@, pp.pk@, com, le_value(response), challenge) {
        Err(DapError::InvalidSignature)
    } else {
        Ok(())
    }
}

/// What the server signs for a wallet is accepted for that wallet whenever
/// the verifier rebuilds the signer's commitment from it: a response that
/// is the encoding of one scalar, made with the secret of the issuer's key
/// on the wallet's commitment, is taken.
pub proof fn lemma_issue_round_trip(
    pp: PP,
    secret: nat,
    com: Seq<u8>,
    response: Seq<u8>,
    challenge: Seq<u8>,
    nonce: nat,
)
    requires
        pp.pk@ == jubjub_mul(pp.sig_params.generator@.0, pp.sig_params.generator@.1, secret),
        is_scalar_encoding(response),
        (le_value(response), challenge) == spec_sign(pp.sig_params.generator@, secret, com, nonce),
        spec_recover(pp.sig_params.generator@, pp.pk@, le_value(response), challenge)
            == jubjub_mul(pp.sig_params.generator@.0, pp.sig_params.generator@.1, nonce),
    ensures
        spec_issue_process(pp, com, response, challenge) == Ok::<(), DapError>(()),
{
}

/// The decoding of a scalar that is alone in its byte string.
pub fn decode_scalar(bytes: &Vec<u8>) -> (r: Option<FpEd>)
    ensures
        r is Some <==> is_scalar_encoding(bytes@),
        r matches Some(e) ==> e@ == bytes@,
{
    if bytes.len() != 32 {
        return None;
    }
    assert(bytes@.take(32) =~= bytes@);
    FpEd::deserialize(bytes.as_slice())
}

/// 32 bytes from the thread's random number generator, by `rand::Rng::gen`.
/// Nothing is known of which bytes come back.
#[verifier::external_body]
fn random_block() -> [u8; 32] {
    rand::Rng::gen(&mut rand::thread_rng())
}

} // verus!
