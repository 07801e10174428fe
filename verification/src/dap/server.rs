//! The server: it signs commitments and takes coins in.

use vstd::prelude::*;
use vstd::arithmetic::power2::pow2;
use vstd::arithmetic::power2::lemma_pow2_strictly_increases;
use vstd::arithmetic::power2::lemma2_to64;

use crate::dap::messages::IssueRequest;
use crate::dap::messages::IssueResponse;
use crate::dap::messages::RedeemRequest;
use crate::dap::messages::RedeemResponse;
use crate::dap::snark::groth16_verdict;
use crate::dap::snark::verify_proof;
use crate::dap::spent::SpentIndex;
use crate::dap::types::Coin;
use crate::dap::types::PP;
use crate::dap::types::SchnorrSig;
use crate::dap::types::SigSecretKey;
use crate::field::fp::Fp;
use crate::field::fp::fp_canonical;
use crate::field::fp::fp_modulus;
use crate::field::fp_ed::fp_ed_canonical;
use crate::field::le_value;
use crate::ggm::GGM;
use crate::ggm::blocks_of;
use crate::ggm::ggm_expand;
use crate::schnorr::Schnorr;
use crate::schnorr::SignatureScheme;
use crate::schnorr::spec_sign;

verus! {

/// Why a message was not acted on.
#[derive(Clone, Copy, Debug, PartialEq, Eq, Structural)]
pub enum DapError {
    /// A field of the message is not the encoding of what it should hold.
    Malformed,
    /// The signature is not one on the commitment.
    InvalidSignature,
}

/// Whether a byte string is the encoding of exactly one field element.
pub open spec fn is_field_encoding(bytes: Seq<u8>) -> bool {
    bytes.len() == 32 && fp_canonical(bytes)
}

/// Whether a byte string is the encoding of exactly one scalar.
pub open spec fn is_scalar_encoding(bytes: Seq<u8>) -> bool {
    bytes.len() == 32 && fp_ed_canonical(bytes)
}

/// The field element that a GGM block stands for.
pub open spec fn leaf_value(block: Seq<u8>) -> nat {
    le_value(block) % fp_modulus()
}

/// The leaves that a coin stands for in a wallet of the given height, from
/// left to right: those that follow from its key at the depth that is left
/// below its own.
pub open spec fn coin_leaves(coin: Coin, height: nat) -> Seq<nat> {
    ggm_expand(coin.key@, (height - coin.denom) as nat).map_values(|b: Seq<u8>| leaf_value(b))
}

/// The number of leaves that a coin is worth.
pub open spec fn coin_value(coin: Coin, height: nat) -> nat {
    pow2((height - coin.denom) as nat)
}

/// Whether a coin by itself is in order, given what the verifier said of
/// its proof: its depth is one of the wallet, its instance is the encoding
/// of a field element, the proof was accepted, and the first leaf that
/// follows from its key is the instance.
pub open spec fn coin_admissible(coin: Coin, height: nat, verdict: Option<bool>) -> bool {
    &&& coin.denom <= height
    &&& is_field_encoding(coin.instance_bytes@)
    &&& verdict == Some(true)
    &&& coin_leaves(coin, height)[0] == le_value(coin.instance_bytes@)
}

/// All leaves of a bundle, coin after coin.
pub open spec fn bundle_leaves(coins: Seq<Coin>, height: nat) -> Seq<nat>
    decreases coins.len(),
{
    if coins.len() == 0 {
        seq![]
    } else {
        bundle_leaves(coins.drop_last(), height) + coin_leaves(coins.last(), height)
    }
}

/// Whether a bundle is accepted against an index, given what the verifier
/// said of each proof: every coin is in order, no leaf occurs twice in the
/// bundle, and none is in the index.
pub open spec fn settles(
    coins: Seq<Coin>,
    height: nat,
    verdicts: Seq<Option<bool>>,
    index: Set<nat>,
) -> bool {
    &&& verdicts.len() == coins.len()
    &&& forall|i: int| 0 <= i < coins.len() ==> coin_admissible(coins[i], height, verdicts[i])
    &&& bundle_leaves(coins, height).no_duplicates()
    &&& forall|k: int|
        0 <= k < bundle_leaves(coins, height).len() ==> !index.contains(
            bundle_leaves(coins, height)[k],
        )
}

/// The index after a bundle: with all its leaves if it was accepted, and
/// unchanged if not.
pub open spec fn index_after(
    coins: Seq<Coin>,
    height: nat,
    verdicts: Seq<Option<bool>>,
    index: Set<nat>,
) -> Set<nat> {
    if settles(coins, height, verdicts, index) {
        index.union(bundle_leaves(coins, height).to_set())
    } else {
        index
    }
}

/// What the verifier says of one coin under the key of its depth: `None`
/// where there is no such key or the instance is no field element.
pub open spec fn verdict_of(vks: Seq<Seq<u8>>, coin: Coin) -> Option<bool> {
    if coin.denom < vks.len() && is_field_encoding(coin.instance_bytes@) {
        groth16_verdict(vks[coin.denom as int], coin.instance_bytes@, coin.proof_bytes@)
    } else {
        None
    }
}

/// What the verifier says of each coin of a bundle.
pub open spec fn verdicts_of(vks: Seq<Seq<u8>>, coins: Seq<Coin>) -> Seq<Option<bool>> {
    Seq::new(coins.len(), |i: int| verdict_of(vks, coins[i]))
}

/// The leaves of the first `i` coins are the first leaves of the bundle.
pub proof fn lemma_bundle_prefix(coins: Seq<Coin>, height: nat, i: int)
    requires
        0 <= i <= coins.len(),
    ensures
        bundle_leaves(coins.take(i), height).len() <= bundle_leaves(coins, height).len(),
        bundle_leaves(coins.take(i), height) == bundle_leaves(coins, height).take(
            bundle_leaves(coins.take(i), height).len() as int,
        ),
    decreases coins.len() - i,
{
    if i == coins.len() {
        assert(coins.take(i) =~= coins);
        assert(bundle_leaves(coins, height).take(bundle_leaves(coins, height).len() as int)
            =~= bundle_leaves(coins, height));
    } else {
        lemma_bundle_prefix(coins, height, i + 1);
        let next = coins.take(i + 1);
        assert(next.drop_last() =~= coins.take(i));
        let short = bundle_leaves(coins.take(i), height);
        let longer = bundle_leaves(next, height);
        assert(longer == short + coin_leaves(next.last(), height));
        assert(short =~= bundle_leaves(coins, height).take(short.len() as int));
    }
}

/// The decoding of a field element that is alone in its byte string.
pub fn decode_field(bytes: &Vec<u8>) -> (r: Option<Fp>)
    ensures
        r is Some <==> is_field_encoding(bytes@),
        r matches Some(e) ==> e@ == bytes@,
{
    if bytes.len() != 32 {
        return None;
    }
    assert(bytes@.take(32) =~= bytes@);
    Fp::deserialize(bytes.as_slice())
}

/// The server's state.
pub struct Server {
    /// The public parameters.
    pub pp: PP,
    /// The secret key that signs commitments.
    pub sk: SigSecretKey,
    /// The encoded verifying key of each height, from 0 up to the wallet's.
    pub groth_vks: Vec<Vec<u8>>,
    /// The leaves of all coins accepted so far.
    pub spent: SpentIndex,
}

impl Server {
    /// The height of the wallets that the server takes coins of.
    pub open spec fn height(&self) -> nat {
        (self.groth_vks@.len() - 1) as nat
    }

    /// The verifying keys as byte strings.
    pub open spec fn vks(&self) -> Seq<Seq<u8>> {
        self.groth_vks@.map_values(|k: Vec<u8>| k@)
    }

    /// There is a verifying key for every height from 0 up to the wallet's,
    /// which is small enough for the leaves of a wallet to be counted.
    pub open spec fn wf(&self) -> bool {
        1 <= self.groth_vks@.len() <= 32
    }

    /// A server with the given keys and an empty index.
    pub fn new(pp: PP, sk: SigSecretKey, groth_vks: Vec<Vec<u8>>) -> (server: Server)
        ensures
            server.pp == pp,
            server.sk == sk,
            server.groth_vks == groth_vks,
            server.spent@ == Set::<nat>::empty(),
    {
        Server { pp, sk, groth_vks, spent: SpentIndex::new() }
    }

    /// Signs the commitment of a request: the response comes back as the
    /// encoding of one scalar, beside the challenge it answers.
    ///
    /// Fails only where the request does not hold the encoding of one field
    /// element.
    pub fn issue(&self, req: IssueRequest) -> (r: Result<IssueResponse, DapError>)
        ensures
            r is Ok <==> is_field_encoding(req.com@),
            r matches Err(e) ==> e == DapError::Malformed,
            r matches Ok(rsp) ==> is_scalar_encoding(rsp.sig.prover_response@),
            r matches Ok(rsp) ==> exists|nonce: nat|
                (le_value(rsp.sig.prover_response@), rsp.sig.verifier_challenge@) == spec_sign(
                    self.pp.sig_params.generator@,
                    self.sk.secret_key.value(),
                    req.com@,
                    nonce,
                ),
    {
        let com = match decode_field(&req.com) {
            Some(com) => com,
            None => {
                return Err(DapError::Malformed);
            },
        };
        let sig = Schnorr::sign(&self.pp.sig_params, &self.sk, &com);
        let prover_response = sig.prover_response.serialize();
        Ok(
            IssueResponse {
                sig: SchnorrSig { prover_response, verifier_challenge: sig.verifier_challenge },
            },
        )
    }

    /// Asks the verifier about the proof of every coin, each under the key
    /// of the coin's depth.
    pub fn check_proofs(&self, coins: &Vec<Coin>) -> (verdicts: Vec<Option<bool>>)
        ensures
            verdicts@ == verdicts_of(self.vks(), coins@),
    {
        let mut verdicts: Vec<Option<bool>> = Vec::new();
        let mut i: usize = 0;
        while i < coins.len()
            invariant
                i <= coins@.len(),
                verdicts@.len() == i,
                forall|k: int| 0 <= k < i ==> verdicts@[k] == verdict_of(self.vks(), coins@[k]),
            decreases coins@.len() - i,
        {
            let coin = &coins[i];
            let mut verdict: Option<bool> = None;
            if (coin.denom as usize) < self.groth_vks.len() {
                match decode_field(&coin.instance_bytes) {
                    Some(instance) => {
                        verdict = verify_proof(
                            self.groth_vks[coin.denom as usize].as_slice(),
                            &instance,
                            coin.proof_bytes.as_slice(),
                        );
                    },
                    None => {},
                }
            }
            verdicts.push(verdict);
            i += 1;
        }
        assert(verdicts@ =~= verdicts_of(self.vks(), coins@));
        verdicts
    }

    /// Takes a bundle in, given what the verifier said of each proof.
    ///
    /// The bundle is accepted as a whole or not at all: only when every coin
    /// is in order and no leaf of the bundle was seen before, in the index or
    /// earlier in the bundle, are its leaves put into the index.
    pub fn settle(&mut self, coins: &Vec<Coin>, verdicts: &Vec<Option<bool>>) -> (valid: bool)
        requires
            old(self).wf(),
        ensures
            final(self).pp == old(self).pp,
            final(self).sk == old(self).sk,
            final(self).groth_vks == old(self).groth_vks,
            valid == settles(coins@, old(self).height(), verdicts@, old(self).spent@),
            final(self).spent@ == index_after(
                coins@,
                old(self).height(),
                verdicts@,
                old(self).spent@,
            ),
    {
        let ghost height = self.height();
        let ghost index = self.spent@;
        let ghost all = bundle_leaves(coins@, height);
        if verdicts.len() != coins.len() {
            return false;
        }
        let top: usize = self.groth_vks.len() - 1;
        let ggm = GGM::new();
        let mut seen = SpentIndex::new();
        let mut pending: Vec<Fp> = Vec::new();
        let ghost mut done: Seq<nat> = seq![];
        let mut i: usize = 0;
        proof {
            assert(coins@.take(0) =~= Seq::<Coin>::empty());
        }
        while i < coins.len()
            invariant
                i <= coins@.len(),
                verdicts@.len() == coins@.len(),
                self.wf(),
                top == height,
                height == self.height(),
                height == old(self).height(),
                index == old(self).spent@,
                self.pp == old(self).pp,
                self.sk == old(self).sk,
                self.groth_vks == old(self).groth_vks,
                self.spent@ == index,
                all == bundle_leaves(coins@, height),
                done == bundle_leaves(coins@.take(i as int), height),
                done.no_duplicates(),
                seen@ == done.to_set(),
                pending@.len() == done.len(),
                forall|k: int| 0 <= k < done.len() ==> (#[trigger] pending@[k]).value() == done[k],
                forall|k: int| 0 <= k < done.len() ==> !index.contains(#[trigger] done[k]),
                forall|k: int|
                    0 <= k < i ==> coin_admissible(#[trigger] coins@[k], height, verdicts@[k]),
            decreases coins@.len() - i,
        {
            let coin = &coins[i];
            let ghost here = coin_leaves(*coin, height);
            let ghost base = done;
            proof {
                lemma_bundle_prefix(coins@, height, i + 1);
                assert(coins@.take(i + 1).drop_last() =~= coins@.take(i as int));
                assert(bundle_leaves(coins@.take(i + 1), height) == base + here);
            }
            if coin.denom as usize > top {
                return false;
            }
            let instance = match decode_field(&coin.instance_bytes) {
                Some(instance) => instance,
                None => {
                    return false;
                },
            };
            match verdicts[i] {
                Some(true) => {},
                _ => {
                    return false;
                },
            }
            let depth: u8 = (top - coin.denom as usize) as u8;
            proof {
                lemma2_to64();
                if depth < 31 {
                    lemma_pow2_strictly_increases(depth as nat, 31);
                }
                crate::ggm::laws::lemma_expand_len(coin.key@, depth as nat);
                vstd::arithmetic::power2::lemma_pow2_pos(depth as nat);
            }
            let blocks = ggm.expand(&coin.key, depth);
            assert(here.len() == blocks@.len());
            let mut j: usize = 0;
            proof {
                assert(here.take(0) =~= Seq::<nat>::empty());
                assert(base + here.take(0) =~= base);
            }
            while j < blocks.len()
                invariant
                    j <= blocks@.len(),
                    i < coins@.len(),
                    verdicts@.len() == coins@.len(),
                    *coin == coins@[i as int],
                    height == old(self).height(),
                    index == old(self).spent@,
                    self.spent@ == index,
                    self.pp == old(self).pp,
                    self.sk == old(self).sk,
                    self.groth_vks == old(self).groth_vks,
                    here == coin_leaves(*coin, height),
                    here.len() == blocks@.len(),
                    blocks@.len() >= 1,
                    blocks_of(blocks@) == ggm_expand(coin.key@, depth as nat),
                    depth == height - coin.denom,
                    instance@ == coin.instance_bytes@,
                    all == bundle_leaves(coins@, height),
                    (base + here).len() <= all.len(),
                    base + here == all.take((base + here).len() as int),
                    done == base + here.take(j as int),
                    done.no_duplicates(),
                    seen@ == done.to_set(),
                    pending@.len() == done.len(),
                    forall|k: int|
                        0 <= k < done.len() ==> (#[trigger] pending@[k]).value() == done[k],
                    forall|k: int| 0 <= k < done.len() ==> !index.contains(#[trigger] done[k]),
                    j > 0 ==> here[0] == le_value(coin.instance_bytes@),
                decreases blocks@.len() - j,
            {
                let leaf = Fp::from_le_bytes_mod_order(blocks[j].as_slice());
                let ghost at = done.len() as int;
                proof {
                    assert(blocks_of(blocks@)[j as int] == blocks@[j as int]@);
                    assert(here[j as int] == leaf.value());
                    assert(at == base.len() + j);
                    assert((base + here)[at] == here[j as int]);
                    assert(all[at] == leaf.value());
                    assert forall|k: int| 0 <= k < at implies all[k] == done[k] by {
                        assert((base + here)[k] == done[k]);
                    }
                }
                if j == 0 && !leaf.equals(&instance) {
                    proof {
                        assert(!coin_admissible(coins@[i as int], height, verdicts@[i as int]));
                    }
                    return false;
                }
                if self.spent.contains(&leaf) {
                    proof {
                        assert(index.contains(all[at]));
                    }
                    return false;
                }
                if seen.contains(&leaf) {
                    proof {
                        let earlier = choose|k: int| 0 <= k < done.len() && done[k] == leaf.value();
                        assert(all[earlier] == all[at] && earlier != at);
                    }
                    return false;
                }
                seen.insert(&leaf);
                pending.push(leaf);
                proof {
                    let grown = done.push(leaf.value());
                    done.lemma_push_to_set_commute(leaf.value());
                    assert(grown =~= base + here.take(j + 1));
                    done = grown;
                }
                j += 1;
            }
            proof {
                assert(here.take(here.len() as int) =~= here);
                assert(coin_admissible(coins@[i as int], height, verdicts@[i as int]));
            }
            i += 1;
        }
        proof {
            assert(coins@.take(coins@.len() as int) =~= coins@);
            assert(done == all);
        }
        let mut k: usize = 0;
        while k < pending.len()
            invariant
                k <= pending@.len(),
                pending@.len() == all.len(),
                self.pp == old(self).pp,
                self.sk == old(self).sk,
                self.groth_vks == old(self).groth_vks,
                forall|m: int| 0 <= m < all.len() ==> (#[trigger] pending@[m]).value() == all[m],
                self.spent@ == index.union(all.take(k as int).to_set()),
            decreases pending@.len() - k,
        {
            self.spent.insert(&pending[k]);
            proof {
                assert(all.take(k + 1) =~= all.take(k as int).push(all[k as int]));
                all.take(k as int).lemma_push_to_set_commute(all[k as int]);
                assert(self.spent@ =~= index.union(all.take(k + 1).to_set()));
            }
            k += 1;
        }
        proof {
            assert(all.take(all.len() as int) =~= all);
        }
        true
    }

    /// Takes a bundle of coins in: checks every proof and settles the bundle.
    pub fn redeem(&mut self, req: RedeemRequest) -> (rsp: RedeemResponse)
        requires
            old(self).wf(),
        ensures
            final(self).pp == old(self).pp,
            final(self).sk == old(self).sk,
            final(self).groth_vks == old(self).groth_vks,
            rsp.valid == settles(
                req.coins@,
                old(self).height(),
                verdicts_of(old(self).vks(), req.coins@),
                old(self).spent@,
            ),
            final(self).spent@ == index_after(
                req.coins@,
                old(self).height(),
                verdicts_of(old(self).vks(), req.coins@),
                old(self).spent@,
            ),
    {
        let verdicts = self.check_proofs(&req.coins);
        let valid = self.settle(&req.coins, &verdicts);
        RedeemResponse { valid }
    }
}

} // verus!
