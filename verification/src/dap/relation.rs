//! What a coin's proof shows, stated on the values themselves: the
//! commitment is signed by the issuer and opens to a Merkle root, and the
//! coin's instance hangs below that root.

use vstd::prelude::*;
use vstd::arithmetic::power2::pow2;
use vstd::arithmetic::power2::lemma_pow2_pos;
use vstd::arithmetic::power2::lemma_pow2_adds;

use crate::dap::client::CoinWitness;
use crate::dap::client::Entry;
use crate::dap::client::witness_of;
use crate::dap::types::PP;
use crate::field::fp::Fp;
use crate::merkle_tree::Error;
use crate::merkle_tree::Path;
use crate::merkle_tree::laws::lemma_membership_sound;
use crate::merkle_tree::path::spec_check_membership;
use crate::schnorr::Schnorr;
use crate::schnorr::Signature;
use crate::schnorr::SignatureScheme;
use crate::schnorr::spec_verify;

verus! {

/// Whether the signature is one on the commitment under the issuer's key,
/// and the commitment is the digest of the root and the randomness.
pub open spec fn spec_root_relation(
    pp: PP,
    sig: Signature,
    root: Seq<u8>,
    com: Seq<u8>,
    open: Seq<u8>,
) -> bool {
    &&& spec_verify(
        pp.sig_params.generator@,
        pp.pk@,
        com,
        sig.prover_response.value(),
        sig.verifier_challenge@,
    )
    &&& pp.hasher.params.digest(seq![root, open]) == Some(com)
}

/// Whether, besides, the path leads from the leaf to the root.
pub open spec fn spec_spend_relation(
    pp: PP,
    sig: Signature,
    root: Seq<u8>,
    com: Seq<u8>,
    open: Seq<u8>,
    leaf: Seq<u8>,
    pairs: Seq<(Seq<u8>, Seq<u8>)>,
) -> bool {
    &&& spec_root_relation(pp, sig, root, com, open)
    &&& spec_check_membership(pp.hasher, pairs, root, leaf) == Ok::<bool, Error>(true)
}

/// Checks that the commitment is signed and opens to the root.
pub fn root_relation(pp: &PP, sig: &Signature, root: &Fp, com: &Fp, open: &Fp) -> (holds: bool)
    requires
        pp.hasher.params.wf(),
    ensures
        holds == spec_root_relation(*pp, *sig, root@, com@, open@),
{
    if !Schnorr::verify(&pp.sig_params, &pp.pk, com, sig) {
        return false;
    }
    let inputs = [*root, *open];
    assert(inputs.deep_view() =~= seq![root@, open@]);
    match pp.hasher.hash(inputs.as_slice()) {
        Ok(digest) => digest.equals(com),
        Err(_) => false,
    }
}

/// Checks that the commitment is signed and opens to the root, and that the
/// path leads from the leaf to the root.
pub fn spend_relation(
    pp: &PP,
    sig: &Signature,
    root: &Fp,
    com: &Fp,
    open: &Fp,
    leaf: &Fp,
    path: &Path,
) -> (holds: bool)
    requires
        pp.hasher.params.wf(),
    ensures
        holds == spec_spend_relation(*pp, *sig, root@, com@, open@, leaf@, path.pairs()),
{
    if !root_relation(pp, sig, root, com, open) {
        return false;
    }
    match path.check_membership(root, leaf, &pp.hasher) {
        Ok(member) => member,
        Err(_) => false,
    }
}

/// Every witness of a wallet whose signature has come satisfies the
/// relation that its proof is to show.
pub proof fn lemma_wallet_satisfies_relation(pp: PP, entry: Entry, height: nat, w: CoinWitness)
    requires
        entry.in_order(pp, height),
        entry.sig is Some,
        witness_of(entry, height, w),
    ensures
        spec_spend_relation(
            pp,
            entry.sig->Some_0,
            entry.root@,
            entry.com@,
            entry.open@,
            w.instance@,
            w.path.pairs(),
        ),
{
    let rest = (height - w.spec.denom) as nat;
    let first = w.spec.first(height);
    lemma_pow2_pos(rest);
    lemma_pow2_adds(w.spec.denom as nat, rest);
    assert(first + pow2(rest) <= pow2(w.spec.denom as nat) * pow2(rest)) by (nonlinear_arith)
        requires
            first == w.spec.index * pow2(rest),
            w.spec.index + 1 <= pow2(w.spec.denom as nat),
    ;
    lemma_membership_sound(pp.hasher, entry.leaf_bytes(), height, entry.smt.nodes(), first);
    assert(entry.leaf_bytes()[first as int] == entry.leaves@[first as int]@);
}

} // verus!
