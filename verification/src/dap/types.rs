//! The values that the client and the server hold and exchange.

use vstd::prelude::*;

use crate::poseidon::Poseidon;
use crate::schnorr::Parameters;
use crate::schnorr::PublicKey;
use crate::schnorr::SecretKey;

verus! {

/// The parameters of the signature scheme.
pub type SigParams = Parameters;

/// The issuer's secret key.
pub type SigSecretKey = SecretKey;

/// The issuer's public key.
pub type SigPublicKey = PublicKey;

/// A leaf that stands where none was put.
pub const DEFAULT_LEAF: [u8; 32] = [
    0, 0, 0, 0, 0, 0, 0, 0, 0, 0, 0, 0, 0, 0, 0, 0, 0, 0, 0, 0, 0, 0, 0, 0, 0, 0, 0, 0, 0, 0, 0, 0,
];

/// The exponent of the hasher's power map.
pub const POSEIDON_EXP: i8 = 3;

/// The number of state elements of the hasher.
pub const POSEIDON_WIDTH: u8 = 3;

/// The height of a wallet: it holds `2^HEIGHT` leaves.
pub const HEIGHT: usize = 12;

/// A signature as it travels: the response in its encoding, and the
/// challenge.
#[derive(Clone, Debug, PartialEq, Eq)]
pub struct SchnorrSig {
    pub prover_response: Vec<u8>,
    pub verifier_challenge: [u8; 32],
}

/// A coin: the node at depth `denom` of a wallet, worth the
/// `2^(height - denom)` leaves below it.
#[derive(Clone, Debug, PartialEq, Eq)]
pub struct Coin {
    /// The depth of the node below the root of the wallet.
    pub denom: u8,
    /// The GGM block of the node, from which the leaves below it follow.
    pub key: [u8; 32],
    /// The encoding of the field element that the proof speaks of.
    pub instance_bytes: Vec<u8>,
    /// The encoding of the proof.
    pub proof_bytes: Vec<u8>,
}

/// The public parameters, which the server makes once and every client
/// holds.
#[derive(Clone, Debug)]
pub struct PP {
    pub sig_params: SigParams,
    pub hasher: Poseidon,
    pub pk: SigPublicKey,
    /// The encoded proving key of each height, from 0 up to the wallet's.
    pub groth_pks: Vec<Vec<u8>>,
}

} // verus!
