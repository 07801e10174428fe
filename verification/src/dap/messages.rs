//! The messages between the client and the server.

use vstd::prelude::*;

use crate::dap::types::Coin;
use crate::dap::types::SchnorrSig;

verus! {

/// Asks the server to sign a commitment.
#[derive(Clone, Debug)]
pub struct IssueRequest {
    /// The encoding of the commitment.
    pub com: Vec<u8>,
}

/// The server's signature on a commitment.
#[derive(Clone, Debug)]
pub struct IssueResponse {
    pub sig: SchnorrSig,
}

/// Hands a bundle of coins in.
#[derive(Clone, Debug)]
pub struct RedeemRequest {
    pub coins: Vec<Coin>,
}

/// Whether the whole bundle was accepted.
#[derive(Debug)]
pub struct RedeemResponse {
    pub valid: bool,
}

} // verus!
