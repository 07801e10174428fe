//! The divisible-token protocol: a client has a commitment to the Merkle
//! root of its wallet signed, and later hands in coins, each a node of the
//! wallet with a proof that it hangs below a signed root. The server
//! rebuilds the leaves below each coin and accepts a bundle only if none of
//! them has been seen before.

pub mod client;
pub mod cut;
pub mod laws;
pub mod messages;
pub mod plan;
pub mod relation;
pub mod server;
pub mod snark;
pub mod spent;
pub mod types;
