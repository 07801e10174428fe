//! The nodes of a wallet that coins stand for.

use vstd::prelude::*;
use vstd::arithmetic::power2::pow2;

verus! {

/// A node of a wallet: the `index`-th from the left at depth `denom`.
#[derive(Clone, Copy, Debug, PartialEq, Eq, Structural)]
pub struct CoinSpec {
    pub denom: u8,
    pub index: u64,
}

impl CoinSpec {
    /// The number of leaves below the node in a wallet of the given height.
    pub open spec fn size(&self, height: nat) -> nat {
        pow2((height - self.denom) as nat)
    }

    /// The index of the first leaf below the node.
    pub open spec fn first(&self, height: nat) -> nat {
        (self.index * self.size(height)) as nat
    }

    /// Whether leaf `x` is below the node.
    pub open spec fn covers(&self, height: nat, x: nat) -> bool {
        self.first(height) <= x < self.first(height) + self.size(height)
    }

    /// Whether the node is one of a wallet of the given height.
    pub open spec fn fits(&self, height: nat) -> bool {
        self.denom <= height && self.index < pow2(self.denom as nat)
    }
}

} // verus!
