//! The double-spend index: the set of leaves that accepted coins stood for.

use vstd::prelude::*;

use std::collections::BTreeSet;

use crate::field::fp::Fp;
use crate::field::fp::fp_modulus;

verus! {

/// `2^128`, the weight of the second word of a field element.
pub open spec fn word_base() -> nat {
    0x1_0000_0000_0000_0000_0000_0000_0000_0000nat
}

/// The two words of a number below the modulus.
pub open spec fn words_of(v: nat) -> (u128, u128) {
    ((v % word_base()) as u128, (v / word_base()) as u128)
}

/// A set of field elements.
pub struct SpentIndex {
    words: BTreeSet<(u128, u128)>,
}

impl View for SpentIndex {
    type V = Set<nat>;

    closed spec fn view(&self) -> Set<nat> {
        Set::new(|v: nat| v < fp_modulus() && self.words@.contains(words_of(v)))
    }
}

impl SpentIndex {
    /// The empty set.
    pub fn new() -> (index: SpentIndex)
        ensures
            index@ == Set::<nat>::empty(),
    {
        let index = SpentIndex { words: BTreeSet::new() };
        assert(index@ =~= Set::<nat>::empty());
        index
    }

    /// Whether the element is in the set.
    pub fn contains(&self, e: &Fp) -> (found: bool)
        ensures
            found == self@.contains(e.value()),
    {
        let w = e.to_words();
        assert(w == words_of(e.value()));
        self.words.contains(&w)
    }

    /// Puts the element into the set.
    pub fn insert(&mut self, e: &Fp)
        ensures
            final(self)@ == old(self)@.insert(e.value()),
    {
        let w = e.to_words();
        assert(w == words_of(e.value()));
        self.words.insert(w);
        proof {
            assert forall|v: nat| v < fp_modulus() && words_of(v) == w implies v == e.value() by {}
            assert(self@ =~= old(self)@.insert(e.value()));
        }
    }
}

} // verus!
