//! Field elements as canonical little-endian byte strings.

use vstd::prelude::*;
use vstd::arithmetic::power2::pow2;
use vstd::arithmetic::power2::lemma_pow2_adds;
use vstd::arithmetic::power2::lemma2_to64;

pub mod fp;
pub mod fp_ed;

verus! {

/// The number a little-endian byte string denotes.
pub open spec fn le_value(bytes: Seq<u8>) -> nat
    decreases bytes.len(),
{
    if bytes.len() == 0 {
        0
    } else {
        bytes[0] as nat + 256 * le_value(bytes.drop_first())
    }
}

/// Two byte strings of one length that denote the same number are the same.
pub proof fn lemma_le_value_injective(a: Seq<u8>, b: Seq<u8>)
    requires
        a.len() == b.len(),
        le_value(a) == le_value(b),
    ensures
        a == b,
    decreases a.len(),
{
    if a.len() > 0 {
        let ra = le_value(a.drop_first());
        let rb = le_value(b.drop_first());
        assert(a[0] as nat + 256 * ra == b[0] as nat + 256 * rb);
        assert(a[0] == b[0]);
        lemma_le_value_injective(a.drop_first(), b.drop_first());
        assert(a =~= seq![a[0]] + a.drop_first());
        assert(b =~= seq![b[0]] + b.drop_first());
    } else {
        assert(a =~= b);
    }
}

/// A string of zero bytes denotes zero.
pub proof fn lemma_le_value_zeros(bytes: Seq<u8>)
    requires
        forall|i: int| 0 <= i < bytes.len() ==> bytes[i] == 0,
    ensures
        le_value(bytes) == 0,
    decreases bytes.len(),
{
    if bytes.len() > 0 {
        lemma_le_value_zeros(bytes.drop_first());
    }
}

/// A byte string of length `n` denotes a number below `2^(8n)`.
pub proof fn lemma_le_value_bound(bytes: Seq<u8>)
    ensures
        le_value(bytes) < pow2(8 * bytes.len()),
    decreases bytes.len(),
{
    lemma2_to64();
    if bytes.len() > 0 {
        let rest = bytes.drop_first();
        lemma_le_value_bound(rest);
        lemma_pow2_adds(8, 8 * rest.len());
        assert(256 * le_value(rest) + 256 <= 256 * pow2(8 * rest.len())) by (nonlinear_arith)
            requires
                le_value(rest) < pow2(8 * rest.len()),
        ;
    }
}

/// Of two byte strings written one after the other, the second counts
/// from the bit where the first ends.
pub proof fn lemma_le_value_concat(a: Seq<u8>, b: Seq<u8>)
    ensures
        le_value(a + b) == le_value(a) + pow2(8 * a.len()) * le_value(b),
    decreases a.len(),
{
    lemma2_to64();
    if a.len() == 0 {
        assert(a + b =~= b);
        assert(pow2(8 * a.len()) * le_value(b) == le_value(b)) by (nonlinear_arith)
            requires
                pow2(8 * a.len()) == 1,
        ;
    } else {
        let rest = a.drop_first();
        let low = pow2(8 * rest.len());
        assert((a + b).drop_first() =~= rest + b);
        assert((a + b)[0] == a[0]);
        lemma_le_value_concat(rest, b);
        lemma_pow2_adds(8, 8 * rest.len());
        assert(pow2(8 * a.len()) == 256 * low);
        assert(256 * (low * le_value(b)) == (256 * low) * le_value(b)) by (nonlinear_arith);
        assert(le_value(a + b) == a[0] + 256 * (le_value(rest) + low * le_value(b)));
    }
}

} // verus!
