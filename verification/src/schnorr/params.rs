//! The constants of the sponge that turns a commitment and a message into a
//! challenge.

use vstd::prelude::*;

use crate::field::fp::Fp;
use crate::poseidon::Curve;
use crate::poseidon::PoseidonParameters;
use crate::poseidon::poseidon_table;
use crate::poseidon::setup_params;

use ark_bls12_381::Fr;
use ark_ff::PrimeField;
use ark_sponge::CryptographicSponge;

verus! {

/// The constants of a Poseidon sponge of rate 2 and capacity 1.
pub struct SpongeParameters {
    /// The number of rounds that raise every state element.
    pub full_rounds: u32,
    /// The number of rounds that raise one state element only.
    pub partial_rounds: u32,
    /// The exponent of the power map.
    pub alpha: u64,
    /// The matrix that mixes the state, row by row.
    pub mds: Vec<Vec<Fp>>,
    /// The constants added to the state, one row of three for each round.
    pub ark: Vec<Vec<Fp>>,
}

/// The bytes that a sponge over the given constants gives out after it has
/// taken in `input`.
pub uninterp spec fn sponge_squeeze(
    full_rounds: u32,
    partial_rounds: u32,
    alpha: u64,
    mds: Seq<Seq<Seq<u8>>>,
    ark: Seq<Seq<Seq<u8>>>,
    input: Seq<u8>,
    count: nat,
) -> Seq<u8>;

impl SpongeParameters {
    /// The shape the sponge walks without stepping outside a table: a row of
    /// three constants for every round, and a matrix of three rows of three.
    pub open spec fn wf(&self) -> bool {
        &&& self.ark@.len() == self.full_rounds + self.partial_rounds
        &&& self.full_rounds + self.partial_rounds <= u32::MAX
        &&& forall|i: int| 0 <= i < self.ark@.len() ==> (#[trigger] self.ark@[i])@.len() == 3
        &&& self.mds@.len() == 3
        &&& forall|i: int| 0 <= i < 3 ==> (#[trigger] self.mds@[i])@.len() == 3
    }

    /// The first 32 bytes that the sponge gives out after `input`.
    pub open spec fn challenge(&self, input: Seq<u8>) -> Seq<u8> {
        sponge_squeeze(
            self.full_rounds,
            self.partial_rounds,
            self.alpha,
            self.mds.deep_view(),
            self.ark.deep_view(),
            input,
            32,
        )
    }

    /// Takes in `input` and gives out 32 bytes.
    pub fn squeeze_challenge(&self, input: &Vec<u8>) -> (out: [u8; 32])
        requires
            self.wf(),
        ensures
            out@ == self.challenge(input@),
    {
        absorb_then_squeeze(self, input)
    }
}

/// The sponge constants of the hasher's table: the same rounds and matrix,
/// with the round constants laid out in one row of three for each round.
pub open spec fn sponge_of(p: PoseidonParameters, s: SpongeParameters) -> bool {
    &&& s.full_rounds == p.full_rounds
    &&& s.partial_rounds == p.partial_rounds
    &&& s.alpha == p.sbox
    &&& s.mds.deep_view() == p.mds_matrix.deep_view()
    &&& s.ark@.len() == p.full_rounds + p.partial_rounds
    &&& forall|r: int, c: int|
        0 <= r < s.ark@.len() && 0 <= c < 3 ==> (#[trigger] s.ark@[r]@[c])@ == p.round_keys@[3 * r
            + c]@
}

/// Lays the constants of a hasher of width 3 out for the sponge.
pub fn sponge_from(p: &PoseidonParameters) -> (s: SpongeParameters)
    requires
        p.wf(),
        p.width == 3,
        p.sbox >= 0,
        p.mds_matrix@.len() == 3,
        forall|i: int| 0 <= i < 3 ==> (#[trigger] p.mds_matrix@[i])@.len() == 3,
    ensures
        s.wf(),
        sponge_of(*p, s),
{
    let rounds: usize = p.full_rounds as usize + p.partial_rounds as usize;
    let mut ark: Vec<Vec<Fp>> = Vec::new();
    let mut r: usize = 0;
    while r < rounds
        invariant
            r <= rounds,
            rounds == p.full_rounds + p.partial_rounds,
            p.round_keys@.len() >= 3 * rounds,
            ark@.len() == r,
            forall|i: int| 0 <= i < r ==> (#[trigger] ark@[i])@.len() == 3,
            forall|i: int, c: int|
                0 <= i < r && 0 <= c < 3 ==> (#[trigger] ark@[i]@[c])@ == p.round_keys@[3 * i + c]@,
        decreases rounds - r,
    {
        let mut row: Vec<Fp> = Vec::new();
        row.push(p.round_keys[3 * r]);
        row.push(p.round_keys[3 * r + 1]);
        row.push(p.round_keys[3 * r + 2]);
        ark.push(row);
        r += 1;
    }
    let mut mds: Vec<Vec<Fp>> = Vec::new();
    let mut i: usize = 0;
    while i < 3
        invariant
            i <= 3,
            p.mds_matrix@.len() == 3,
            forall|k: int| 0 <= k < 3 ==> (#[trigger] p.mds_matrix@[k])@.len() == 3,
            mds@.len() == i,
            forall|k: int| 0 <= k < i ==> (#[trigger] mds@[k])@.len() == 3,
            forall|k: int, c: int|
                0 <= k < i && 0 <= c < 3 ==> (#[trigger] mds@[k]@[c])@ == p.mds_matrix@[k]@[c]@,
        decreases 3 - i,
    {
        let mut row: Vec<Fp> = Vec::new();
        row.push(p.mds_matrix[i][0]);
        row.push(p.mds_matrix[i][1]);
        row.push(p.mds_matrix[i][2]);
        mds.push(row);
        i += 1;
    }
    proof {
        assert(mds.deep_view() =~~= p.mds_matrix.deep_view());
    }
    SpongeParameters {
        full_rounds: p.full_rounds as u32,
        partial_rounds: p.partial_rounds as u32,
        alpha: p.sbox as u64,
        mds,
        ark,
    }
}

/// The round constants of the challenge sponge: the first 195 of the table
/// for BLS12-381 at width 3 and exponent 3, three to a round.
pub open spec fn challenge_ark() -> Seq<Seq<Seq<u8>>> {
    Seq::new(65, |r: int| Seq::new(3, |c: int| poseidon_table(Curve::Bls381, 3, 3).0[3 * r + c]))
}

/// The matrix of the challenge sponge: that of the same table.
pub open spec fn challenge_mds() -> Seq<Seq<Seq<u8>>> {
    poseidon_table(Curve::Bls381, 3, 3).1
}

/// The challenge that a commitment and a message, written one after the
/// other, give: the first 32 bytes out of the sponge.
pub open spec fn schnorr_challenge(input: Seq<u8>) -> Seq<u8> {
    sponge_squeeze(8, 57, 3, challenge_mds(), challenge_ark(), input, 32)
}

/// The constants of the challenge sponge: those of the hasher's table for
/// BLS12-381 at width 3 and exponent 3.
pub fn poseidon() -> (s: SpongeParameters)
    ensures
        s.wf(),
        forall|input: Seq<u8>| #[trigger] s.challenge(input) == schnorr_challenge(input),
{
    let table = setup_params(Curve::Bls381, 3, 3);
    let p = table.unwrap();
    let s = sponge_from(&p);
    proof {
        assert(s.ark.deep_view() =~~= challenge_ark()) by {
            assert forall|r: int| 0 <= r < 65 implies #[trigger] s.ark.deep_view()[r]
                =~= challenge_ark()[r] by {
                assert(s.ark@[r]@.len() == 3);
                assert forall|c: int| 0 <= c < 3 implies s.ark.deep_view()[r][c]
                    == challenge_ark()[r][c] by {
                    assert(s.ark@[r]@[c]@ == p.round_keys@[3 * r + c]@);
                    assert(p.round_keys.deep_view()[3 * r + c] == p.round_keys@[3 * r + c]@);
                }
            }
        }
    }
    s
}

/// `ark_sponge::poseidon::PoseidonSponge`, made over the constants by
/// `PoseidonParameters::new` and `CryptographicSponge::new`, fed `input`
/// by `absorb` and asked for 32 bytes by `squeeze_bytes`.
#[verifier::external_body]
fn absorb_then_squeeze(params: &SpongeParameters, input: &Vec<u8>) -> (out: [u8; 32])
    requires
        params.wf(),
    ensures
        out@ == sponge_squeeze(
            params.full_rounds,
            params.partial_rounds,
            params.alpha,
            params.mds.deep_view(),
            params.ark.deep_view(),
            input@,
            32,
        ),
{
    let e = |e: &Fp| Fr::from_le_bytes_mod_order(&e.bytes);
    let f = |m: &Vec<Vec<Fp>>| -> Vec<Vec<Fr>> {
        m.iter().map(|r| r.iter().map(e).collect()).collect()
    };
    let p = ark_sponge::poseidon::PoseidonParameters::new(
        params.full_rounds,
        params.partial_rounds,
        params.alpha,
        f(&params.mds),
        f(&params.ark),
    );
    let mut sponge = ark_sponge::poseidon::PoseidonSponge::<Fr>::new(&p);
    sponge.absorb(input);
    sponge.squeeze_bytes(32).try_into().unwrap()
}

} // verus!
