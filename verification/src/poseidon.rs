//! The Poseidon hash over the BLS12-381 scalar field: the two-to-one hash of
//! the Merkle tree and of the wallet commitment.

use vstd::prelude::*;

use crate::field::fp::Fp;

use ark_bls12_381::Fr;
use ark_ff::BigInteger;
use ark_ff::PrimeField;
use arkworks_native_gadgets::poseidon::FieldHasher;
use arkworks_native_gadgets::poseidon::sbox::PoseidonSbox;
use arkworks_utils::bytes_matrix_to_f;
use arkworks_utils::bytes_vec_to_f;
use arkworks_utils::poseidon_params::setup_poseidon_params;

verus! {

/// The curve whose scalar field a table of constants is made for.
#[derive(Clone, Copy, Debug, PartialEq, Eq)]
pub enum Curve {
    Bls381,
    Bn254,
}

/// The constants of one Poseidon instance.
#[derive(Clone, Debug, PartialEq, Eq)]
pub struct PoseidonParameters {
    /// One constant for each state element of each round.
    pub round_keys: Vec<Fp>,
    /// The matrix that mixes the state, row by row.
    pub mds_matrix: Vec<Vec<Fp>>,
    /// The number of rounds that raise every state element.
    pub full_rounds: u8,
    /// The number of rounds that raise the first state element only.
    pub partial_rounds: u8,
    /// The number of state elements.
    pub width: u8,
    /// The exponent of the power map.
    pub sbox: i8,
}

/// A hasher with its constants.
#[derive(Clone, Debug, PartialEq, Eq)]
pub struct Poseidon {
    pub params: PoseidonParameters,
}

/// `arkworks_native_gadgets::poseidon::PoseidonError`, of which nothing is
/// known but that the hasher failed.
#[verifier::external_type_specification]
#[verifier::external_body]
pub struct ExPoseidonError(arkworks_native_gadgets::poseidon::PoseidonError);

/// The digest of `inputs` under the given constants, or `None` where the
/// hasher refuses.
pub uninterp spec fn poseidon_digest(
    round_keys: Seq<Seq<u8>>,
    mds_matrix: Seq<Seq<Seq<u8>>>,
    full_rounds: u8,
    partial_rounds: u8,
    width: u8,
    sbox: i8,
    inputs: Seq<Seq<u8>>,
) -> Option<Seq<u8>>;

/// The round constants and the mixing matrix that the table for a curve, an
/// exponent and a width holds, each entry reduced into the field.
pub uninterp spec fn poseidon_table(curve: Curve, exp: i8, width: u8) -> (
    Seq<Seq<u8>>,
    Seq<Seq<Seq<u8>>>,
);

/// The tables that are compiled in.
pub open spec fn table_available(curve: Curve, exp: i8, width: u8) -> bool {
    curve == Curve::Bls381 && width == 3 && (exp == 3 || exp == 5)
}

impl PoseidonParameters {
    /// The shape the hasher walks without stepping outside a table: a
    /// constant for every state element of every round, and a square matrix
    /// of the state's width.
    pub open spec fn wf(&self) -> bool {
        &&& self.width >= 1
        &&& self.round_keys@.len() >= (self.full_rounds + self.partial_rounds) * self.width
        &&& self.mds_matrix@.len() >= self.width
        &&& forall|i: int|
            0 <= i < self.width ==> (#[trigger] self.mds_matrix@[i])@.len() >= self.width
    }

    /// Whether hashing two elements succeeds whatever they are: the state has
    /// room for them and the power map is one of the total ones.
    pub open spec fn hashes_pairs(&self) -> bool {
        &&& self.wf()
        &&& self.width >= 3
        &&& (self.sbox == 3 || self.sbox == 5 || self.sbox == 17)
    }

    /// The digest of `inputs` under these constants.
    pub open spec fn digest(&self, inputs: Seq<Seq<u8>>) -> Option<Seq<u8>> {
        poseidon_digest(
            self.round_keys.deep_view(),
            self.mds_matrix.deep_view(),
            self.full_rounds,
            self.partial_rounds,
            self.width,
            self.sbox,
            inputs,
        )
    }

    /// Whether the tables have the shape `wf` asks for.
    pub fn check_shape(&self) -> (ok: bool)
        ensures
            ok == self.wf(),
    {
        if self.width < 1 {
            return false;
        }
        let width: usize = self.width as usize;
        let rounds: usize = self.full_rounds as usize + self.partial_rounds as usize;
        assert(rounds * width <= 510 * 255) by (nonlinear_arith)
            requires
                rounds <= 510,
                width <= 255,
        ;
        if self.round_keys.len() < rounds * width {
            return false;
        }
        if self.mds_matrix.len() < width {
            return false;
        }
        let mut i: usize = 0;
        while i < width
            invariant
                i <= width,
                width == self.width,
                self.mds_matrix@.len() >= width,
                forall|j: int| 0 <= j < i ==> (#[trigger] self.mds_matrix@[j])@.len() >= self.width,
            decreases width - i,
        {
            if self.mds_matrix[i].len() < width {
                return false;
            }
            i += 1;
        }
        true
    }
}

impl Poseidon {
    /// A hasher over the given constants.
    pub fn new(params: PoseidonParameters) -> (h: Poseidon)
        ensures
            h.params == params,
    {
        Poseidon { params }
    }

    /// The digest of two elements.
    pub open spec fn digest_two(&self, left: Seq<u8>, right: Seq<u8>) -> Option<Seq<u8>> {
        self.params.digest(seq![left, right])
    }

    /// Hashes up to `width - 1` elements into one.
    ///
    /// Fails exactly where the hasher does: with more inputs than the state
    /// has room for, or with a power map it does not know or cannot apply.
    pub fn hash(&self, inputs: &[Fp]) -> (r: Result<Fp, HashError>)
        requires
            self.params.wf(),
        ensures
            match r {
                Ok(e) => self.params.digest(inputs.deep_view()) == Some(e@),
                Err(_) => self.params.digest(inputs.deep_view()) is None,
            },
            inputs@.len() + 1 > self.params.width ==> r is Err,
            self.params.hashes_pairs() && inputs@.len() <= 2 ==> r is Ok,
    {
        match permute(&self.params, inputs) {
            Ok(e) => Ok(e),
            Err(_) => Err(HashError),
        }
    }

    /// Hashes a left and a right element into their parent.
    pub fn hash_two(&self, left: &Fp, right: &Fp) -> (r: Result<Fp, HashError>)
        requires
            self.params.wf(),
        ensures
            match r {
                Ok(e) => self.digest_two(left@, right@) == Some(e@),
                Err(_) => self.digest_two(left@, right@) is None,
            },
            self.params.hashes_pairs() ==> r is Ok,
    {
        let inputs = [*left, *right];
        assert(inputs.deep_view() =~= seq![left@, right@]);
        self.hash(inputs.as_slice())
    }
}

/// The hasher refused its inputs or could not apply its power map.
#[derive(Clone, Copy, Debug, PartialEq, Eq)]
pub struct HashError;

/// The constants for a curve, an exponent and a width, or `None` where no
/// table for them is compiled in.
pub fn setup_params(curve: Curve, exp: i8, width: u8) -> (r: Option<PoseidonParameters>)
    ensures
        r is Some <==> table_available(curve, exp, width),
        r matches Some(p) ==> {
            &&& p.hashes_pairs()
            &&& (p.round_keys.deep_view(), p.mds_matrix.deep_view()) == poseidon_table(
                curve,
                exp,
                width,
            )
            &&& p.width == width
            &&& p.sbox == exp
            &&& p.full_rounds == 8
            &&& p.partial_rounds == 57
            &&& p.round_keys@.len() >= 195
            &&& p.mds_matrix@.len() == 3
            &&& forall|i: int| 0 <= i < 3 ==> (#[trigger] p.mds_matrix@[i])@.len() == 3
        },
{
    let available = match curve {
        Curve::Bls381 => width == 3 && (exp == 3 || exp == 5),
        Curve::Bn254 => false,
    };
    if !available {
        return None;
    }
    Some(load_table(curve, exp, width))
}

/// `arkworks_native_gadgets::poseidon::Poseidon::hash`, with the constants
/// and the inputs turned into field elements and the digest turned back.
///
/// The digest is a function of the constants and the inputs alone, and comes
/// back in its canonical encoding. The source refuses more inputs than
/// `width - 1` before anything else, and its power map cannot fail for the
/// exponents 3, 5 and 17.
#[verifier::external_body]
fn permute(params: &PoseidonParameters, inputs: &[Fp]) -> (r: Result<
    Fp,
    arkworks_native_gadgets::poseidon::PoseidonError,
>)
    requires
        params.wf(),
    ensures
        r.is_ok() == poseidon_digest(
            params.round_keys.deep_view(),
            params.mds_matrix.deep_view(),
            params.full_rounds,
            params.partial_rounds,
            params.width,
            params.sbox,
            inputs.deep_view(),
        ).is_some(),
        r matches Ok(e) ==> Some(e@) == poseidon_digest(
            params.round_keys.deep_view(),
            params.mds_matrix.deep_view(),
            params.full_rounds,
            params.partial_rounds,
            params.width,
            params.sbox,
            inputs.deep_view(),
        ),
        inputs@.len() + 1 > params.width ==> r is Err,
        params.hashes_pairs() && inputs@.len() <= 2 ==> r is Ok,
{
    let f = |e: &Fp| Fr::from_le_bytes_mod_order(&e.bytes);
    let p = arkworks_native_gadgets::poseidon::PoseidonParameters::new(
        params.round_keys.iter().map(f).collect(),
        params.mds_matrix.iter().map(|row| row.iter().map(f).collect()).collect(),
        params.full_rounds,
        params.partial_rounds,
        params.width,
        PoseidonSbox(params.sbox),
    );
    let ins: Vec<Fr> = inputs.iter().map(f).collect();
    let h = arkworks_native_gadgets::poseidon::Poseidon::new(p).hash(&ins)?;
    Ok(Fp { bytes: h.into_repr().to_bytes_le().try_into().unwrap() })
}

/// `arkworks_utils::poseidon_params::setup_poseidon_params`, with each
/// entry reduced into the field by `arkworks_utils::bytes_vec_to_f` and
/// `bytes_matrix_to_f`.
///
/// The tables for exponents 3 and 5 at width 3 on BLS12-381 both name
/// 8 full and 57 partial rounds and hold a matrix of three rows of three; the
/// one holds 276 round constants and the other 195. Every entry comes back
/// in its canonical encoding.
#[verifier::external_body]
fn load_table(curve: Curve, exp: i8, width: u8) -> (p: PoseidonParameters)
    requires
        table_available(curve, exp, width),
    ensures
        (p.round_keys.deep_view(), p.mds_matrix.deep_view()) == poseidon_table(curve, exp, width),
        p.width == width,
        p.sbox == exp,
        p.full_rounds == 8,
        p.partial_rounds == 57,
        p.round_keys@.len() >= 195,
        p.mds_matrix@.len() == 3,
        forall|i: int| 0 <= i < 3 ==> (#[trigger] p.mds_matrix@[i])@.len() == 3,
{
    let c = match curve {
        Curve::Bls381 => arkworks_utils::Curve::Bls381,
        Curve::Bn254 => arkworks_utils::Curve::Bn254,
    };
    let d = setup_poseidon_params(c, exp, width).unwrap();
    let f = |e: &Fr| Fp { bytes: e.into_repr().to_bytes_le().try_into().unwrap() };
    let keys: Vec<Fr> = bytes_vec_to_f(&d.rounds);
    let mds: Vec<Vec<Fr>> = bytes_matrix_to_f(&d.mds);
    let round_keys = keys.iter().map(f).collect();
    let mds_matrix = mds.iter().map(|row| row.iter().map(f).collect()).collect();
    let (full_rounds, partial_rounds) = (d.full_rounds, d.partial_rounds);
    PoseidonParameters { round_keys, mds_matrix, full_rounds, partial_rounds, width, sbox: exp }
}

} // verus!
