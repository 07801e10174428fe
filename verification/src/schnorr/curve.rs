//! Points of the JubJub curve, the twisted Edwards curve over the BLS12-381
//! scalar field on which the signature scheme works.

use vstd::prelude::*;

use crate::field::fp::Fp;
use crate::field::fp::fp_canonical;
use crate::field::fp::fp_modulus;
use crate::field::le_value;
use crate::field::fp_ed::FpEd;

use ark_ec::AffineCurve;
use ark_ec::ProjectiveCurve;
use ark_ff::BigInteger;
use ark_ff::PrimeField;

verus! {

/// The coefficient `d` of the curve `-x^2 + y^2 = 1 + d x^2 y^2`.
pub open spec fn jubjub_d() -> nat {
    19257038036680949359750312669786877991949435402254120286184196891950884077233nat
}

/// The first coordinate of the generator of the prime-order subgroup.
pub open spec fn jubjub_generator_x() -> nat {
    8076246640662884909881801758704306714034609987455869804520522091855516602923nat
}

/// The second coordinate of the generator of the prime-order subgroup.
pub open spec fn jubjub_generator_y() -> nat {
    13262374693698910701929044844600465831413122818447359594527400194675274060458nat
}

/// Whether `(x, y)` satisfies the curve equation.
pub open spec fn jubjub_on_curve(x: nat, y: nat) -> bool {
    (y * y) % fp_modulus() == (1 + x * x + jubjub_d() * (x * x) * (y * y)) % fp_modulus()
}

/// Whether `(x3, y3)` satisfies the addition law of the curve for the
/// summands `(x1, y1)` and `(x2, y2)`:
/// `x3 (1 + d x1 x2 y1 y2) = x1 y2 + y1 x2` and
/// `y3 (1 - d x1 x2 y1 y2) = y1 y2 + x1 x2`.
pub open spec fn jubjub_sum_law(x1: nat, y1: nat, x2: nat, y2: nat, x3: nat, y3: nat) -> bool {
    let t = jubjub_d() * x1 * x2 * y1 * y2;
    &&& (x3 + x3 * t) % fp_modulus() == (x1 * y2 + y1 * x2) % fp_modulus()
    &&& y3 % fp_modulus() == (y1 * y2 + x1 * x2 + y3 * t) % fp_modulus()
}

/// Whether `sum` holds the encodings of the coordinates that the addition
/// law gives for the two summands.
pub open spec fn jubjub_is_sum(
    x1: Seq<u8>,
    y1: Seq<u8>,
    x2: Seq<u8>,
    y2: Seq<u8>,
    sum: (Seq<u8>, Seq<u8>),
) -> bool {
    &&& fp_canonical(sum.0)
    &&& fp_canonical(sum.1)
    &&& jubjub_sum_law(
        le_value(x1),
        le_value(y1),
        le_value(x2),
        le_value(y2),
        le_value(sum.0),
        le_value(sum.1),
    )
}

/// The sum of two points of the curve, each coordinate in its encoding: the
/// pair that the addition law gives.
pub open spec fn jubjub_add(x1: Seq<u8>, y1: Seq<u8>, x2: Seq<u8>, y2: Seq<u8>) -> (
    Seq<u8>,
    Seq<u8>,
) {
    choose|sum: (Seq<u8>, Seq<u8>)| jubjub_is_sum(x1, y1, x2, y2, sum)
}

/// The point of the curve that a point gives when taken `scalar` times,
/// each coordinate in its encoding.
pub uninterp spec fn jubjub_mul(x: Seq<u8>, y: Seq<u8>, scalar: nat) -> (Seq<u8>, Seq<u8>);

/// A point of the curve in affine coordinates.
#[derive(Clone, Copy, Debug, PartialEq, Eq)]
pub struct Point {
    x: Fp,
    y: Fp,
}

impl View for Point {
    type V = (Seq<u8>, Seq<u8>);

    closed spec fn view(&self) -> (Seq<u8>, Seq<u8>) {
        (self.x@, self.y@)
    }
}

impl Point {
    #[verifier::type_invariant]
    pub(crate) closed spec fn on_curve(self) -> bool {
        jubjub_on_curve(self.x.value(), self.y.value())
    }

    /// The first coordinate.
    pub fn x(&self) -> (x: Fp)
        ensures
            x@ == self@.0,
    {
        self.x
    }

    /// The second coordinate.
    pub fn y(&self) -> (y: Fp)
        ensures
            y@ == self@.1,
            jubjub_on_curve(le_value(self@.0), le_value(self@.1)),
    {
        proof {
            use_type_invariant(self);
        }
        self.y
    }

    /// The point with the given coordinates, if it is one of the curve.
    pub fn new(x: Fp, y: Fp) -> (p: Option<Point>)
        ensures
            p is Some <==> jubjub_on_curve(x.value(), y.value()),
            p matches Some(q) ==> q@ == (x@, y@),
    {
        if satisfies_equation(&x, &y) {
            Some(Point { x, y })
        } else {
            None
        }
    }

    /// The generator of the prime-order subgroup.
    pub fn generator() -> (g: Point)
        ensures
            le_value(g@.0) == jubjub_generator_x(),
            le_value(g@.1) == jubjub_generator_y(),
            fp_canonical(g@.0),
            fp_canonical(g@.1),
    {
        subgroup_generator()
    }

    /// This point taken `scalar` times.
    pub fn mul(&self, scalar: &FpEd) -> (r: Point)
        ensures
            r@ == jubjub_mul(self@.0, self@.1, scalar.value()),
    {
        proof {
            use_type_invariant(self);
        }
        scalar_mul(self, scalar)
    }

    /// The sum of this point and another.
    pub fn add(&self, other: &Point) -> (r: Point)
        ensures
            r@ == jubjub_add(self@.0, self@.1, other@.0, other@.1),
            jubjub_is_sum(self@.0, self@.1, other@.0, other@.1, r@),
    {
        proof {
            use_type_invariant(self);
            use_type_invariant(other);
        }
        point_add(self, other)
    }

    /// Whether two points are the same.
    pub fn equals(&self, other: &Point) -> (same: bool)
        ensures
            same == (self@ == other@),
    {
        self.x.equals(&other.x) && self.y.equals(&other.y)
    }

    /// The 64 bytes of the point: its first coordinate, then its second.
    pub fn to_bytes(&self) -> (out: Vec<u8>)
        ensures
            out@ == self.spec_bytes(),
    {
        let xs = self.x.to_bytes();
        let ys = self.y.to_bytes();
        let mut out: Vec<u8> = Vec::new();
        let mut i: usize = 0;
        while i < 32
            invariant
                i <= 32,
                xs@.len() == 32,
                out@ == xs@.take(i as int),
            decreases 32 - i,
        {
            out.push(xs[i]);
            assert(out@ =~= xs@.take(i + 1));
            i += 1;
        }
        assert(xs@.take(32) =~= xs@);
        let mut j: usize = 0;
        while j < 32
            invariant
                j <= 32,
                ys@.len() == 32,
                out@ == xs@ + ys@.take(j as int),
            decreases 32 - j,
        {
            out.push(ys[j]);
            assert(out@ =~= xs@ + ys@.take(j + 1));
            j += 1;
        }
        assert(ys@.take(32) =~= ys@);
        out
    }

    /// The encoding of the first coordinate followed by that of the second.
    pub open spec fn spec_bytes(&self) -> Seq<u8> {
        self@.0 + self@.1
    }
}

/// `ark_ec::models::twisted_edwards_extended::GroupAffine::is_on_curve` for
/// JubJub: whether the coordinates satisfy `-x^2 + y^2 = 1 + d x^2 y^2`.
#[verifier::external_body]
fn satisfies_equation(x: &Fp, y: &Fp) -> (ok: bool)
    ensures
        ok == jubjub_on_curve(x.value(), y.value()),
{
    ark_ed_on_bls12_381::EdwardsAffine::new(
        ark_bls12_381::Fr::from_le_bytes_mod_order(&x.bytes),
        ark_bls12_381::Fr::from_le_bytes_mod_order(&y.bytes),
    ).is_on_curve()
}

/// `ark_ec::AffineCurve::prime_subgroup_generator` for JubJub: the point
/// whose coordinates the curve's parameters give, which lies on the curve.
#[verifier::external_body]
fn subgroup_generator() -> (g: Point)
    ensures
        le_value(g@.0) == jubjub_generator_x(),
        le_value(g@.1) == jubjub_generator_y(),
        fp_canonical(g@.0),
        fp_canonical(g@.1),
        jubjub_on_curve(le_value(g@.0), le_value(g@.1)),
{
    let g = ark_ed_on_bls12_381::EdwardsAffine::prime_subgroup_generator();
    Point {
        x: Fp { bytes: g.x.into_repr().to_bytes_le().try_into().unwrap() },
        y: Fp { bytes: g.y.into_repr().to_bytes_le().try_into().unwrap() },
    }
}

/// `ark_ec::AffineCurve::mul` for JubJub, brought back to affine
/// coordinates: a point of the curve times a scalar is a point of the curve
/// in its canonical encoding, and the same for the same point and scalar.
#[verifier::external_body]
fn scalar_mul(p: &Point, scalar: &FpEd) -> (r: Point)
    requires
        jubjub_on_curve(le_value(p@.0), le_value(p@.1)),
    ensures
        r@ == jubjub_mul(p@.0, p@.1, scalar.value()),
        fp_canonical(r@.0),
        fp_canonical(r@.1),
        jubjub_on_curve(le_value(r@.0), le_value(r@.1)),
{
    let q = ark_ed_on_bls12_381::EdwardsAffine::new(
        ark_bls12_381::Fr::from_le_bytes_mod_order(&p.x.bytes),
        ark_bls12_381::Fr::from_le_bytes_mod_order(&p.y.bytes),
    );
    let s = ark_ed_on_bls12_381::Fr::from_le_bytes_mod_order(&scalar.bytes);
    let r = q.mul(s).into_affine();
    Point {
        x: Fp { bytes: r.x.into_repr().to_bytes_le().try_into().unwrap() },
        y: Fp { bytes: r.y.into_repr().to_bytes_le().try_into().unwrap() },
    }
}

/// Addition of `ark_ec::models::twisted_edwards_extended::GroupProjective`
/// for JubJub, brought back to affine coordinates: the sum of two points of
/// the curve satisfies the addition law, is the only pair of encodings that
/// does, and is a point of the curve.
#[verifier::external_body]
fn point_add(a: &Point, b: &Point) -> (r: Point)
    requires
        jubjub_on_curve(le_value(a@.0), le_value(a@.1)),
        jubjub_on_curve(le_value(b@.0), le_value(b@.1)),
    ensures
        jubjub_is_sum(a@.0, a@.1, b@.0, b@.1, r@),
        r@ == jubjub_add(a@.0, a@.1, b@.0, b@.1),
        jubjub_on_curve(le_value(r@.0), le_value(r@.1)),
{
    let f = |p: &Point| ark_ed_on_bls12_381::EdwardsAffine::new(
        ark_bls12_381::Fr::from_le_bytes_mod_order(&p.x.bytes),
        ark_bls12_381::Fr::from_le_bytes_mod_order(&p.y.bytes),
    );
    let r = (f(a).into_projective() + f(b).into_projective()).into_affine();
    Point {
        x: Fp { bytes: r.x.into_repr().to_bytes_le().try_into().unwrap() },
        y: Fp { bytes: r.y.into_repr().to_bytes_le().try_into().unwrap() },
    }
}

} // verus!
