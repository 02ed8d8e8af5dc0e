//! The secp256k1 curve group: points on y^2 = x^3 + 7 over GF(p), with the
//! point at infinity as the group identity, point addition and doubling,
//! double-and-add scalar multiplication, and the curve-membership test.

use vstd::prelude::*;
use vstd::arithmetic::div_mod::*;
use vstd::arithmetic::power2::*;
use vstd::std_specs::cmp::PartialEqSpec;
use crate::field::{
    f_add, f_inv, f_mul, f_neg, f_sub, field_prime, FieldElement,
};
use crate::limbs::{
    as_nat, lemma_as_nat_bound, lemma_high_bits_zero, limb_bit, radix4,
};

verus! {

/// The value a point denotes: each present coordinate as a residue.
pub type PointValue = (Option<nat>, Option<nat>);

/// Why a group operation can fail: doubling a point whose y-coordinate is
/// zero would divide by zero.  secp256k1 has no such finite point, but the
/// impossibility is made explicit rather than relied on by omission.
#[derive(Clone, Copy, Debug, PartialEq, Eq)]
pub enum CurveError {
    InvalidPoint,
}

/// A point on the curve: the identity ("point at infinity") carries no
/// coordinates, an affine point carries both.  A point with exactly one
/// coordinate present is a degenerate state that no constructor of this
/// library produces; the group operation handles it only defensively.
#[derive(Clone, Copy, Debug)]
pub struct Point {
    pub x: Option<FieldElement>,
    pub y: Option<FieldElement>,
}

impl View for Point {
    type V = PointValue;

    open spec fn view(&self) -> PointValue {
        (
            match self.x {
                Some(fe) => Some(fe@),
                None => None,
            },
            match self.y {
                Some(fe) => Some(fe@),
                None => None,
            },
        )
    }
}

/// The identity's value: no coordinates.
pub open spec fn identity_value() -> PointValue {
    (None, None)
}

/// Every present coordinate is canonical.
pub open spec fn coords_wf(v: PointValue) -> bool {
    &&& match v.0 {
        Some(x) => x < field_prime(),
        None => true,
    }
    &&& match v.1 {
        Some(y) => y < field_prime(),
        None => true,
    }
}

/// A well-formed point: the identity, or affine with canonical coordinates.
pub open spec fn point_wf(v: PointValue) -> bool {
    match (v.0, v.1) {
        (Some(x), Some(y)) => x < field_prime() && y < field_prime(),
        (None, None) => true,
        _ => false,
    }
}

/// The x-coordinate of the secp256k1 generator.
pub open spec fn generator_x() -> nat {
    0x79BE667EF9DCBBAC55A06295CE870B07029BFCDB2DCE28D959F2815B16F81798nat
}

/// The y-coordinate of the secp256k1 generator.
pub open spec fn generator_y() -> nat {
    0x483ADA7726A3C4655DA4FBFC0E1108A8FD17B448A68554199C47D08FFB10D4B8nat
}

/// Whether a point value satisfies the curve equation y^2 = x^3 + 7; the
/// identity counts as on the curve by convention, and a degenerate value
/// (not constructible through the public API) is not rejected here.
pub open spec fn on_curve_value(v: PointValue) -> bool {
    match (v.0, v.1) {
        (Some(x), Some(y)) => f_mul(y, y) == f_add(f_mul(f_mul(x, x), x), 7),
        _ => true,
    }
}

/// The result of doubling an affine point with y1 != 0:
/// slope 3*x1^2 / (2*y1), then x3 = slope^2 - 2*x1, y3 = slope*(x1 - x3) - y1.
#[verifier::opaque]
pub open spec fn double_value(x1: nat, y1: nat) -> PointValue {
    let slope = f_mul(f_mul(f_mul(3, x1), x1), f_inv(f_mul(2, y1)));
    let x3 = f_sub(f_sub(f_mul(slope, slope), x1), x1);
    let y3 = f_sub(f_mul(slope, f_sub(x1, x3)), y1);
    (Some(x3), Some(y3))
}

/// The result of adding affine points with x1 != x2:
/// slope (y2 - y1) / (x2 - x1), then x3 = slope^2 - x1 - x2,
/// y3 = slope*(x1 - x3) - y1.
#[verifier::opaque]
pub open spec fn chord_value(x1: nat, y1: nat, x2: nat, y2: nat) -> PointValue {
    let slope = f_mul(f_sub(y2, y1), f_inv(f_sub(x2, x1)));
    let x3 = f_sub(f_sub(f_mul(slope, slope), x1), x2);
    let y3 = f_sub(f_mul(slope, f_sub(x1, x3)), y1);
    (Some(x3), Some(y3))
}

/// The group law on point values, case by case.  `None` is returned exactly
/// when the operation would double a point whose y-coordinate is zero.  An
/// operand missing a coordinate yields the other operand: for the identity
/// that is the group law; for a degenerate operand it is the documented
/// defensive fallback, not a mathematically meaningful case.
pub open spec fn add_value(a: PointValue, b: PointValue) -> Option<PointValue> {
    if a.0 is None {
        Some(b)
    } else if b.0 is None {
        Some(a)
    } else if a.1 is None {
        Some(b)
    } else if b.1 is None {
        Some(a)
    } else {
        let x1 = a.0->Some_0;
        let y1 = a.1->Some_0;
        let x2 = b.0->Some_0;
        let y2 = b.1->Some_0;
        if x1 == x2 {
            if y1 == y2 {
                if y1 == 0 {
                    None
                } else {
                    Some(double_value(x1, y1))
                }
            } else {
                // Equal x, different y: the operands are inverse to each
                // other, and the sum is the identity.
                Some(identity_value())
            }
        } else {
            Some(chord_value(x1, y1, x2, y2))
        }
    }
}

/// What double-and-add computes for a scalar with value `m`: the ladder over
/// the bits of `m`, most significant first.  Every step doubles the
/// accumulator and, for a set bit, adds the base point; `None` propagates
/// the failure of any step.
pub open spec fn ladder_value(base: PointValue, m: nat) -> Option<PointValue>
    decreases m,
{
    if m == 0 {
        Some(identity_value())
    } else {
        match ladder_value(base, m / 2) {
            None => None,
            Some(acc) => match add_value(acc, acc) {
                None => None,
                Some(d) => if m % 2 == 1 {
                    add_value(d, base)
                } else {
                    Some(d)
                },
            },
        }
    }
}

/// Once a step of the ladder fails, the ladder fails for every longer
/// prefix of the scalar's bits.
proof fn lemma_ladder_none_persists(base: PointValue, n: nat, i: nat, j: nat)
    requires
        i <= j,
        ladder_value(base, n / pow2(j)) is None,
    ensures
        ladder_value(base, n / pow2(i)) is None,
    decreases j - i,
{
    if i < j {
        let mj = n / pow2(j);
        let mj1 = n / pow2((j - 1) as nat);
        lemma_pow2_pos((j - 1) as nat);
        lemma_pow2_adds((j - 1) as nat, 1);
        lemma2_to64();
        lemma_div_denominator(n as int, pow2((j - 1) as nat) as int, 2);
        assert(mj1 / 2 == mj);
        assert(ladder_value(base, mj1) is None);
        lemma_ladder_none_persists(base, n, i, (j - 1) as nat);
    }
}

/// Group identity law: adding the identity on either side leaves any valid
/// point unchanged.
pub proof fn lemma_add_identity(v: PointValue)
    requires
        point_wf(v),
    ensures
        add_value(v, identity_value()) == Some(v),
        add_value(identity_value(), v) == Some(v),
{
}

/// Inverse-pair law: an affine point on the curve plus its reflection
/// across the x-axis is the identity.  The one excluded input is y == 0,
/// where the reflection coincides with the point itself and the operation
/// is the rejected doubling of a point of order two; secp256k1 has no such
/// point.
pub proof fn lemma_add_inverse_pair(x: nat, y: nat)
    requires
        x < field_prime(),
        y < field_prime(),
        y != 0,
        on_curve_value((Some(x), Some(y))),
    ensures
        add_value((Some(x), Some(y)), (Some(x), Some(f_neg(y)))) == Some(identity_value()),
{
    let p = field_prime() as int;
    lemma_mod_add_multiples_vanish(0 - y, p);
    lemma_small_mod((p - y) as nat, field_prime());
    assert(f_neg(y) == p - y);
    assert(field_prime() % 2 == 1);
    assert(y != f_neg(y)) by {
        if y == p - y {
            lemma_mod_multiples_basic(y as int, 2);
        }
    }
}

/// Scalar multiplication boundaries: scalar 0 yields the identity and
/// scalar 1 yields the point itself, for any valid point.
pub proof fn lemma_scalar_mul_boundary(v: PointValue)
    requires
        point_wf(v),
    ensures
        ladder_value(v, 0) == Some(identity_value()),
        ladder_value(v, 1) == Some(v),
{
}

/// Doubling consistency: the ladder for scalar 2 computes exactly the sum
/// of the point with itself.
pub proof fn lemma_scalar_mul_two(v: PointValue)
    requires
        point_wf(v),
    ensures
        ladder_value(v, 2) == add_value(v, v),
{
    lemma_scalar_mul_boundary(v);
}

/// Round trip via repeated doubling: the ladder for scalar 4 computes the
/// doubled point added to itself.
pub proof fn lemma_scalar_mul_four(v: PointValue)
    requires
        point_wf(v),
    ensures
        ladder_value(v, 4) == match add_value(v, v) {
            Some(d) => add_value(d, d),
            None => None,
        },
{
    lemma_scalar_mul_two(v);
}

impl Point {
    /// The point at infinity, the additive identity of the group.
    pub fn identity() -> (r: Point)
        ensures
            r@ == identity_value(),
            point_wf(r@),
    {
        Point { x: None, y: None }
    }

    /// An affine point from caller-supplied coordinates.  The constructor
    /// does not check the curve equation; validity is a separate question
    /// answered by `is_on_curve`.
    pub fn from_coordinates(x: FieldElement, y: FieldElement) -> (r: Point)
        requires
            x.wf(),
            y.wf(),
        ensures
            r@ == (Some(x@), Some(y@)),
            point_wf(r@),
    {
        Point { x: Some(x), y: Some(y) }
    }

    /// The fixed base point G of secp256k1.
    pub fn generator() -> (r: Point)
        ensures
            r@ == (Some(generator_x()), Some(generator_y())),
            point_wf(r@),
    {
        let gx: [u64; 4] = [
            0x59F2815B16F81798,
            0x029BFCDB2DCE28D9,
            0x55A06295CE870B07,
            0x79BE667EF9DCBBAC,
        ];
        let gy: [u64; 4] = [
            0x9C47D08FFB10D4B8,
            0xFD17B448A6855419,
            0x5DA4FBFC0E1108A8,
            0x483ADA7726A3C465,
        ];
        let x = FieldElement::new(gx);
        let y = FieldElement::new(gy);
        proof {
            lemma_small_mod(generator_x(), field_prime());
            lemma_small_mod(generator_y(), field_prime());
        }
        Point { x: Some(x), y: Some(y) }
    }

    /// The group operation.  Identity operands return the other point; equal
    /// points are doubled; operands with equal x and different y are inverse
    /// to each other and sum to the identity; anything else takes the chord
    /// through the two points.  The only failure is doubling a point whose
    /// y-coordinate is zero, which no valid secp256k1 point has.
    pub fn add(&self, other: &Point) -> (r: Result<Point, CurveError>)
        requires
            coords_wf(self@),
            coords_wf(other@),
        ensures
            match r {
                Ok(pt) => add_value(self@, other@) == Some(pt@) && coords_wf(pt@) && (point_wf(
                    self@,
                ) && point_wf(other@) ==> point_wf(pt@)),
                Err(e) => add_value(self@, other@) is None && e == CurveError::InvalidPoint,
            },
    {
        let (x1, y1, x2, y2) = match (self.x, self.y, other.x, other.y) {
            (None, _, _, _) => {
                return Ok(*other);
            },
            (_, _, None, _) => {
                return Ok(*self);
            },
            // Defensive fallback for a degenerate operand (x present, y
            // absent): it carries no usable coordinate data, so the other
            // operand is returned unchanged.
            (_, None, _, _) => {
                return Ok(*other);
            },
            (_, _, _, None) => {
                return Ok(*self);
            },
            (Some(x1), Some(y1), Some(x2), Some(y2)) => (x1, y1, x2, y2),
        };
        proof {
            reveal(double_value);
            reveal(chord_value);
            x1.lemma_eq_is_value_eq(x2);
            y1.lemma_eq_is_value_eq(y2);
        }
        let ghost p = field_prime() as int;
        if x1 == x2 {
            if y1 == y2 {
                if y1.is_zero() {
                    return Err(CurveError::InvalidPoint);
                }
                // Point doubling: slope 3*x1^2 / (2*y1).
                let two = FieldElement::new([2, 0, 0, 0]);
                let three = FieldElement::new([3, 0, 0, 0]);
                proof {
                    lemma_small_mod(2, field_prime());
                    lemma_small_mod(3, field_prime());
                }
                let two_y = two.mul(y1);
                proof {
                    // 2*y1 is not the zero residue: 0 < 2*y1 < 2p, and
                    // 2*y1 == p is impossible because p is odd.
                    if 2 * y1@ < field_prime() {
                        lemma_small_mod(2 * y1@, field_prime());
                    } else {
                        lemma_mod_sub_multiples_vanish(2 * y1@ as int, p);
                        lemma_small_mod((2 * y1@ - field_prime()) as nat, field_prime());
                    }
                }
                let inv_two_y = match two_y.inv() {
                    Ok(v) => v,
                    Err(_) => {
                        proof {
                            assert(false);
                        }
                        return Err(CurveError::InvalidPoint);
                    },
                };
                let slope = three.mul(x1).mul(x1).mul(inv_two_y);
                let x3 = slope.mul(slope).sub(x1).sub(x2);
                let y3 = slope.mul(x1.sub(x3)).sub(y1);
                Ok(Point { x: Some(x3), y: Some(y3) })
            } else {
                // Inverse pair: equal x, different y.
                Ok(Point { x: None, y: None })
            }
        } else {
            // General addition: slope (y2 - y1) / (x2 - x1).
            let dx = x2.sub(x1);
            proof {
                // x2 - x1 is not the zero residue: the difference of two
                // distinct canonical values is never a multiple of p.
                if x2@ >= x1@ {
                    lemma_small_mod((x2@ - x1@) as nat, field_prime());
                } else {
                    lemma_mod_add_multiples_vanish(x2@ - x1@, p);
                    lemma_small_mod((x2@ - x1@ + p) as nat, field_prime());
                }
            }
            let inv_dx = match dx.inv() {
                Ok(v) => v,
                Err(_) => {
                    proof {
                        assert(false);
                    }
                    return Err(CurveError::InvalidPoint);
                },
            };
            let slope = y2.sub(y1).mul(inv_dx);
            let x3 = slope.mul(slope).sub(x1).sub(x2);
            let y3 = slope.mul(x1.sub(x3)).sub(y1);
            Ok(Point { x: Some(x3), y: Some(y3) })
        }
    }

    /// Scalar multiplication by double-and-add: the accumulator starts at
    /// the identity, and for each of the 256 bit positions of the scalar,
    /// most significant first, it is doubled and, when the bit is set, the
    /// base point is added.  The iteration count is fixed, independent of
    /// the scalar's value.
    pub fn scalar_mul(&self, scalar: &[u64; 4]) -> (r: Result<Point, CurveError>)
        requires
            coords_wf(self@),
        ensures
            match r {
                Ok(pt) => ladder_value(self@, as_nat(*scalar)) == Some(pt@) && coords_wf(pt@)
                    && (point_wf(self@) ==> point_wf(pt@)),
                Err(e) => ladder_value(self@, as_nat(*scalar)) is None && e
                    == CurveError::InvalidPoint,
            },
    {
        let ghost base = self@;
        let ghost n = as_nat(*scalar);
        let mut result = Point { x: None, y: None };
        proof {
            lemma_as_nat_bound(*scalar);
            lemma_high_bits_zero(n);
        }
        let mut i: usize = 0;
        while i < 256
            invariant
                i <= 256,
                coords_wf(self@),
                base == self@,
                n == as_nat(*scalar),
                n < radix4(),
                coords_wf(result@),
                point_wf(self@) ==> point_wf(result@),
                ladder_value(base, n / pow2((256 - i) as nat)) == Some(result@),
            decreases 256 - i,
        {
            let ghost m = n / pow2((256 - i) as nat);
            let ghost m1 = n / pow2((255 - i) as nat);
            let bit = limb_bit(scalar, 255 - i);
            proof {
                lemma_pow2_pos((255 - i) as nat);
                lemma_pow2_adds((255 - i) as nat, 1);
                lemma2_to64();
                lemma_div_denominator(n as int, pow2((255 - i) as nat) as int, 2);
                assert(m1 / 2 == m);
            }
            let doubled = match result.add(&result) {
                Ok(v) => v,
                Err(e) => {
                    proof {
                        lemma_ladder_none_persists(base, n, 0, (255 - i) as nat);
                        lemma2_to64();
                        lemma_div_basics(n as int);
                    }
                    return Err(e);
                },
            };
            result = if bit {
                match doubled.add(self) {
                    Ok(v) => v,
                    Err(e) => {
                        proof {
                            lemma_ladder_none_persists(base, n, 0, (255 - i) as nat);
                            lemma2_to64();
                            lemma_div_basics(n as int);
                        }
                        return Err(e);
                    },
                }
            } else {
                doubled
            };
            i += 1;
        }
        proof {
            lemma2_to64();
            lemma_div_basics(n as int);
        }
        Ok(result)
    }

    /// Whether the point satisfies the curve equation y^2 = x^3 + 7; true
    /// for the identity by convention.
    pub fn is_on_curve(&self) -> (r: bool)
        requires
            coords_wf(self@),
        ensures
            r == on_curve_value(self@),
    {
        match (self.x, self.y) {
            (Some(x), Some(y)) => {
                let x_cubed = x.mul(x).mul(x);
                let y_squared = y.mul(y);
                let b_limbs: [u64; 4] = [7, 0, 0, 0];
                let b = FieldElement::new(b_limbs);
                proof {
                    lemma_small_mod(7, field_prime());
                }
                let rhs = x_cubed.add(b);
                proof {
                    rhs.lemma_eq_is_value_eq(y_squared);
                }
                rhs == y_squared
            },
            _ => true,
        }
    }
}

} // verus!
