use secp256k1_arith::curve::{CurveError, Point};
use secp256k1_arith::field::FieldElement;

/// Gx of the secp256k1 generator, as little-endian limbs.
const GEN_X: [u64; 4] = [
    0x59F2815B16F81798,
    0x029BFCDB2DCE28D9,
    0x55A06295CE870B07,
    0x79BE667EF9DCBBAC,
];

/// Gy of the secp256k1 generator, as little-endian limbs.
const GEN_Y: [u64; 4] = [
    0x9C47D08FFB10D4B8,
    0xFD17B448A6855419,
    0x5DA4FBFC0E1108A8,
    0x483ADA7726A3C465,
];

fn fe(value: u64) -> FieldElement {
    FieldElement::new([value, 0, 0, 0])
}

#[test]
fn test_point_addition() {
    // Test point at infinity cases
    let infinity = Point { x: None, y: None };
    let generator = Point::generator();

    // Adding point to infinity should return the point
    assert!(generator.add(&infinity).unwrap().x == generator.x);
    assert!(infinity.add(&generator).unwrap().x == generator.x);

    // Test point doubling
    let doubled_gen = generator.add(&generator).unwrap();
    assert!(doubled_gen.is_on_curve());

    // Verify that doubled point is different from original generator
    assert!(doubled_gen.x != generator.x);
}

#[test]
fn test_point_on_curve() {
    // Verify generator point is on the curve
    let generator = Point::generator();
    assert!(generator.is_on_curve(), "Generator point must be on curve");

    // Test a manually constructed point
    let test_x = FieldElement::new(GEN_X);
    let test_y = FieldElement::new(GEN_Y);

    let test_point = Point {
        x: Some(test_x),
        y: Some(test_y),
    };
    assert!(test_point.is_on_curve(), "Test point must be on curve");
}

#[test]
fn test_scalar_multiplication() {
    let generator = Point::generator();

    // Test scalar multiplication with small scalar
    let small_scalar = [2u64, 0, 0, 0];
    let doubled_point = generator.scalar_mul(&small_scalar).unwrap();

    // Verify that scalar multiplication results in a point on the curve
    assert!(doubled_point.is_on_curve(), "Scalar multiplication must result in point on curve");

    // Verify that scalar multiplication of 2 is equivalent to point doubling
    let direct_double = generator.add(&generator).unwrap();
    assert_eq!(
        doubled_point.x.unwrap().value,
        direct_double.x.unwrap().value,
        "Scalar multiplication by 2 must match point doubling"
    );
}

#[test]
fn test_edge_cases() {
    // Test addition with points having partial coordinates
    let partial_x_point = Point { x: Some(fe(10)), y: None };
    let full_point = Point::generator();

    // These should handle partial coordinate scenarios
    let result1 = partial_x_point.add(&full_point).unwrap();
    let result2 = full_point.add(&partial_x_point).unwrap();

    // Verify results are valid
    assert!(result1.x.is_some(), "Addition with partial coordinates should produce a point");
    assert!(result2.x.is_some(), "Addition with partial coordinates should produce a point");
}

#[test]
fn test_identity_on_curve() {
    assert!(Point::identity().is_on_curve());
    assert!(Point::generator().is_on_curve());
}

#[test]
fn test_group_identity_laws() {
    let generator = Point::generator();
    let identity = Point::identity();
    let left = identity.add(&generator).unwrap();
    let right = generator.add(&identity).unwrap();
    assert_eq!(left.x.unwrap().value, generator.x.unwrap().value);
    assert_eq!(left.y.unwrap().value, generator.y.unwrap().value);
    assert_eq!(right.x.unwrap().value, generator.x.unwrap().value);
    assert_eq!(right.y.unwrap().value, generator.y.unwrap().value);
    // The identity plus the identity is the identity.
    let both = identity.add(&identity).unwrap();
    assert!(both.x.is_none() && both.y.is_none());
}

#[test]
fn test_doubling_consistency() {
    let generator = Point::generator();
    let doubled = generator.add(&generator).unwrap();
    let by_scalar = generator.scalar_mul(&[2, 0, 0, 0]).unwrap();
    assert_eq!(doubled.x.unwrap().value, by_scalar.x.unwrap().value);
    assert_eq!(doubled.y.unwrap().value, by_scalar.y.unwrap().value);
    assert!(doubled.is_on_curve());
    assert!(doubled.x != generator.x);
}

#[test]
fn test_inverse_pair() {
    // G plus its reflection across the x-axis is the identity.
    let generator = Point::generator();
    let neg_y = fe(0).sub(generator.y.unwrap());
    let mirrored = Point::from_coordinates(generator.x.unwrap(), neg_y);
    assert!(mirrored.is_on_curve());
    let sum = generator.add(&mirrored).unwrap();
    assert!(sum.x.is_none() && sum.y.is_none());
}

#[test]
fn test_scalar_multiplication_boundary() {
    let generator = Point::generator();
    let zero_result = generator.scalar_mul(&[0, 0, 0, 0]).unwrap();
    assert!(zero_result.x.is_none() && zero_result.y.is_none());
    let one_result = generator.scalar_mul(&[1, 0, 0, 0]).unwrap();
    assert_eq!(one_result.x.unwrap().value, generator.x.unwrap().value);
    assert_eq!(one_result.y.unwrap().value, generator.y.unwrap().value);
}

#[test]
fn test_scalar_multiplication_by_four() {
    let generator = Point::generator();
    let doubled = generator.add(&generator).unwrap();
    let quadrupled = doubled.add(&doubled).unwrap();
    let by_scalar = generator.scalar_mul(&[4, 0, 0, 0]).unwrap();
    assert_eq!(by_scalar.x.unwrap().value, quadrupled.x.unwrap().value);
    assert_eq!(by_scalar.y.unwrap().value, quadrupled.y.unwrap().value);
    assert!(by_scalar.is_on_curve());
}

#[test]
fn test_doubling_order_two_point_fails() {
    // A point with y = 0 (not on secp256k1) cannot be doubled: the slope
    // denominator would be zero.
    let order_two = Point::from_coordinates(fe(1), fe(0));
    assert_eq!(order_two.add(&order_two).unwrap_err(), CurveError::InvalidPoint);
}
