use secp256k1_arith::field::{FieldElement, FieldError};

/// The field prime p = 2^256 - 2^32 - 977, as little-endian limbs.
const PRIME: [u64; 4] = [
    0xFFFFFFFEFFFFFC2F,
    0xFFFFFFFFFFFFFFFF,
    0xFFFFFFFFFFFFFFFF,
    0xFFFFFFFFFFFFFFFF,
];

fn fe(value: u64) -> FieldElement {
    FieldElement::new([value, 0, 0, 0])
}

/// True when the stored limbs denote a value strictly below the prime.
fn is_canonical(e: &FieldElement) -> bool {
    for i in (0..4).rev() {
        if e.value[i] < PRIME[i] {
            return true;
        }
        if e.value[i] > PRIME[i] {
            return false;
        }
    }
    false
}

#[test]
fn test_field_element_arithmetic() {
    // Basic addition
    let a = fe(5);
    let b = fe(3);
    let sum = a.add(b);
    assert_eq!(sum.value[0], 8);

    // Subtraction
    let diff = a.sub(b);
    assert_eq!(diff.value[0], 2);

    // Multiplication
    let product = a.mul(b);
    assert_eq!(product.value[0], 15);
}

#[test]
fn test_multiplicative_inverse() {
    // Test multiplicative inverse property
    let a = fe(5);
    let inv_a = a.inv().unwrap();

    // Verify a * a^-1 = 1 (in field arithmetic)
    let product = a.mul(inv_a);
    assert_eq!(product.value[0], 1, "Multiplicative inverse must satisfy a * a^-1 = 1");
}

#[test]
fn test_field_closure() {
    // Operands near the prime exercise every reduction path; each result
    // must come back canonical.
    let mut near_prime = PRIME;
    near_prime[0] -= 1;
    let a = FieldElement::new(near_prime);
    let b = FieldElement::new([0xDEADBEEFCAFEF00D, 0x0123456789ABCDEF, 0, 1]);
    assert!(is_canonical(&a.add(b)));
    assert!(is_canonical(&a.sub(b)));
    assert!(is_canonical(&b.sub(a)));
    assert!(is_canonical(&a.mul(b)));
    assert!(is_canonical(&a.mul(a)));
}

#[test]
fn test_field_group_laws() {
    let a = FieldElement::new([0x123456789ABCDEF0, 7, 11, 13]);
    let b = fe(0x9E3779B97F4A7C15);
    let c = fe(12345);
    // Commutativity
    assert_eq!(a.add(b), b.add(a));
    assert_eq!(a.mul(b), b.mul(a));
    // Associativity
    assert_eq!(a.add(b).add(c), a.add(b.add(c)));
    assert_eq!(a.mul(b).mul(c), a.mul(b.mul(c)));
    // Identities
    assert_eq!(a.add(fe(0)), a);
    assert_eq!(a.mul(fe(1)), a);
    // Multiplicative inverse
    assert_eq!(a.mul(a.inv().unwrap()), fe(1));
}

#[test]
fn test_wraparound() {
    // (p - 1) + 5 exceeds p; the sum must be exactly (a + b) - p = 4.
    let mut p_minus_one = PRIME;
    p_minus_one[0] -= 1;
    let a = FieldElement::new(p_minus_one);
    let b = fe(5);
    let sum = a.add(b);
    assert_eq!(sum, fe(4));
}

#[test]
fn test_reduce_is_exact() {
    // The prime itself reduces to zero, and p + 5 reduces to 5: the stored
    // limbs differ from the input by exactly one multiple of p.
    assert_eq!(FieldElement::new(PRIME), fe(0));
    let mut over = PRIME;
    over[0] += 5;
    assert_eq!(FieldElement::new(over), fe(5));
}

#[test]
fn test_inverse_of_zero_fails() {
    assert_eq!(fe(0).inv(), Err(FieldError::DivisionByZero));
}

#[test]
fn test_wide_mul() {
    // 2^32 * 2^32 = 2^64: high word 1, low word 0.
    assert_eq!(FieldElement::wide_mul(1 << 32, 1 << 32), (1, 0));
    // The largest product: (2^64 - 1)^2 = 2^128 - 2^65 + 1.
    assert_eq!(
        FieldElement::wide_mul(u64::MAX, u64::MAX),
        (0xFFFFFFFFFFFFFFFE, 1)
    );
    assert_eq!(FieldElement::wide_mul(0, u64::MAX), (0, 0));
}
