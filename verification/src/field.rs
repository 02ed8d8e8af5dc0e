//! Exact modular arithmetic over GF(p), where p is the secp256k1 field prime
//! 2^256 - 2^32 - 977.  A field element is a residue class, canonically
//! represented as an unsigned integer in [0, p) held in four 64-bit limbs;
//! every operation returns a canonical result.

use vstd::prelude::*;
use vstd::arithmetic::div_mod::*;
use vstd::arithmetic::power::pow;
use vstd::arithmetic::power2::*;
use vstd::std_specs::cmp::PartialEqSpec;
use crate::limbs::{
    as_nat, lemma_as_nat_bound, lemma_as_nat_digits_unique, lemma_bit_step,
    lemma_high_bits_zero, limb_bit, limbs_add, limbs_geq, limbs_sub, radix4,
};

verus! {

/// The secp256k1 field prime p = 2^256 - 2^32 - 977.
pub open spec fn field_prime() -> nat {
    0xFFFFFFFFFFFFFFFFFFFFFFFFFFFFFFFFFFFFFFFFFFFFFFFFFFFFFFFEFFFFFC2Fnat
}

/// Addition in GF(p).
pub open spec fn f_add(a: nat, b: nat) -> nat {
    (a + b) % field_prime()
}

/// Subtraction in GF(p).
pub open spec fn f_sub(a: nat, b: nat) -> nat {
    (((a as int) - (b as int)) % (field_prime() as int)) as nat
}

/// Multiplication in GF(p).
pub open spec fn f_mul(a: nat, b: nat) -> nat {
    (a * b) % field_prime()
}

/// The additive inverse in GF(p).
pub open spec fn f_neg(a: nat) -> nat {
    f_sub(0, a)
}

/// The multiplicative inverse in GF(p), written as the power a^(p-2) that
/// Fermat's little theorem identifies with it for nonzero a.
pub open spec fn f_inv(a: nat) -> nat {
    (pow(a as int, (field_prime() - 2) as nat) % (field_prime() as int)) as nat
}

/// Why a field operation can fail: only the inverse of zero is undefined.
#[derive(Clone, Copy, Debug, PartialEq, Eq)]
pub enum FieldError {
    DivisionByZero,
}

/// A residue modulo the field prime, kept in canonical (reduced) form:
/// four 64-bit limbs, least significant first, denoting a value below p.
#[derive(Clone, Copy, Debug)]
pub struct FieldElement {
    pub value: [u64; 4],
}

impl View for FieldElement {
    type V = nat;

    open spec fn view(&self) -> nat {
        as_nat(self.value)
    }
}

impl PartialEq for FieldElement {
    fn eq(&self, other: &FieldElement) -> (r: bool) {
        self.value[0] == other.value[0] && self.value[1] == other.value[1] && self.value[2]
            == other.value[2] && self.value[3] == other.value[3]
    }
}

impl Eq for FieldElement {

}

impl vstd::std_specs::cmp::PartialEqSpecImpl for FieldElement {
    open spec fn obeys_eq_spec() -> bool {
        true
    }

    open spec fn eq_spec(&self, other: &FieldElement) -> bool {
        self.value[0] == other.value[0] && self.value[1] == other.value[1] && self.value[2]
            == other.value[2] && self.value[3] == other.value[3]
    }
}

impl FieldElement {
    /// A field element is well formed when its stored value is canonical.
    pub open spec fn wf(self) -> bool {
        self@ < field_prime()
    }

    /// Equal limb arrays and equal denoted values coincide, so `==` on
    /// well-formed elements decides equality of the residues themselves.
    pub proof fn lemma_eq_is_value_eq(self, other: FieldElement)
        ensures
            self.eq_spec(&other) <==> self@ == other@,
    {
        if self@ == other@ {
            lemma_as_nat_digits_unique(self.value, other.value);
        }
    }

    /// The field prime, as limbs.
    pub fn modulus() -> (r: [u64; 4])
        ensures
            as_nat(r) == field_prime(),
    {
        [0xFFFFFFFEFFFFFC2F, 0xFFFFFFFFFFFFFFFF, 0xFFFFFFFFFFFFFFFF, 0xFFFFFFFFFFFFFFFF]
    }

    /// Reduce a 256-bit value modulo the prime.  Any such value is below
    /// 2p, so a single exact conditional subtraction of p is a true
    /// reduction: the limbs change only by a multiple of p.
    pub fn reduce(value: &mut [u64; 4])
        ensures
            as_nat(*final(value)) == as_nat(*old(value)) % field_prime(),
            as_nat(*final(value)) < field_prime(),
    {
        let m = Self::modulus();
        proof {
            lemma_as_nat_bound(*value);
        }
        if limbs_geq(value, &m) {
            let reduced = limbs_sub(value, &m);
            proof {
                lemma_mod_sub_multiples_vanish(as_nat(*value) as int, field_prime() as int);
                lemma_small_mod((as_nat(*value) - field_prime()) as nat, field_prime());
            }
            *value = reduced;
        } else {
            proof {
                lemma_small_mod(as_nat(*value), field_prime());
            }
        }
    }

    /// Create a field element from any 256-bit unsigned value, reducing it
    /// modulo the prime; every input is a valid residue after reduction.
    pub fn new(value: [u64; 4]) -> (r: Self)
        ensures
            r.wf(),
            r@ == as_nat(value) % field_prime(),
    {
        let mut reduced = value;
        FieldElement::reduce(&mut reduced);
        FieldElement { value: reduced }
    }

    /// Whether this element is the zero residue.
    pub fn is_zero(&self) -> (r: bool)
        ensures
            r == (self@ == 0),
    {
        self.value[0] == 0 && self.value[1] == 0 && self.value[2] == 0 && self.value[3] == 0
    }

    /// Compute (a + b) mod p exactly, carry beyond 256 bits included.
    pub fn add(self, other: Self) -> (r: Self)
        requires
            self.wf(),
            other.wf(),
        ensures
            r.wf(),
            r@ == f_add(self@, other@),
    {
        let ghost total: nat = self@ + other@;
        let (sum, carry) = limbs_add(&self.value, &other.value);
        if carry {
            // The sum overflowed 2^256 = p + (2^32 + 977); adding that
            // excess back in is the exact subtraction of p.
            let excess: [u64; 4] = [0x1000003D1, 0, 0, 0];
            let (res, carry2) = limbs_add(&sum, &excess);
            proof {
                lemma_as_nat_bound(res);
                assert(!carry2 && as_nat(res) == total - field_prime());
                lemma_mod_sub_multiples_vanish(total as int, field_prime() as int);
                lemma_small_mod((total - field_prime()) as nat, field_prime());
            }
            FieldElement { value: res }
        } else {
            let m = Self::modulus();
            if limbs_geq(&sum, &m) {
                let res = limbs_sub(&sum, &m);
                proof {
                    lemma_mod_sub_multiples_vanish(total as int, field_prime() as int);
                    lemma_small_mod((total - field_prime()) as nat, field_prime());
                }
                FieldElement { value: res }
            } else {
                proof {
                    lemma_small_mod(total, field_prime());
                }
                FieldElement { value: sum }
            }
        }
    }

    /// The full 128-bit product of two 64-bit values, as (high, low) halves.
    pub fn wide_mul(a: u64, b: u64) -> (r: (u64, u64))
        ensures
            (r.0 as nat) * 0x10000000000000000 + (r.1 as nat) == (a as nat) * (b as nat),
    {
        proof {
            assert((a as u128) * (b as u128) <= 0xFFFFFFFFFFFFFFFF * 0xFFFFFFFFFFFFFFFFu128)
                by (nonlinear_arith)
                requires
                    a <= 0xFFFFFFFFFFFFFFFFu64,
                    b <= 0xFFFFFFFFFFFFFFFFu64,
            ;
        }
        let product: u128 = (a as u128) * (b as u128);
        crate::limbs::split_u128(product)
    }

    /// Compute (a * b) mod p exactly.  The product is folded into the field
    /// one bit of the multiplier at a time, most significant bit first, with
    /// a reduction after every step, so no intermediate is ever truncated:
    /// each of the 256 bit positions contributes one modular doubling and,
    /// when set, one modular addition.
    pub fn mul(self, other: Self) -> (r: Self)
        requires
            self.wf(),
            other.wf(),
        ensures
            r.wf(),
            r@ == f_mul(self@, other@),
    {
        let ghost a = self@;
        let ghost n = other@;
        let zero_limbs: [u64; 4] = [0, 0, 0, 0];
        let mut acc = FieldElement::new(zero_limbs);
        proof {
            assert(as_nat(zero_limbs) == 0);
            lemma_as_nat_bound(other.value);
            lemma_high_bits_zero(n);
            lemma_small_mod(0, field_prime());
            assert(a * (n / pow2(256)) == 0);
        }
        let mut i: usize = 0;
        while i < 256
            invariant
                i <= 256,
                self.wf(),
                acc.wf(),
                a == self@,
                n == other@,
                n < radix4(),
                acc@ == (a * (n / pow2((256 - i) as nat))) % field_prime(),
            decreases 256 - i,
        {
            let ghost m = n / pow2((256 - i) as nat);
            let ghost p = field_prime() as int;
            let bit = limb_bit(&other.value, 255 - i);
            proof {
                lemma_bit_step(n, (255 - i) as nat);
                lemma_add_mod_noop((a * m) as int, (a * m) as int, p);
                assert(a * m + a * m == a * (2 * m)) by (nonlinear_arith);
            }
            acc = acc.add(acc);
            if bit {
                proof {
                    lemma_add_mod_noop_right(a as int, (a * (2 * m)) as int, p);
                    assert(a * (2 * m) + a == a * (2 * m + 1)) by (nonlinear_arith);
                }
                acc = acc.add(self);
            }
            i += 1;
        }
        proof {
            lemma2_to64();
            lemma_div_basics(n as int);
        }
        acc
    }

    /// The exponent p - 2 used for inversion, as limbs.
    fn modulus_minus_two() -> (r: [u64; 4])
        ensures
            as_nat(r) == field_prime() - 2,
    {
        [0xFFFFFFFEFFFFFC2D, 0xFFFFFFFFFFFFFFFF, 0xFFFFFFFFFFFFFFFF, 0xFFFFFFFFFFFFFFFF]
    }

    /// The multiplicative inverse a^(p-2) mod p, by Fermat's little theorem
    /// equal to a^-1 for nonzero a; the zero element has no inverse and is
    /// rejected.  The exponentiation is a binary square-and-multiply ladder
    /// that visits all 256 bit positions of the fixed public exponent,
    /// squaring once per bit and multiplying once per set bit.
    pub fn inv(&self) -> (r: Result<FieldElement, FieldError>)
        requires
            self.wf(),
        ensures
            r is Err <==> self@ == 0,
            match r {
                Ok(v) => v.wf() && v@ == f_inv(self@),
                Err(e) => e == FieldError::DivisionByZero,
            },
    {
        if self.is_zero() {
            return Err(FieldError::DivisionByZero);
        }
        let ghost a = self@ as int;
        let ghost p = field_prime() as int;
        let exponent = Self::modulus_minus_two();
        let ghost n = as_nat(exponent);
        let mut acc = FieldElement::new([1, 0, 0, 0]);
        proof {
            lemma_as_nat_bound(exponent);
            lemma_high_bits_zero(n);
            vstd::arithmetic::power::lemma_pow0(a);
            lemma_small_mod(1, field_prime());
        }
        let mut i: usize = 0;
        while i < 256
            invariant
                i <= 256,
                self.wf(),
                acc.wf(),
                a == self@ as int,
                p == field_prime() as int,
                n == as_nat(exponent),
                n < radix4(),
                acc@ as int == pow(a, n / pow2((256 - i) as nat)) % p,
            decreases 256 - i,
        {
            let ghost m = n / pow2((256 - i) as nat);
            let bit = limb_bit(&exponent, 255 - i);
            proof {
                lemma_bit_step(n, (255 - i) as nat);
                lemma_mul_mod_noop_general(pow(a, m), pow(a, m), p);
                vstd::arithmetic::power::lemma_pow_adds(a, m, m);
            }
            acc = acc.mul(acc);
            if bit {
                proof {
                    lemma_mul_mod_noop_left(pow(a, 2 * m), a, p);
                    vstd::arithmetic::power::lemma_pow_adds(a, 2 * m, 1);
                    vstd::arithmetic::power::lemma_pow1(a);
                }
                acc = acc.mul(*self);
            }
            i += 1;
        }
        proof {
            lemma2_to64();
            lemma_div_basics(n as int);
        }
        Ok(acc)
    }

    /// Compute (a - b) mod p exactly, borrowing p when a < b.
    pub fn sub(self, other: Self) -> (r: Self)
        requires
            self.wf(),
            other.wf(),
        ensures
            r.wf(),
            r@ == f_sub(self@, other@),
    {
        let ghost p = field_prime() as int;
        let ghost diff: int = self@ - other@;
        if limbs_geq(&self.value, &other.value) {
            let res = limbs_sub(&self.value, &other.value);
            proof {
                lemma_small_mod(diff as nat, field_prime());
            }
            FieldElement { value: res }
        } else {
            let m = Self::modulus();
            let t = limbs_sub(&m, &other.value);
            let (res, carry) = limbs_add(&t, &self.value);
            proof {
                lemma_as_nat_bound(res);
                assert(!carry && as_nat(res) == diff + p);
                lemma_mod_add_multiples_vanish(diff, p);
                lemma_small_mod((diff + p) as nat, field_prime());
            }
            FieldElement { value: res }
        }
    }
}

/// Field addition is commutative.
pub proof fn lemma_field_add_commutative(a: nat, b: nat)
    ensures
        f_add(a, b) == f_add(b, a),
{
}

/// Field addition is associative.
pub proof fn lemma_field_add_associative(a: nat, b: nat, c: nat)
    ensures
        f_add(f_add(a, b), c) == f_add(a, f_add(b, c)),
{
    let p = field_prime() as int;
    lemma_add_mod_noop_right(c as int, (a + b) as int, p);
    lemma_add_mod_noop_right(a as int, (b + c) as int, p);
}

/// Field multiplication is commutative.
pub proof fn lemma_field_mul_commutative(a: nat, b: nat)
    ensures
        f_mul(a, b) == f_mul(b, a),
{
}

/// Field multiplication is associative.
pub proof fn lemma_field_mul_associative(a: nat, b: nat, c: nat)
    ensures
        f_mul(f_mul(a, b), c) == f_mul(a, f_mul(b, c)),
{
    let p = field_prime() as int;
    lemma_mul_mod_noop_left((a * b) as int, c as int, p);
    lemma_mul_mod_noop_right(a as int, (b * c) as int, p);
    assert((a * b) * c == a * (b * c)) by (nonlinear_arith);
}

/// Zero is the additive identity of the field.
pub proof fn lemma_field_add_identity(a: nat)
    requires
        a < field_prime(),
    ensures
        f_add(a, 0) == a,
{
    lemma_small_mod(a, field_prime());
}

/// One is the multiplicative identity of the field.
pub proof fn lemma_field_mul_identity(a: nat)
    requires
        a < field_prime(),
    ensures
        f_mul(a, 1) == a,
{
    lemma_small_mod(a, field_prime());
}

} // verus!
