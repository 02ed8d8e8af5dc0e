//! Fixed-width 256-bit unsigned integers, stored as four 64-bit limbs in
//! little-limb-endian order, with the carry/borrow-exact primitives that the
//! field layer is built on.

use vstd::prelude::*;
use vstd::arithmetic::div_mod::*;
use vstd::arithmetic::power2::*;

verus! {

/// 2^64, the weight of the second limb.
pub open spec fn radix1() -> nat {
    0x10000000000000000nat
}

/// 2^128, the weight of the third limb.
pub open spec fn radix2() -> nat {
    0x100000000000000000000000000000000nat
}

/// 2^192, the weight of the fourth limb.
pub open spec fn radix3() -> nat {
    0x1000000000000000000000000000000000000000000000000nat
}

/// 2^256, one past the largest representable value.
pub open spec fn radix4() -> nat {
    0x10000000000000000000000000000000000000000000000000000000000000000nat
}

/// The unsigned integer that a little-endian limb array denotes.
pub open spec fn as_nat(l: [u64; 4]) -> nat {
    (l[0] + l[1] * radix1() + l[2] * radix2() + l[3] * radix3()) as nat
}

/// Every four-limb value lies below 2^256.
pub proof fn lemma_as_nat_bound(l: [u64; 4])
    ensures
        as_nat(l) < radix4(),
{
}

/// Equal values have equal limbs: the little-endian digits of a number
/// below 2^256 are unique.
pub proof fn lemma_as_nat_digits_unique(a: [u64; 4], b: [u64; 4])
    requires
        as_nat(a) == as_nat(b),
    ensures
        a[0] == b[0],
        a[1] == b[1],
        a[2] == b[2],
        a[3] == b[3],
{
    let n = as_nat(a) as int;
    lemma_fundamental_div_mod_converse(
        n,
        radix1() as int,
        a[1] + a[2] * radix1() + a[3] * radix2(),
        a[0] as int,
    );
    lemma_fundamental_div_mod_converse(
        n,
        radix1() as int,
        b[1] + b[2] * radix1() + b[3] * radix2(),
        b[0] as int,
    );
    let n1 = n / (radix1() as int);
    lemma_fundamental_div_mod_converse(
        n1,
        radix1() as int,
        a[2] + a[3] * radix1(),
        a[1] as int,
    );
    lemma_fundamental_div_mod_converse(
        n1,
        radix1() as int,
        b[2] + b[3] * radix1(),
        b[1] as int,
    );
    let n2 = n1 / (radix1() as int);
    lemma_fundamental_div_mod_converse(n2, radix1() as int, a[3] as int, a[2] as int);
    lemma_fundamental_div_mod_converse(n2, radix1() as int, b[3] as int, b[2] as int);
}

/// Compares two 256-bit values, most significant limb first.
pub fn limbs_geq(a: &[u64; 4], b: &[u64; 4]) -> (r: bool)
    ensures
        r == (as_nat(*a) >= as_nat(*b)),
{
    if a[3] != b[3] {
        return a[3] > b[3];
    }
    if a[2] != b[2] {
        return a[2] > b[2];
    }
    if a[1] != b[1] {
        return a[1] > b[1];
    }
    a[0] >= b[0]
}

/// Adds two 256-bit values limb by limb; the boolean reports the carry out
/// of the top limb, so the sum is reported exactly.
pub fn limbs_add(a: &[u64; 4], b: &[u64; 4]) -> (r: ([u64; 4], bool))
    ensures
        as_nat(r.0) + (if r.1 {
            radix4()
        } else {
            0nat
        }) == as_nat(*a) + as_nat(*b),
{
    let t0: u128 = (a[0] as u128) + (b[0] as u128);
    let (h0, d0) = split_u128(t0);
    let t1: u128 = (a[1] as u128) + (b[1] as u128) + (h0 as u128);
    let (h1, d1) = split_u128(t1);
    let t2: u128 = (a[2] as u128) + (b[2] as u128) + (h1 as u128);
    let (h2, d2) = split_u128(t2);
    let t3: u128 = (a[3] as u128) + (b[3] as u128) + (h2 as u128);
    let (h3, d3) = split_u128(t3);
    ([d0, d1, d2, d3], h3 > 0)
}

/// Subtracts the smaller 256-bit value from the larger, borrow by borrow.
pub fn limbs_sub(a: &[u64; 4], b: &[u64; 4]) -> (r: [u64; 4])
    requires
        as_nat(*a) >= as_nat(*b),
    ensures
        as_nat(r) == as_nat(*a) - as_nat(*b),
{
    let t0: u128 = 0x10000000000000000u128 + (a[0] as u128) - (b[0] as u128);
    let (h0, d0) = split_u128(t0);
    let brw0: u128 = if h0 == 0 {
        1
    } else {
        0
    };
    let t1: u128 = 0x10000000000000000u128 + (a[1] as u128) - (b[1] as u128) - brw0;
    let (h1, d1) = split_u128(t1);
    let brw1: u128 = if h1 == 0 {
        1
    } else {
        0
    };
    let t2: u128 = 0x10000000000000000u128 + (a[2] as u128) - (b[2] as u128) - brw1;
    let (h2, d2) = split_u128(t2);
    let brw2: u128 = if h2 == 0 {
        1
    } else {
        0
    };
    let t3: u128 = 0x10000000000000000u128 + (a[3] as u128) - (b[3] as u128) - brw2;
    let (h3, d3) = split_u128(t3);
    proof {
        lemma_as_nat_bound([d0, d1, d2, d3]);
    }
    [d0, d1, d2, d3]
}

/// Splits a 128-bit value into its high and low 64-bit halves.
pub(crate) fn split_u128(t: u128) -> (r: (u64, u64))
    ensures
        (r.0 as nat) * radix1() + (r.1 as nat) == t,
{
    proof {
        assert((t >> 64u128) <= 0xFFFFFFFFFFFFFFFFu128) by (bit_vector);
        assert((t & 0xFFFFFFFFFFFFFFFFu128) <= 0xFFFFFFFFFFFFFFFFu128) by (bit_vector);
        assert((t >> 64u128) == t / 0x10000000000000000u128) by (bit_vector);
        assert((t & 0xFFFFFFFFFFFFFFFFu128) == t % 0x10000000000000000u128) by (bit_vector);
        lemma_fundamental_div_mod(t as int, 0x10000000000000000);
    }
    let hi = (t >> 64u128) as u64;
    let lo = (t & 0xFFFFFFFFFFFFFFFFu128) as u64;
    (hi, lo)
}

/// Whether bit `i` of `n` (counting from the least significant) is set.
pub open spec fn bit_of(n: nat, i: nat) -> bool {
    (n / pow2(i)) % 2 == 1
}

/// The powers of two at the limb boundaries, as literals.
pub proof fn lemma_pow2_radix()
    ensures
        pow2(64) == radix1(),
        pow2(128) == radix2(),
        pow2(192) == radix3(),
        pow2(256) == radix4(),
{
    lemma2_to64();
    lemma_pow2_adds(64, 64);
    lemma_pow2_adds(128, 64);
    lemma_pow2_adds(192, 64);
}

/// Reading a number bit by bit from the most significant end: the prefix of
/// bits above position `i` is twice the prefix above `i + 1`, plus bit `i`.
pub proof fn lemma_bit_step(n: nat, i: nat)
    ensures
        n / pow2(i) == 2 * (n / pow2(i + 1)) + (if bit_of(n, i) {
            1nat
        } else {
            0nat
        }),
{
    lemma_pow2_adds(i, 1);
    lemma2_to64();
    lemma_pow2_pos(i);
    lemma_div_denominator(n as int, pow2(i) as int, 2);
    lemma_fundamental_div_mod((n / pow2(i)) as int, 2);
}

/// A value below 2^256 has no bits at position 256 or above.
pub proof fn lemma_high_bits_zero(n: nat)
    requires
        n < radix4(),
    ensures
        n / pow2(256) == 0,
{
    lemma_pow2_radix();
    lemma_basic_div(n as int, pow2(256) as int);
}

/// Bit `64*w + s` of `low + wp * (x + rest * 2^64)` is bit `s` of `x`,
/// when `low < wp == 2^(64*w)` and `s < 64`.
proof fn lemma_bit_decompose(n: nat, low: nat, x: u64, rest: nat, wp: nat, s: nat)
    requires
        low < wp,
        s < 64,
        n == low + wp * (x + rest * radix1()),
    ensures
        (n / (wp * pow2(s))) % 2 == ((x as nat) / pow2(s)) % 2,
{
    lemma_pow2_pos(s);
    lemma_pow2_radix();
    lemma_div_denominator(n as int, wp as int, pow2(s) as int);
    assert(n as int == (x + rest * radix1()) * (wp as int) + low) by (nonlinear_arith)
        requires
            n == low + wp * (x + rest * radix1()),
    ;
    lemma_fundamental_div_mod_converse(
        n as int,
        wp as int,
        x + rest * radix1(),
        low as int,
    );
    assert(n / (wp * pow2(s)) == (x + rest * radix1()) / pow2(s) as int);
    let m = (x + rest * radix1()) as nat;
    lemma_pow2_adds(s, (64 - s) as nat);
    lemma_fundamental_div_mod(x as int, pow2(s) as int);
    let q: int = x as int / pow2(s) as int;
    let r: int = x as int % pow2(s) as int;
    assert(rest * radix1() == pow2(s) * (rest * pow2((64 - s) as nat))) by (nonlinear_arith)
        requires
            radix1() == pow2(s) * pow2((64 - s) as nat),
    ;
    assert(m == pow2(s) * q + pow2(s) * (rest * pow2((64 - s) as nat)) + r) by (nonlinear_arith)
        requires
            x == pow2(s) * q + r,
            rest * radix1() == pow2(s) * (rest * pow2((64 - s) as nat)),
            m == x + rest * radix1(),
    ;
    assert(m as int == (q + rest * pow2((64 - s) as nat)) * pow2(s) as int + r) by (nonlinear_arith)
        requires
            m == pow2(s) * q + pow2(s) * (rest * pow2((64 - s) as nat)) + r,
    ;
    lemma_fundamental_div_mod_converse(
        m as int,
        pow2(s) as int,
        q + rest * pow2((64 - s) as nat),
        r,
    );
    assert(m / pow2(s) == q + rest * pow2((64 - s) as nat));
    lemma_pow2_adds(1, (63 - s) as nat);
    lemma2_to64();
    assert(pow2((64 - s) as nat) == 2 * pow2((63 - s) as nat));
    lemma_mod_multiples_vanish((rest * pow2((63 - s) as nat)) as int, q, 2);
    assert(rest * (2 * pow2((63 - s) as nat)) == 2 * (rest * pow2((63 - s) as nat)))
        by (nonlinear_arith);
}

/// Extracts bit `i` of a 256-bit value from its limbs.
pub fn limb_bit(l: &[u64; 4], i: usize) -> (r: bool)
    requires
        i < 256,
    ensures
        r == bit_of(as_nat(*l), i as nat),
{
    let w: usize = i / 64;
    let s: usize = i % 64;
    let x: u64 = l[w];
    proof {
        let n = as_nat(*l);
        let sn = s as nat;
        lemma_pow2_radix();
        lemma_pow2_pos(sn);
        if w == 0 {
            lemma_bit_decompose(
                n,
                0,
                l[0],
                (l[1] + l[2] * radix1() + l[3] * radix2()) as nat,
                1,
                sn,
            );
            assert(pow2(i as nat) == 1 * pow2(sn));
        } else if w == 1 {
            lemma_bit_decompose(n, l[0] as nat, l[1], (l[2] + l[3] * radix1()) as nat, radix1(), sn);
            lemma_pow2_adds(64, sn);
        } else if w == 2 {
            lemma_bit_decompose(n, (l[0] + l[1] * radix1()) as nat, l[2], l[3] as nat, radix2(), sn);
            lemma_pow2_adds(128, sn);
        } else {
            lemma_bit_decompose(
                n,
                (l[0] + l[1] * radix1() + l[2] * radix2()) as nat,
                l[3],
                0,
                radix3(),
                sn,
            );
            lemma_pow2_adds(192, sn);
        }
        vstd::bits::lemma_u64_shr_is_div(x, s as u64);
        assert(((x >> (s as u64)) & 1u64) == (x >> (s as u64)) % 2) by (bit_vector);
    }
    ((x >> (s as u64)) & 1u64) == 1
}

} // verus!
