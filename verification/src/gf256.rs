//! Arithmetic in GF(256), the byte-sized finite field used by the secret
//! splitter and combiner.
//!
//! Addition is XOR; multiplication reduces by the AES polynomial
//! `x^8 + x^4 + x^3 + x + 1` (0x11b). All operations are branch-free in the
//! operand values apart from the constant-shape conditional inside `xtime`.

use vstd::prelude::*;

verus! {

/// Multiplication of a field element by `x` (the element 2), with reduction.
pub open spec fn spec_xtime(a: u8) -> u8 {
    (a << 1) ^ (if a >= 0x80 { 0x1b } else { 0 })
}

/// Product in GF(256): the eight rounds of shift-and-add, written out so the
/// definition is a closed form over bit operations.
pub open spec fn spec_gf_mul(a: u8, b: u8) -> u8 {
    let a1 = spec_xtime(a);
    let a2 = spec_xtime(a1);
    let a3 = spec_xtime(a2);
    let a4 = spec_xtime(a3);
    let a5 = spec_xtime(a4);
    let a6 = spec_xtime(a5);
    let a7 = spec_xtime(a6);
    (if b & 0x01 != 0 { a } else { 0 }) ^ (if b & 0x02 != 0 { a1 } else { 0 })
        ^ (if b & 0x04 != 0 { a2 } else { 0 }) ^ (if b & 0x08 != 0 { a3 } else { 0 })
        ^ (if b & 0x10 != 0 { a4 } else { 0 }) ^ (if b & 0x20 != 0 { a5 } else { 0 })
        ^ (if b & 0x40 != 0 { a6 } else { 0 }) ^ (if b & 0x80 != 0 { a7 } else { 0 })
}

/// Multiplicative inverse as the 254th power (Fermat), built from repeated
/// squaring: `a^254 = a^2 * a^4 * ... * a^128`. Maps 0 to 0.
pub open spec fn spec_gf_inv(a: u8) -> u8 {
    let s1 = spec_gf_mul(a, a);
    let s2 = spec_gf_mul(s1, s1);
    let s3 = spec_gf_mul(s2, s2);
    let s4 = spec_gf_mul(s3, s3);
    let s5 = spec_gf_mul(s4, s4);
    let s6 = spec_gf_mul(s5, s5);
    let s7 = spec_gf_mul(s6, s6);
    spec_gf_mul(
        spec_gf_mul(
            spec_gf_mul(spec_gf_mul(spec_gf_mul(spec_gf_mul(s1, s2), s3), s4), s5),
            s6,
        ),
        s7,
    )
}

fn xtime(a: u8) -> (r: u8)
    ensures
        r == spec_xtime(a),
{
    (a << 1u8) ^ (if a >= 0x80 { 0x1b } else { 0 })
}

/// Field addition (and subtraction): bytewise XOR.
pub fn gf_add(a: u8, b: u8) -> (r: u8)
    ensures
        r == (a ^ b),
{
    a ^ b
}

/// Field multiplication.
pub fn gf_mul(a: u8, b: u8) -> (r: u8)
    ensures
        r == spec_gf_mul(a, b),
{
    let a1 = xtime(a);
    let a2 = xtime(a1);
    let a3 = xtime(a2);
    let a4 = xtime(a3);
    let a5 = xtime(a4);
    let a6 = xtime(a5);
    let a7 = xtime(a6);
    (if b & 0x01 != 0 { a } else { 0 }) ^ (if b & 0x02 != 0 { a1 } else { 0 })
        ^ (if b & 0x04 != 0 { a2 } else { 0 }) ^ (if b & 0x08 != 0 { a3 } else { 0 })
        ^ (if b & 0x10 != 0 { a4 } else { 0 }) ^ (if b & 0x20 != 0 { a5 } else { 0 })
        ^ (if b & 0x40 != 0 { a6 } else { 0 }) ^ (if b & 0x80 != 0 { a7 } else { 0 })
}

/// Multiplicative inverse; `gf_inv(0) == 0` by convention.
pub fn gf_inv(a: u8) -> (r: u8)
    ensures
        r == spec_gf_inv(a),
{
    let s1 = gf_mul(a, a);
    let s2 = gf_mul(s1, s1);
    let s3 = gf_mul(s2, s2);
    let s4 = gf_mul(s3, s3);
    let s5 = gf_mul(s4, s4);
    let s6 = gf_mul(s5, s5);
    let s7 = gf_mul(s6, s6);
    gf_mul(gf_mul(gf_mul(gf_mul(gf_mul(gf_mul(s1, s2), s3), s4), s5), s6), s7)
}

/// Field division: `a / b == a * b^-1`, defined for `b != 0`.
pub fn gf_div(a: u8, b: u8) -> (r: u8)
    requires
        b != 0,
    ensures
        r == spec_gf_mul(a, spec_gf_inv(b)),
{
    gf_mul(a, gf_inv(b))
}

/// 0 and 1 behave as the additive and multiplicative identities.
pub proof fn lemma_gf_identities(a: u8)
    ensures
        (a ^ 0) == a,
        spec_gf_mul(a, 0) == 0,
        spec_gf_mul(0, a) == 0,
        spec_gf_mul(a, 1) == a,
        spec_gf_mul(1, a) == a,
{
    assert((a ^ 0) == a && spec_gf_mul(a, 0) == 0 && spec_gf_mul(0, a) == 0 && spec_gf_mul(
        a,
        1,
    ) == a && spec_gf_mul(1, a) == a) by (bit_vector);
}

/// Multiplication is commutative.
pub proof fn lemma_gf_mul_comm(a: u8, b: u8)
    ensures
        spec_gf_mul(a, b) == spec_gf_mul(b, a),
{
    assert(spec_gf_mul(a, b) == spec_gf_mul(b, a)) by (bit_vector);
}

/// Multiplication distributes over field addition (XOR).
#[verifier::rlimit(100)]
pub proof fn lemma_gf_mul_distrib(a: u8, b: u8, c: u8)
    ensures
        spec_gf_mul(a, b ^ c) == (spec_gf_mul(a, b) ^ spec_gf_mul(a, c)),
        spec_gf_mul(a ^ b, c) == (spec_gf_mul(a, c) ^ spec_gf_mul(b, c)),
{
    assert(spec_gf_mul(a ^ b, c) == (spec_gf_mul(a, c) ^ spec_gf_mul(b, c))) by (bit_vector);
    lemma_gf_mul_comm(a, b ^ c);
    lemma_gf_mul_comm(a, b);
    lemma_gf_mul_comm(a, c);
    assert(spec_gf_mul(b ^ c, a) == (spec_gf_mul(b, a) ^ spec_gf_mul(c, a))) by (bit_vector);
}

} // verus!
