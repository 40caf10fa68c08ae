//! Arithmetic in GF(2^8) with the field polynomial x^8 + x^4 + x^3 + x + 1.
use vstd::prelude::*;

verus! {

/// Multiplication by `x`, reduced modulo the field polynomial.
pub open spec fn xt(a: u8) -> u8 {
    ((a << 1u8) ^ (if a & 0x80u8 == 0 { 0u8 } else { 0x1bu8 })) as u8
}

pub open spec fn sel(b: u8, bit: u8, v: u8) -> u8 {
    if b & bit == 0 { 0u8 } else { v }
}

/// Sum of the multiples `a_k` selected by the bits of `b`.
pub open spec fn mx(b: u8, a: u8, a1: u8, a2: u8, a3: u8, a4: u8, a5: u8, a6: u8, a7: u8) -> u8 {
    (sel(b, 1, a) ^ sel(b, 2, a1) ^ sel(b, 4, a2) ^ sel(b, 8, a3)
        ^ sel(b, 16, a4) ^ sel(b, 32, a5) ^ sel(b, 64, a6) ^ sel(b, 128, a7)) as u8
}

/// The field product of `a` and `b`.
pub open spec fn gf_mul_spec(a: u8, b: u8) -> u8 {
    let a1 = xt(a);
    let a2 = xt(a1);
    let a3 = xt(a2);
    let a4 = xt(a3);
    let a5 = xt(a4);
    let a6 = xt(a5);
    let a7 = xt(a6);
    mx(b, a, a1, a2, a3, a4, a5, a6, a7)
}

/// `a` raised to the power `n` in the field.
pub open spec fn pow_spec(a: u8, n: nat) -> u8
    decreases n,
{
    if n == 0 {
        1u8
    } else {
        gf_mul_spec(a, pow_spec(a, (n - 1) as nat))
    }
}

/// The square of `a`.
pub open spec fn sq(a: u8) -> u8 {
    gf_mul_spec(a, a)
}

/// The multiplicative inverse of a non-zero element, a^254 written as the
/// product of the squares a^2, a^4, ..., a^128.
pub open spec fn inv_spec(a: u8) -> u8 {
    let s1 = sq(a);
    let s2 = sq(s1);
    let s3 = sq(s2);
    let s4 = sq(s3);
    let s5 = sq(s4);
    let s6 = sq(s5);
    let s7 = sq(s6);
    gf_mul_spec(gf_mul_spec(gf_mul_spec(gf_mul_spec(gf_mul_spec(gf_mul_spec(s1, s2), s3), s4), s5), s6), s7)
}

/// Multiplication by `a` following the bits of `b`, lowest bit first, for `n` steps.
pub open spec fn mul_steps(a: u8, b: u8, n: nat) -> u8
    decreases n,
{
    if n == 0 {
        0u8
    } else {
        (sel(b, 1, a) ^ mul_steps(xt(a), (b >> 1u8) as u8, (n - 1) as nat)) as u8
    }
}

proof fn lemma_comm_bv(a: u8, a1: u8, a2: u8, a3: u8, a4: u8, a5: u8, a6: u8, a7: u8,
    b: u8, b1: u8, b2: u8, b3: u8, b4: u8, b5: u8, b6: u8, b7: u8)
    requires
        a1 == xt(a), a2 == xt(a1), a3 == xt(a2), a4 == xt(a3), a5 == xt(a4), a6 == xt(a5), a7 == xt(a6),
        b1 == xt(b), b2 == xt(b1), b3 == xt(b2), b4 == xt(b3), b5 == xt(b4), b6 == xt(b5), b7 == xt(b6),
    ensures
        mx(b, a, a1, a2, a3, a4, a5, a6, a7) == mx(a, b, b1, b2, b3, b4, b5, b6, b7),
{
    assert(mx(b, a, a1, a2, a3, a4, a5, a6, a7) == mx(a, b, b1, b2, b3, b4, b5, b6, b7)) by (bit_vector)
        requires
            a1 == xt(a), a2 == xt(a1), a3 == xt(a2), a4 == xt(a3), a5 == xt(a4), a6 == xt(a5), a7 == xt(a6),
            b1 == xt(b), b2 == xt(b1), b3 == xt(b2), b4 == xt(b3), b5 == xt(b4), b6 == xt(b5), b7 == xt(b6);
}

pub proof fn lemma_mul_comm(a: u8, b: u8)
    ensures gf_mul_spec(a, b) == gf_mul_spec(b, a),
{
    lemma_comm_bv(a, xt(a), xt(xt(a)), xt(xt(xt(a))), xt(xt(xt(xt(a)))), xt(xt(xt(xt(xt(a))))),
        xt(xt(xt(xt(xt(xt(a)))))), xt(xt(xt(xt(xt(xt(xt(a))))))),
        b, xt(b), xt(xt(b)), xt(xt(xt(b))), xt(xt(xt(xt(b)))), xt(xt(xt(xt(xt(b))))),
        xt(xt(xt(xt(xt(xt(b)))))), xt(xt(xt(xt(xt(xt(xt(b))))))));
}

proof fn lemma_lin_bv(x: u8, y: u8, a: u8, a1: u8, a2: u8, a3: u8, a4: u8, a5: u8, a6: u8, a7: u8)
    ensures
        mx((x ^ y) as u8, a, a1, a2, a3, a4, a5, a6, a7)
            == mx(x, a, a1, a2, a3, a4, a5, a6, a7) ^ mx(y, a, a1, a2, a3, a4, a5, a6, a7),
{
    assert(mx((x ^ y) as u8, a, a1, a2, a3, a4, a5, a6, a7)
        == mx(x, a, a1, a2, a3, a4, a5, a6, a7) ^ mx(y, a, a1, a2, a3, a4, a5, a6, a7)) by (bit_vector);
}

/// Multiplication distributes over addition (xor) in its second argument.
pub proof fn lemma_mul_distrib(a: u8, x: u8, y: u8)
    ensures gf_mul_spec(a, (x ^ y) as u8) == gf_mul_spec(a, x) ^ gf_mul_spec(a, y),
{
    lemma_lin_bv(x, y, a, xt(a), xt(xt(a)), xt(xt(xt(a))), xt(xt(xt(xt(a)))), xt(xt(xt(xt(xt(a))))),
        xt(xt(xt(xt(xt(xt(a)))))), xt(xt(xt(xt(xt(xt(xt(a))))))));
}

/// Multiplication distributes over addition (xor) in its first argument.
pub proof fn lemma_mul_distrib_left(x: u8, y: u8, a: u8)
    ensures gf_mul_spec((x ^ y) as u8, a) == gf_mul_spec(x, a) ^ gf_mul_spec(y, a),
{
    lemma_mul_distrib(a, x, y);
    lemma_mul_comm(a, (x ^ y) as u8);
    lemma_mul_comm(a, x);
    lemma_mul_comm(a, y);
}

proof fn lemma_xt_mul_bv(a: u8, a1: u8, a2: u8, a3: u8, a4: u8, a5: u8, a6: u8, a7: u8, b: u8, b1: u8, ab: u8)
    requires
        a1 == xt(a), a2 == xt(a1), a3 == xt(a2), a4 == xt(a3), a5 == xt(a4), a6 == xt(a5), a7 == xt(a6),
        b1 == xt(b),
        ab == mx(b, a, a1, a2, a3, a4, a5, a6, a7),
    ensures
        mx(b1, a, a1, a2, a3, a4, a5, a6, a7) == xt(ab),
{
    assert(mx(b1, a, a1, a2, a3, a4, a5, a6, a7) == xt(ab)) by (bit_vector)
        requires
            a1 == xt(a), a2 == xt(a1), a3 == xt(a2), a4 == xt(a3), a5 == xt(a4), a6 == xt(a5), a7 == xt(a6),
            b1 == xt(b),
            ab == mx(b, a, a1, a2, a3, a4, a5, a6, a7);
}

proof fn lemma_xt_mul(a: u8, b: u8)
    ensures gf_mul_spec(a, xt(b)) == xt(gf_mul_spec(a, b)),
{
    lemma_xt_mul_bv(a, xt(a), xt(xt(a)), xt(xt(xt(a))), xt(xt(xt(xt(a)))), xt(xt(xt(xt(xt(a))))),
        xt(xt(xt(xt(xt(xt(a)))))), xt(xt(xt(xt(xt(xt(xt(a))))))), b, xt(b), gf_mul_spec(a, b));
}

proof fn lemma_sel_bv(c: u8, bit: u8, v: u8, a: u8, a1: u8, a2: u8, a3: u8, a4: u8, a5: u8, a6: u8, a7: u8)
    ensures
        mx(sel(c, bit, v), a, a1, a2, a3, a4, a5, a6, a7) == sel(c, bit, mx(v, a, a1, a2, a3, a4, a5, a6, a7)),
{
    assert(mx(0u8, a, a1, a2, a3, a4, a5, a6, a7) == 0u8) by (bit_vector);
}

proof fn lemma_mul_sel(a: u8, c: u8, bit: u8, v: u8)
    ensures gf_mul_spec(a, sel(c, bit, v)) == sel(c, bit, gf_mul_spec(a, v)),
{
    lemma_sel_bv(c, bit, v, a, xt(a), xt(xt(a)), xt(xt(xt(a))), xt(xt(xt(xt(a)))), xt(xt(xt(xt(xt(a))))),
        xt(xt(xt(xt(xt(xt(a)))))), xt(xt(xt(xt(xt(xt(xt(a))))))));
}

/// Multiplication is associative.
pub proof fn lemma_mul_assoc(a: u8, b: u8, c: u8)
    ensures gf_mul_spec(gf_mul_spec(a, b), c) == gf_mul_spec(a, gf_mul_spec(b, c)),
{
    let b1 = xt(b);
    let b2 = xt(b1);
    let b3 = xt(b2);
    let b4 = xt(b3);
    let b5 = xt(b4);
    let b6 = xt(b5);
    let b7 = xt(b6);
    lemma_xt_mul(a, b);
    lemma_xt_mul(a, b1);
    lemma_xt_mul(a, b2);
    lemma_xt_mul(a, b3);
    lemma_xt_mul(a, b4);
    lemma_xt_mul(a, b5);
    lemma_xt_mul(a, b6);
    let s0 = sel(c, 1, b);
    let s1 = sel(c, 2, b1);
    let s2 = sel(c, 4, b2);
    let s3 = sel(c, 8, b3);
    let s4 = sel(c, 16, b4);
    let s5 = sel(c, 32, b5);
    let s6 = sel(c, 64, b6);
    let s7 = sel(c, 128, b7);
    lemma_mul_sel(a, c, 1, b);
    lemma_mul_sel(a, c, 2, b1);
    lemma_mul_sel(a, c, 4, b2);
    lemma_mul_sel(a, c, 8, b3);
    lemma_mul_sel(a, c, 16, b4);
    lemma_mul_sel(a, c, 32, b5);
    lemma_mul_sel(a, c, 64, b6);
    lemma_mul_sel(a, c, 128, b7);
    let t1 = (s0 ^ s1) as u8;
    let t2 = (t1 ^ s2) as u8;
    let t3 = (t2 ^ s3) as u8;
    let t4 = (t3 ^ s4) as u8;
    let t5 = (t4 ^ s5) as u8;
    let t6 = (t5 ^ s6) as u8;
    lemma_mul_distrib(a, s0, s1);
    lemma_mul_distrib(a, t1, s2);
    lemma_mul_distrib(a, t2, s3);
    lemma_mul_distrib(a, t3, s4);
    lemma_mul_distrib(a, t4, s5);
    lemma_mul_distrib(a, t5, s6);
    lemma_mul_distrib(a, t6, s7);
}

/// One is the multiplicative identity.
pub proof fn lemma_mul_one(a: u8)
    ensures gf_mul_spec(a, 1) == a, gf_mul_spec(1, a) == a,
{
    assert(mx(1u8, a, xt(a), xt(xt(a)), xt(xt(xt(a))), xt(xt(xt(xt(a)))), xt(xt(xt(xt(xt(a))))),
        xt(xt(xt(xt(xt(xt(a)))))), xt(xt(xt(xt(xt(xt(xt(a)))))))) == a) by {
        let a1 = xt(a);
        let a2 = xt(a1);
        let a3 = xt(a2);
        let a4 = xt(a3);
        let a5 = xt(a4);
        let a6 = xt(a5);
        let a7 = xt(a6);
        assert(mx(1u8, a, a1, a2, a3, a4, a5, a6, a7) == a) by (bit_vector);
    }
    lemma_mul_comm(1, a);
}

/// Zero annihilates.
pub proof fn lemma_mul_zero(a: u8)
    ensures gf_mul_spec(a, 0) == 0, gf_mul_spec(0, a) == 0,
{
    let a1 = xt(a);
    let a2 = xt(a1);
    let a3 = xt(a2);
    let a4 = xt(a3);
    let a5 = xt(a4);
    let a6 = xt(a5);
    let a7 = xt(a6);
    assert(mx(0u8, a, a1, a2, a3, a4, a5, a6, a7) == 0) by (bit_vector);
    lemma_mul_comm(0, a);
}

pub proof fn lemma_pow_add(a: u8, m: nat, n: nat)
    ensures pow_spec(a, m + n) == gf_mul_spec(pow_spec(a, m), pow_spec(a, n)),
    decreases m,
{
    if m == 0 {
        lemma_mul_one(pow_spec(a, n));
    } else {
        lemma_pow_add(a, (m - 1) as nat, n);
        assert(pow_spec(a, m + n) == gf_mul_spec(a, pow_spec(a, (m - 1 + n) as nat)));
        lemma_mul_assoc(a, pow_spec(a, (m - 1) as nat), pow_spec(a, n));
    }
}

pub proof fn lemma_pow_square(a: u8, n: nat)
    ensures pow_spec(gf_mul_spec(a, a), n) == pow_spec(a, 2 * n),
    decreases n,
{
    if n == 0 {
    } else {
        lemma_pow_square(a, (n - 1) as nat);
        lemma_pow_add(a, 2, (2 * (n - 1)) as nat);
        assert(pow_spec(a, 1) == gf_mul_spec(a, pow_spec(a, 0)));
        assert(pow_spec(a, 2) == gf_mul_spec(a, pow_spec(a, 1)));
        lemma_mul_one(a);
    }
}

proof fn lemma_inv_bv(a: u8, a_1: u8, a_2: u8, a_3: u8, a_4: u8, a_5: u8, a_6: u8, a_7: u8, s1: u8, s1_1: u8, s1_2: u8, s1_3: u8, s1_4: u8, s1_5: u8, s1_6: u8, s1_7: u8, s2: u8, s2_1: u8, s2_2: u8, s2_3: u8, s2_4: u8, s2_5: u8, s2_6: u8, s2_7: u8, s3: u8, s3_1: u8, s3_2: u8, s3_3: u8, s3_4: u8, s3_5: u8, s3_6: u8, s3_7: u8, s4: u8, s4_1: u8, s4_2: u8, s4_3: u8, s4_4: u8, s4_5: u8, s4_6: u8, s4_7: u8, s5: u8, s5_1: u8, s5_2: u8, s5_3: u8, s5_4: u8, s5_5: u8, s5_6: u8, s5_7: u8, s6: u8, s6_1: u8, s6_2: u8, s6_3: u8, s6_4: u8, s6_5: u8, s6_6: u8, s6_7: u8, s7: u8, p2: u8, p2_1: u8, p2_2: u8, p2_3: u8, p2_4: u8, p2_5: u8, p2_6: u8, p2_7: u8, p3: u8, p3_1: u8, p3_2: u8, p3_3: u8, p3_4: u8, p3_5: u8, p3_6: u8, p3_7: u8, p4: u8, p4_1: u8, p4_2: u8, p4_3: u8, p4_4: u8, p4_5: u8, p4_6: u8, p4_7: u8, p5: u8, p5_1: u8, p5_2: u8, p5_3: u8, p5_4: u8, p5_5: u8, p5_6: u8, p5_7: u8, p6: u8, p6_1: u8, p6_2: u8, p6_3: u8, p6_4: u8, p6_5: u8, p6_6: u8, p6_7: u8, p7: u8, q: u8)
    requires
        a_1 == xt(a),
        a_2 == xt(a_1),
        a_3 == xt(a_2),
        a_4 == xt(a_3),
        a_5 == xt(a_4),
        a_6 == xt(a_5),
        a_7 == xt(a_6),
        s1 == mx(a, a, a_1, a_2, a_3, a_4, a_5, a_6, a_7),
        s1_1 == xt(s1),
        s1_2 == xt(s1_1),
        s1_3 == xt(s1_2),
        s1_4 == xt(s1_3),
        s1_5 == xt(s1_4),
        s1_6 == xt(s1_5),
        s1_7 == xt(s1_6),
        s2 == mx(s1, s1, s1_1, s1_2, s1_3, s1_4, s1_5, s1_6, s1_7),
        s2_1 == xt(s2),
        s2_2 == xt(s2_1),
        s2_3 == xt(s2_2),
        s2_4 == xt(s2_3),
        s2_5 == xt(s2_4),
        s2_6 == xt(s2_5),
        s2_7 == xt(s2_6),
        s3 == mx(s2, s2, s2_1, s2_2, s2_3, s2_4, s2_5, s2_6, s2_7),
        s3_1 == xt(s3),
        s3_2 == xt(s3_1),
        s3_3 == xt(s3_2),
        s3_4 == xt(s3_3),
        s3_5 == xt(s3_4),
        s3_6 == xt(s3_5),
        s3_7 == xt(s3_6),
        s4 == mx(s3, s3, s3_1, s3_2, s3_3, s3_4, s3_5, s3_6, s3_7),
        s4_1 == xt(s4),
        s4_2 == xt(s4_1),
        s4_3 == xt(s4_2),
        s4_4 == xt(s4_3),
        s4_5 == xt(s4_4),
        s4_6 == xt(s4_5),
        s4_7 == xt(s4_6),
        s5 == mx(s4, s4, s4_1, s4_2, s4_3, s4_4, s4_5, s4_6, s4_7),
        s5_1 == xt(s5),
        s5_2 == xt(s5_1),
        s5_3 == xt(s5_2),
        s5_4 == xt(s5_3),
        s5_5 == xt(s5_4),
        s5_6 == xt(s5_5),
        s5_7 == xt(s5_6),
        s6 == mx(s5, s5, s5_1, s5_2, s5_3, s5_4, s5_5, s5_6, s5_7),
        s6_1 == xt(s6),
        s6_2 == xt(s6_1),
        s6_3 == xt(s6_2),
        s6_4 == xt(s6_3),
        s6_5 == xt(s6_4),
        s6_6 == xt(s6_5),
        s6_7 == xt(s6_6),
        s7 == mx(s6, s6, s6_1, s6_2, s6_3, s6_4, s6_5, s6_6, s6_7),
        p2 == mx(s2, s1, s1_1, s1_2, s1_3, s1_4, s1_5, s1_6, s1_7),
        p2_1 == xt(p2),
        p2_2 == xt(p2_1),
        p2_3 == xt(p2_2),
        p2_4 == xt(p2_3),
        p2_5 == xt(p2_4),
        p2_6 == xt(p2_5),
        p2_7 == xt(p2_6),
        p3 == mx(s3, p2, p2_1, p2_2, p2_3, p2_4, p2_5, p2_6, p2_7),
        p3_1 == xt(p3),
        p3_2 == xt(p3_1),
        p3_3 == xt(p3_2),
        p3_4 == xt(p3_3),
        p3_5 == xt(p3_4),
        p3_6 == xt(p3_5),
        p3_7 == xt(p3_6),
        p4 == mx(s4, p3, p3_1, p3_2, p3_3, p3_4, p3_5, p3_6, p3_7),
        p4_1 == xt(p4),
        p4_2 == xt(p4_1),
        p4_3 == xt(p4_2),
        p4_4 == xt(p4_3),
        p4_5 == xt(p4_4),
        p4_6 == xt(p4_5),
        p4_7 == xt(p4_6),
        p5 == mx(s5, p4, p4_1, p4_2, p4_3, p4_4, p4_5, p4_6, p4_7),
        p5_1 == xt(p5),
        p5_2 == xt(p5_1),
        p5_3 == xt(p5_2),
        p5_4 == xt(p5_3),
        p5_5 == xt(p5_4),
        p5_6 == xt(p5_5),
        p5_7 == xt(p5_6),
        p6 == mx(s6, p5, p5_1, p5_2, p5_3, p5_4, p5_5, p5_6, p5_7),
        p6_1 == xt(p6),
        p6_2 == xt(p6_1),
        p6_3 == xt(p6_2),
        p6_4 == xt(p6_3),
        p6_5 == xt(p6_4),
        p6_6 == xt(p6_5),
        p6_7 == xt(p6_6),
        p7 == mx(s7, p6, p6_1, p6_2, p6_3, p6_4, p6_5, p6_6, p6_7),
        q == mx(p7, a, a_1, a_2, a_3, a_4, a_5, a_6, a_7),
    ensures
        a != 0 ==> q == 1,
{
    assert(a != 0 ==> q == 1) by (bit_vector)
        requires
            a_1 == xt(a),
            a_2 == xt(a_1),
            a_3 == xt(a_2),
            a_4 == xt(a_3),
            a_5 == xt(a_4),
            a_6 == xt(a_5),
            a_7 == xt(a_6),
            s1 == mx(a, a, a_1, a_2, a_3, a_4, a_5, a_6, a_7),
            s1_1 == xt(s1),
            s1_2 == xt(s1_1),
            s1_3 == xt(s1_2),
            s1_4 == xt(s1_3),
            s1_5 == xt(s1_4),
            s1_6 == xt(s1_5),
            s1_7 == xt(s1_6),
            s2 == mx(s1, s1, s1_1, s1_2, s1_3, s1_4, s1_5, s1_6, s1_7),
            s2_1 == xt(s2),
            s2_2 == xt(s2_1),
            s2_3 == xt(s2_2),
            s2_4 == xt(s2_3),
            s2_5 == xt(s2_4),
            s2_6 == xt(s2_5),
            s2_7 == xt(s2_6),
            s3 == mx(s2, s2, s2_1, s2_2, s2_3, s2_4, s2_5, s2_6, s2_7),
            s3_1 == xt(s3),
            s3_2 == xt(s3_1),
            s3_3 == xt(s3_2),
            s3_4 == xt(s3_3),
            s3_5 == xt(s3_4),
            s3_6 == xt(s3_5),
            s3_7 == xt(s3_6),
            s4 == mx(s3, s3, s3_1, s3_2, s3_3, s3_4, s3_5, s3_6, s3_7),
            s4_1 == xt(s4),
            s4_2 == xt(s4_1),
            s4_3 == xt(s4_2),
            s4_4 == xt(s4_3),
            s4_5 == xt(s4_4),
            s4_6 == xt(s4_5),
            s4_7 == xt(s4_6),
            s5 == mx(s4, s4, s4_1, s4_2, s4_3, s4_4, s4_5, s4_6, s4_7),
            s5_1 == xt(s5),
            s5_2 == xt(s5_1),
            s5_3 == xt(s5_2),
            s5_4 == xt(s5_3),
            s5_5 == xt(s5_4),
            s5_6 == xt(s5_5),
            s5_7 == xt(s5_6),
            s6 == mx(s5, s5, s5_1, s5_2, s5_3, s5_4, s5_5, s5_6, s5_7),
            s6_1 == xt(s6),
            s6_2 == xt(s6_1),
            s6_3 == xt(s6_2),
            s6_4 == xt(s6_3),
            s6_5 == xt(s6_4),
            s6_6 == xt(s6_5),
            s6_7 == xt(s6_6),
            s7 == mx(s6, s6, s6_1, s6_2, s6_3, s6_4, s6_5, s6_6, s6_7),
            p2 == mx(s2, s1, s1_1, s1_2, s1_3, s1_4, s1_5, s1_6, s1_7),
            p2_1 == xt(p2),
            p2_2 == xt(p2_1),
            p2_3 == xt(p2_2),
            p2_4 == xt(p2_3),
            p2_5 == xt(p2_4),
            p2_6 == xt(p2_5),
            p2_7 == xt(p2_6),
            p3 == mx(s3, p2, p2_1, p2_2, p2_3, p2_4, p2_5, p2_6, p2_7),
            p3_1 == xt(p3),
            p3_2 == xt(p3_1),
            p3_3 == xt(p3_2),
            p3_4 == xt(p3_3),
            p3_5 == xt(p3_4),
            p3_6 == xt(p3_5),
            p3_7 == xt(p3_6),
            p4 == mx(s4, p3, p3_1, p3_2, p3_3, p3_4, p3_5, p3_6, p3_7),
            p4_1 == xt(p4),
            p4_2 == xt(p4_1),
            p4_3 == xt(p4_2),
            p4_4 == xt(p4_3),
            p4_5 == xt(p4_4),
            p4_6 == xt(p4_5),
            p4_7 == xt(p4_6),
            p5 == mx(s5, p4, p4_1, p4_2, p4_3, p4_4, p4_5, p4_6, p4_7),
            p5_1 == xt(p5),
            p5_2 == xt(p5_1),
            p5_3 == xt(p5_2),
            p5_4 == xt(p5_3),
            p5_5 == xt(p5_4),
            p5_6 == xt(p5_5),
            p5_7 == xt(p5_6),
            p6 == mx(s6, p5, p5_1, p5_2, p5_3, p5_4, p5_5, p5_6, p5_7),
            p6_1 == xt(p6),
            p6_2 == xt(p6_1),
            p6_3 == xt(p6_2),
            p6_4 == xt(p6_3),
            p6_5 == xt(p6_4),
            p6_6 == xt(p6_5),
            p6_7 == xt(p6_6),
            p7 == mx(s7, p6, p6_1, p6_2, p6_3, p6_4, p6_5, p6_6, p6_7),
            q == mx(p7, a, a_1, a_2, a_3, a_4, a_5, a_6, a_7);
}


pub proof fn lemma_xts(x: u8) -> (r: (u8, u8, u8, u8, u8, u8, u8))
    ensures
        r.0 == xt(x), r.1 == xt(r.0), r.2 == xt(r.1), r.3 == xt(r.2), r.4 == xt(r.3), r.5 == xt(r.4),
        r.6 == xt(r.5),
        gf_mul_spec(x, 0) == 0,
{
    lemma_mul_zero(x);
    let x1 = xt(x);
    let x2 = xt(x1);
    let x3 = xt(x2);
    let x4 = xt(x3);
    let x5 = xt(x4);
    let x6 = xt(x5);
    let x7 = xt(x6);
    (x1, x2, x3, x4, x5, x6, x7)
}

/// Every non-zero element has a multiplicative inverse.
pub proof fn lemma_inv(a: u8)
    requires a != 0,
    ensures gf_mul_spec(a, inv_spec(a)) == 1, gf_mul_spec(inv_spec(a), a) == 1,
{
    let s1 = sq(a);
    let s2 = sq(s1);
    let s3 = sq(s2);
    let s4 = sq(s3);
    let s5 = sq(s4);
    let s6 = sq(s5);
    let s7 = sq(s6);
    let p2 = gf_mul_spec(s1, s2);
    let p3 = gf_mul_spec(p2, s3);
    let p4 = gf_mul_spec(p3, s4);
    let p5 = gf_mul_spec(p4, s5);
    let p6 = gf_mul_spec(p5, s6);
    let p7 = gf_mul_spec(p6, s7);
    let q = gf_mul_spec(a, p7);
    let ca = lemma_xts(a);
    let c1 = lemma_xts(s1);
    let c2 = lemma_xts(s2);
    let c3 = lemma_xts(s3);
    let c4 = lemma_xts(s4);
    let c5 = lemma_xts(s5);
    let c6 = lemma_xts(s6);
    let d2 = lemma_xts(p2);
    let d3 = lemma_xts(p3);
    let d4 = lemma_xts(p4);
    let d5 = lemma_xts(p5);
    let d6 = lemma_xts(p6);
    lemma_inv_bv(a, ca.0, ca.1, ca.2, ca.3, ca.4, ca.5, ca.6, s1,
        c1.0, c1.1, c1.2, c1.3, c1.4, c1.5, c1.6, s2,
        c2.0, c2.1, c2.2, c2.3, c2.4, c2.5, c2.6, s3,
        c3.0, c3.1, c3.2, c3.3, c3.4, c3.5, c3.6, s4,
        c4.0, c4.1, c4.2, c4.3, c4.4, c4.5, c4.6, s5,
        c5.0, c5.1, c5.2, c5.3, c5.4, c5.5, c5.6, s6,
        c6.0, c6.1, c6.2, c6.3, c6.4, c6.5, c6.6, s7,
        p2, d2.0, d2.1, d2.2, d2.3, d2.4, d2.5, d2.6, p3,
        d3.0, d3.1, d3.2, d3.3, d3.4, d3.5, d3.6, p4,
        d4.0, d4.1, d4.2, d4.3, d4.4, d4.5, d4.6, p5,
        d5.0, d5.1, d5.2, d5.3, d5.4, d5.5, d5.6, p6,
        d6.0, d6.1, d6.2, d6.3, d6.4, d6.5, d6.6, p7, q);
    lemma_mul_comm(a, inv_spec(a));
}


proof fn lemma_steps_bv(a: u8, a1: u8, a2: u8, a3: u8, a4: u8, a5: u8, a6: u8, a7: u8,
    b: u8, b1: u8, b2: u8, b3: u8, b4: u8, b5: u8, b6: u8, b7: u8)
    requires
        a1 == xt(a), a2 == xt(a1), a3 == xt(a2), a4 == xt(a3), a5 == xt(a4), a6 == xt(a5), a7 == xt(a6),
        b1 == b >> 1u8, b2 == b1 >> 1u8, b3 == b2 >> 1u8, b4 == b3 >> 1u8, b5 == b4 >> 1u8,
        b6 == b5 >> 1u8, b7 == b6 >> 1u8,
    ensures
        (sel(b, 1, a) ^ (sel(b1, 1, a1) ^ (sel(b2, 1, a2) ^ (sel(b3, 1, a3) ^ (sel(b4, 1, a4)
            ^ (sel(b5, 1, a5) ^ (sel(b6, 1, a6) ^ (sel(b7, 1, a7) ^ 0u8)))))))) as u8
            == mx(b, a, a1, a2, a3, a4, a5, a6, a7),
{
    assert((sel(b, 1, a) ^ (sel(b1, 1, a1) ^ (sel(b2, 1, a2) ^ (sel(b3, 1, a3) ^ (sel(b4, 1, a4)
        ^ (sel(b5, 1, a5) ^ (sel(b6, 1, a6) ^ (sel(b7, 1, a7) ^ 0u8)))))))) as u8
        == mx(b, a, a1, a2, a3, a4, a5, a6, a7)) by (bit_vector)
        requires
            b1 == b >> 1u8, b2 == b1 >> 1u8, b3 == b2 >> 1u8, b4 == b3 >> 1u8, b5 == b4 >> 1u8,
            b6 == b5 >> 1u8, b7 == b6 >> 1u8;
}

proof fn lemma_steps(a: u8, b: u8)
    ensures mul_steps(a, b, 8) == gf_mul_spec(a, b),
{
    reveal_with_fuel(mul_steps, 9);
    let c = lemma_xts(a);
    let b1 = (b >> 1u8) as u8;
    let b2 = (b1 >> 1u8) as u8;
    let b3 = (b2 >> 1u8) as u8;
    let b4 = (b3 >> 1u8) as u8;
    let b5 = (b4 >> 1u8) as u8;
    let b6 = (b5 >> 1u8) as u8;
    let b7 = (b6 >> 1u8) as u8;
    lemma_steps_bv(a, c.0, c.1, c.2, c.3, c.4, c.5, c.6, b, b1, b2, b3, b4, b5, b6, b7);
}

proof fn lemma_step_bv(p: u32, aa: u32, bb: u32, rest: u8)
    requires p < 256, aa < 256, bb < 256,
    ensures
        ({
            let p2 = if bb & 1 != 0 { p ^ aa } else { p };
            let a2 = aa << 1u32;
            let a3 = if a2 & 0x100 != 0 { a2 ^ 0x11b } else { a2 };
            &&& p2 < 256
            &&& a3 < 256
            &&& (bb >> 1u32) < 256
            &&& a3 as u8 == xt(aa as u8)
            &&& (bb >> 1u32) as u8 == ((bb as u8) >> 1u8)
            &&& ((p as u8) ^ ((sel(bb as u8, 1, aa as u8) ^ rest) as u8)) as u8 == ((p2 as u8) ^ rest) as u8
        }),
{
    assert({
            let p2 = if bb & 1 != 0 { p ^ aa } else { p };
            let a2 = aa << 1u32;
            let a3 = if a2 & 0x100 != 0 { a2 ^ 0x11b } else { a2 };
            &&& p2 < 256
            &&& a3 < 256
            &&& (bb >> 1u32) < 256
            &&& a3 as u8 == xt(aa as u8)
            &&& (bb >> 1u32) as u8 == ((bb as u8) >> 1u8)
            &&& ((p as u8) ^ ((sel(bb as u8, 1, aa as u8) ^ rest) as u8)) as u8 == ((p2 as u8) ^ rest) as u8
        }) by (bit_vector)
        requires p < 256, aa < 256, bb < 256;
}

/// Field multiplication by shift-and-add (carry-less multiplication with
/// reduction by 0x11B).
pub fn gf_mul_const(a: u8, b: u8) -> (r: u8)
    ensures r == gf_mul_spec(a, b),
{
    let mut p: u32 = 0;
    let mut aa: u32 = a as u32;
    let mut bb: u32 = b as u32;
    let mut i: u32 = 0;
    proof { lemma_steps(a, b); }
    let ghost m = mul_steps(a, b, 8);
    assert((0u8 ^ m) as u8 == m) by (bit_vector);
    while i < 8
        invariant
            i <= 8,
            p < 256,
            aa < 256,
            bb < 256,
            (p as u8 ^ mul_steps(aa as u8, bb as u8, (8 - i) as nat)) as u8 == gf_mul_spec(a, b),
        decreases 8 - i,
    {
        let ghost rest = mul_steps(xt(aa as u8), ((bb as u8) >> 1u8) as u8, (8 - i - 1) as nat);
        proof { lemma_step_bv(p, aa, bb, rest); }
        if bb & 1 != 0 {
            p ^= aa;
        }
        bb >>= 1;
        aa <<= 1;
        if aa & 0x100 != 0 {
            aa ^= 0x11B;
        }
        i += 1;
    }
    assert(mul_steps(aa as u8, bb as u8, 0) == 0);
    let ghost pp = p as u8;
    assert((pp ^ 0u8) as u8 == pp) by (bit_vector);
    p as u8
}

/// Field multiplication.
pub fn gf_mul(a: u8, b: u8) -> (r: u8)
    ensures r == gf_mul_spec(a, b),
{
    if a == 0 || b == 0 {
        proof { lemma_mul_zero(a); lemma_mul_zero(b); }
        return 0;
    }
    gf_mul_const(a, b)
}

/// Multiplicative inverse of a non-zero element.
pub fn gf_inv(a: u8) -> (r: u8)
    requires a != 0,
    ensures
        r == inv_spec(a),
        gf_mul_spec(a, r) == 1,
{
    proof { lemma_inv(a); }
    let s1 = gf_mul(a, a);
    let s2 = gf_mul(s1, s1);
    let s3 = gf_mul(s2, s2);
    let s4 = gf_mul(s3, s3);
    let s5 = gf_mul(s4, s4);
    let s6 = gf_mul(s5, s5);
    let s7 = gf_mul(s6, s6);
    gf_mul(gf_mul(gf_mul(gf_mul(gf_mul(gf_mul(s1, s2), s3), s4), s5), s6), s7)
}

/// Field division `a / b` for a non-zero divisor.
pub fn gf_div(a: u8, b: u8) -> (r: u8)
    requires b != 0,
    ensures
        r == gf_mul_spec(a, inv_spec(b)),
        gf_mul_spec(r, b) == a,
{
    proof {
        lemma_inv(b);
        lemma_mul_assoc(a, inv_spec(b), b);
        lemma_mul_one(a);
        lemma_mul_zero(inv_spec(b));
    }
    if a == 0 {
        return 0;
    }
    gf_mul(a, gf_inv(b))
}

/// `a` raised to the power `exp`, by repeated squaring.
pub fn gf_pow(a: u8, exp: u32) -> (r: u8)
    ensures r == pow_spec(a, exp as nat),
{
    let mut result: u8 = 1;
    let mut base: u8 = a;
    let mut e: u32 = exp;
    proof { lemma_mul_one(pow_spec(a, exp as nat)); }
    while e > 0
        invariant
            gf_mul_spec(result, pow_spec(base, e as nat)) == pow_spec(a, exp as nat),
        decreases e,
    {
        let ghost h = (e / 2) as nat;
        assert(e & 1 == 1 <==> e % 2 == 1) by (bit_vector);
        proof {
            lemma_pow_square(base, h);
            if e % 2 == 1 {
                lemma_pow_add(base, 1, 2 * h);
                assert(pow_spec(base, 1) == gf_mul_spec(base, pow_spec(base, 0)));
                lemma_mul_one(base);
                assert(e as nat == 1 + 2 * h);
                lemma_mul_assoc(result, base, pow_spec(base, 2 * h));
            } else {
                assert(e as nat == 2 * h);
            }
        }
        if e & 1 == 1 {
            result = gf_mul(result, base);
        }
        base = gf_mul(base, base);
        e = e / 2;
    }
    proof { lemma_mul_one(result); }
    result
}


/// The field has no zero divisors.
pub proof fn lemma_no_zero_divisors(d: u8, v: u8)
    requires
        d != 0,
        gf_mul_spec(d, v) == 0,
    ensures
        v == 0,
{
    lemma_inv(d);
    lemma_mul_assoc(inv_spec(d), d, v);
    lemma_mul_one(v);
    lemma_mul_zero(inv_spec(d));
}

/// Multiplication by a non-zero element can be cancelled.
pub proof fn lemma_mul_cancel(d: u8, v: u8, w: u8)
    requires
        d != 0,
        gf_mul_spec(d, v) == gf_mul_spec(d, w),
    ensures
        v == w,
{
    lemma_mul_distrib(d, v, w);
    let x = gf_mul_spec(d, v);
    assert((x ^ x) as u8 == 0u8) by (bit_vector);
    lemma_no_zero_divisors(d, (v ^ w) as u8);
    assert((v ^ w) as u8 == 0u8 ==> v == w) by (bit_vector);
}


/// `c` when the lowest bit of `d` is set, one otherwise.
pub open spec fn tsel(d: u8, c: u8) -> u8 {
    if d & 1u8 == 0u8 { 1u8 } else { c }
}

/// `c^d` computed from the low `n` bits of `d` by repeated squaring.
pub open spec fn powbits(c: u8, d: u8, n: nat) -> u8
    decreases n,
{
    if n == 0 {
        1u8
    } else {
        gf_mul_spec(tsel(d, c), powbits(sq(c), (d >> 1u8) as u8, (n - 1) as nat))
    }
}

proof fn lemma_powbits(c: u8, d: u8, n: nat)
    requires n <= 8, (d as int) < vstd::arithmetic::power2::pow2(n) as int,
    ensures powbits(c, d, n) == pow_spec(c, d as nat),
    decreases n,
{
    vstd::arithmetic::power2::lemma2_to64();
    if n == 0 {
        assert(d == 0);
    } else {
        let h = (d >> 1u8) as u8;
        assert(d as int == 2 * (h as int) + (d & 1u8) as int && (d & 1u8 == 0u8 || d & 1u8 == 1u8)) by (bit_vector)
            requires h == (d >> 1u8) as u8;
        vstd::arithmetic::power2::lemma_pow2_unfold(n);
        assert((h as int) < vstd::arithmetic::power2::pow2((n - 1) as nat) as int);
        lemma_powbits(sq(c), h, (n - 1) as nat);
        lemma_pow_square(c, h as nat);
        if d & 1u8 == 0u8 {
            lemma_mul_one(pow_spec(c, d as nat));
        } else {
            lemma_pow_add(c, 1, 2 * (h as nat));
            assert(pow_spec(c, 1) == gf_mul_spec(c, pow_spec(c, 0)));
            lemma_mul_one(c);
        }
    }
}

proof fn lemma_order_bv(d: u8, c0: u8, c0_1: u8, c0_2: u8, c0_3: u8, c0_4: u8, c0_5: u8, c0_6: u8, c0_7: u8, c1: u8, c1_1: u8, c1_2: u8, c1_3: u8, c1_4: u8, c1_5: u8, c1_6: u8, c1_7: u8, c2: u8, c2_1: u8, c2_2: u8, c2_3: u8, c2_4: u8, c2_5: u8, c2_6: u8, c2_7: u8, c3: u8, c3_1: u8, c3_2: u8, c3_3: u8, c3_4: u8, c3_5: u8, c3_6: u8, c3_7: u8, c4: u8, c4_1: u8, c4_2: u8, c4_3: u8, c4_4: u8, c4_5: u8, c4_6: u8, c4_7: u8, c5: u8, c5_1: u8, c5_2: u8, c5_3: u8, c5_4: u8, c5_5: u8, c5_6: u8, c5_7: u8, c6: u8, c6_1: u8, c6_2: u8, c6_3: u8, c6_4: u8, c6_5: u8, c6_6: u8, c6_7: u8, c7: u8, d0: u8, d1: u8, d2: u8, d3: u8, d4: u8, d5: u8, d6: u8, d7: u8, t0: u8, t1: u8, t2: u8, t3: u8, t4: u8, t5: u8, t6: u8, t7: u8, r8: u8, t7_1: u8, t7_2: u8, t7_3: u8, t7_4: u8, t7_5: u8, t7_6: u8, t7_7: u8, r7: u8, t6_1: u8, t6_2: u8, t6_3: u8, t6_4: u8, t6_5: u8, t6_6: u8, t6_7: u8, r6: u8, t5_1: u8, t5_2: u8, t5_3: u8, t5_4: u8, t5_5: u8, t5_6: u8, t5_7: u8, r5: u8, t4_1: u8, t4_2: u8, t4_3: u8, t4_4: u8, t4_5: u8, t4_6: u8, t4_7: u8, r4: u8, t3_1: u8, t3_2: u8, t3_3: u8, t3_4: u8, t3_5: u8, t3_6: u8, t3_7: u8, r3: u8, t2_1: u8, t2_2: u8, t2_3: u8, t2_4: u8, t2_5: u8, t2_6: u8, t2_7: u8, r2: u8, t1_1: u8, t1_2: u8, t1_3: u8, t1_4: u8, t1_5: u8, t1_6: u8, t1_7: u8, r1: u8, t0_1: u8, t0_2: u8, t0_3: u8, t0_4: u8, t0_5: u8, t0_6: u8, t0_7: u8, r0: u8)
    requires
        c0 == 3u8,
        c0_1 == xt(c0),
        c0_2 == xt(c0_1),
        c0_3 == xt(c0_2),
        c0_4 == xt(c0_3),
        c0_5 == xt(c0_4),
        c0_6 == xt(c0_5),
        c0_7 == xt(c0_6),
        c1 == mx(c0, c0, c0_1, c0_2, c0_3, c0_4, c0_5, c0_6, c0_7),
        c1_1 == xt(c1),
        c1_2 == xt(c1_1),
        c1_3 == xt(c1_2),
        c1_4 == xt(c1_3),
        c1_5 == xt(c1_4),
        c1_6 == xt(c1_5),
        c1_7 == xt(c1_6),
        c2 == mx(c1, c1, c1_1, c1_2, c1_3, c1_4, c1_5, c1_6, c1_7),
        c2_1 == xt(c2),
        c2_2 == xt(c2_1),
        c2_3 == xt(c2_2),
        c2_4 == xt(c2_3),
        c2_5 == xt(c2_4),
        c2_6 == xt(c2_5),
        c2_7 == xt(c2_6),
        c3 == mx(c2, c2, c2_1, c2_2, c2_3, c2_4, c2_5, c2_6, c2_7),
        c3_1 == xt(c3),
        c3_2 == xt(c3_1),
        c3_3 == xt(c3_2),
        c3_4 == xt(c3_3),
        c3_5 == xt(c3_4),
        c3_6 == xt(c3_5),
        c3_7 == xt(c3_6),
        c4 == mx(c3, c3, c3_1, c3_2, c3_3, c3_4, c3_5, c3_6, c3_7),
        c4_1 == xt(c4),
        c4_2 == xt(c4_1),
        c4_3 == xt(c4_2),
        c4_4 == xt(c4_3),
        c4_5 == xt(c4_4),
        c4_6 == xt(c4_5),
        c4_7 == xt(c4_6),
        c5 == mx(c4, c4, c4_1, c4_2, c4_3, c4_4, c4_5, c4_6, c4_7),
        c5_1 == xt(c5),
        c5_2 == xt(c5_1),
        c5_3 == xt(c5_2),
        c5_4 == xt(c5_3),
        c5_5 == xt(c5_4),
        c5_6 == xt(c5_5),
        c5_7 == xt(c5_6),
        c6 == mx(c5, c5, c5_1, c5_2, c5_3, c5_4, c5_5, c5_6, c5_7),
        c6_1 == xt(c6),
        c6_2 == xt(c6_1),
        c6_3 == xt(c6_2),
        c6_4 == xt(c6_3),
        c6_5 == xt(c6_4),
        c6_6 == xt(c6_5),
        c6_7 == xt(c6_6),
        c7 == mx(c6, c6, c6_1, c6_2, c6_3, c6_4, c6_5, c6_6, c6_7),
        d0 == d,
        d1 == d0 >> 1u8,
        d2 == d1 >> 1u8,
        d3 == d2 >> 1u8,
        d4 == d3 >> 1u8,
        d5 == d4 >> 1u8,
        d6 == d5 >> 1u8,
        d7 == d6 >> 1u8,
        t0 == (if d0 & 1u8 == 0u8 { 1u8 } else { c0 }),
        t1 == (if d1 & 1u8 == 0u8 { 1u8 } else { c1 }),
        t2 == (if d2 & 1u8 == 0u8 { 1u8 } else { c2 }),
        t3 == (if d3 & 1u8 == 0u8 { 1u8 } else { c3 }),
        t4 == (if d4 & 1u8 == 0u8 { 1u8 } else { c4 }),
        t5 == (if d5 & 1u8 == 0u8 { 1u8 } else { c5 }),
        t6 == (if d6 & 1u8 == 0u8 { 1u8 } else { c6 }),
        t7 == (if d7 & 1u8 == 0u8 { 1u8 } else { c7 }),
        r8 == 1u8,
        t7_1 == xt(t7),
        t7_2 == xt(t7_1),
        t7_3 == xt(t7_2),
        t7_4 == xt(t7_3),
        t7_5 == xt(t7_4),
        t7_6 == xt(t7_5),
        t7_7 == xt(t7_6),
        r7 == mx(r8, t7, t7_1, t7_2, t7_3, t7_4, t7_5, t7_6, t7_7),
        t6_1 == xt(t6),
        t6_2 == xt(t6_1),
        t6_3 == xt(t6_2),
        t6_4 == xt(t6_3),
        t6_5 == xt(t6_4),
        t6_6 == xt(t6_5),
        t6_7 == xt(t6_6),
        r6 == mx(r7, t6, t6_1, t6_2, t6_3, t6_4, t6_5, t6_6, t6_7),
        t5_1 == xt(t5),
        t5_2 == xt(t5_1),
        t5_3 == xt(t5_2),
        t5_4 == xt(t5_3),
        t5_5 == xt(t5_4),
        t5_6 == xt(t5_5),
        t5_7 == xt(t5_6),
        r5 == mx(r6, t5, t5_1, t5_2, t5_3, t5_4, t5_5, t5_6, t5_7),
        t4_1 == xt(t4),
        t4_2 == xt(t4_1),
        t4_3 == xt(t4_2),
        t4_4 == xt(t4_3),
        t4_5 == xt(t4_4),
        t4_6 == xt(t4_5),
        t4_7 == xt(t4_6),
        r4 == mx(r5, t4, t4_1, t4_2, t4_3, t4_4, t4_5, t4_6, t4_7),
        t3_1 == xt(t3),
        t3_2 == xt(t3_1),
        t3_3 == xt(t3_2),
        t3_4 == xt(t3_3),
        t3_5 == xt(t3_4),
        t3_6 == xt(t3_5),
        t3_7 == xt(t3_6),
        r3 == mx(r4, t3, t3_1, t3_2, t3_3, t3_4, t3_5, t3_6, t3_7),
        t2_1 == xt(t2),
        t2_2 == xt(t2_1),
        t2_3 == xt(t2_2),
        t2_4 == xt(t2_3),
        t2_5 == xt(t2_4),
        t2_6 == xt(t2_5),
        t2_7 == xt(t2_6),
        r2 == mx(r3, t2, t2_1, t2_2, t2_3, t2_4, t2_5, t2_6, t2_7),
        t1_1 == xt(t1),
        t1_2 == xt(t1_1),
        t1_3 == xt(t1_2),
        t1_4 == xt(t1_3),
        t1_5 == xt(t1_4),
        t1_6 == xt(t1_5),
        t1_7 == xt(t1_6),
        r1 == mx(r2, t1, t1_1, t1_2, t1_3, t1_4, t1_5, t1_6, t1_7),
        t0_1 == xt(t0),
        t0_2 == xt(t0_1),
        t0_3 == xt(t0_2),
        t0_4 == xt(t0_3),
        t0_5 == xt(t0_4),
        t0_6 == xt(t0_5),
        t0_7 == xt(t0_6),
        r0 == mx(r1, t0, t0_1, t0_2, t0_3, t0_4, t0_5, t0_6, t0_7),
    ensures
        1 <= d <= 254 ==> r0 != 1u8,
{
    assert(1 <= d <= 254 ==> r0 != 1u8) by (bit_vector)
        requires
            c0 == 3u8,
            c0_1 == xt(c0),
            c0_2 == xt(c0_1),
            c0_3 == xt(c0_2),
            c0_4 == xt(c0_3),
            c0_5 == xt(c0_4),
            c0_6 == xt(c0_5),
            c0_7 == xt(c0_6),
            c1 == mx(c0, c0, c0_1, c0_2, c0_3, c0_4, c0_5, c0_6, c0_7),
            c1_1 == xt(c1),
            c1_2 == xt(c1_1),
            c1_3 == xt(c1_2),
            c1_4 == xt(c1_3),
            c1_5 == xt(c1_4),
            c1_6 == xt(c1_5),
            c1_7 == xt(c1_6),
            c2 == mx(c1, c1, c1_1, c1_2, c1_3, c1_4, c1_5, c1_6, c1_7),
            c2_1 == xt(c2),
            c2_2 == xt(c2_1),
            c2_3 == xt(c2_2),
            c2_4 == xt(c2_3),
            c2_5 == xt(c2_4),
            c2_6 == xt(c2_5),
            c2_7 == xt(c2_6),
            c3 == mx(c2, c2, c2_1, c2_2, c2_3, c2_4, c2_5, c2_6, c2_7),
            c3_1 == xt(c3),
            c3_2 == xt(c3_1),
            c3_3 == xt(c3_2),
            c3_4 == xt(c3_3),
            c3_5 == xt(c3_4),
            c3_6 == xt(c3_5),
            c3_7 == xt(c3_6),
            c4 == mx(c3, c3, c3_1, c3_2, c3_3, c3_4, c3_5, c3_6, c3_7),
            c4_1 == xt(c4),
            c4_2 == xt(c4_1),
            c4_3 == xt(c4_2),
            c4_4 == xt(c4_3),
            c4_5 == xt(c4_4),
            c4_6 == xt(c4_5),
            c4_7 == xt(c4_6),
            c5 == mx(c4, c4, c4_1, c4_2, c4_3, c4_4, c4_5, c4_6, c4_7),
            c5_1 == xt(c5),
            c5_2 == xt(c5_1),
            c5_3 == xt(c5_2),
            c5_4 == xt(c5_3),
            c5_5 == xt(c5_4),
            c5_6 == xt(c5_5),
            c5_7 == xt(c5_6),
            c6 == mx(c5, c5, c5_1, c5_2, c5_3, c5_4, c5_5, c5_6, c5_7),
            c6_1 == xt(c6),
            c6_2 == xt(c6_1),
            c6_3 == xt(c6_2),
            c6_4 == xt(c6_3),
            c6_5 == xt(c6_4),
            c6_6 == xt(c6_5),
            c6_7 == xt(c6_6),
            c7 == mx(c6, c6, c6_1, c6_2, c6_3, c6_4, c6_5, c6_6, c6_7),
            d0 == d,
            d1 == d0 >> 1u8,
            d2 == d1 >> 1u8,
            d3 == d2 >> 1u8,
            d4 == d3 >> 1u8,
            d5 == d4 >> 1u8,
            d6 == d5 >> 1u8,
            d7 == d6 >> 1u8,
            t0 == (if d0 & 1u8 == 0u8 { 1u8 } else { c0 }),
            t1 == (if d1 & 1u8 == 0u8 { 1u8 } else { c1 }),
            t2 == (if d2 & 1u8 == 0u8 { 1u8 } else { c2 }),
            t3 == (if d3 & 1u8 == 0u8 { 1u8 } else { c3 }),
            t4 == (if d4 & 1u8 == 0u8 { 1u8 } else { c4 }),
            t5 == (if d5 & 1u8 == 0u8 { 1u8 } else { c5 }),
            t6 == (if d6 & 1u8 == 0u8 { 1u8 } else { c6 }),
            t7 == (if d7 & 1u8 == 0u8 { 1u8 } else { c7 }),
            r8 == 1u8,
            t7_1 == xt(t7),
            t7_2 == xt(t7_1),
            t7_3 == xt(t7_2),
            t7_4 == xt(t7_3),
            t7_5 == xt(t7_4),
            t7_6 == xt(t7_5),
            t7_7 == xt(t7_6),
            r7 == mx(r8, t7, t7_1, t7_2, t7_3, t7_4, t7_5, t7_6, t7_7),
            t6_1 == xt(t6),
            t6_2 == xt(t6_1),
            t6_3 == xt(t6_2),
            t6_4 == xt(t6_3),
            t6_5 == xt(t6_4),
            t6_6 == xt(t6_5),
            t6_7 == xt(t6_6),
            r6 == mx(r7, t6, t6_1, t6_2, t6_3, t6_4, t6_5, t6_6, t6_7),
            t5_1 == xt(t5),
            t5_2 == xt(t5_1),
            t5_3 == xt(t5_2),
            t5_4 == xt(t5_3),
            t5_5 == xt(t5_4),
            t5_6 == xt(t5_5),
            t5_7 == xt(t5_6),
            r5 == mx(r6, t5, t5_1, t5_2, t5_3, t5_4, t5_5, t5_6, t5_7),
            t4_1 == xt(t4),
            t4_2 == xt(t4_1),
            t4_3 == xt(t4_2),
            t4_4 == xt(t4_3),
            t4_5 == xt(t4_4),
            t4_6 == xt(t4_5),
            t4_7 == xt(t4_6),
            r4 == mx(r5, t4, t4_1, t4_2, t4_3, t4_4, t4_5, t4_6, t4_7),
            t3_1 == xt(t3),
            t3_2 == xt(t3_1),
            t3_3 == xt(t3_2),
            t3_4 == xt(t3_3),
            t3_5 == xt(t3_4),
            t3_6 == xt(t3_5),
            t3_7 == xt(t3_6),
            r3 == mx(r4, t3, t3_1, t3_2, t3_3, t3_4, t3_5, t3_6, t3_7),
            t2_1 == xt(t2),
            t2_2 == xt(t2_1),
            t2_3 == xt(t2_2),
            t2_4 == xt(t2_3),
            t2_5 == xt(t2_4),
            t2_6 == xt(t2_5),
            t2_7 == xt(t2_6),
            r2 == mx(r3, t2, t2_1, t2_2, t2_3, t2_4, t2_5, t2_6, t2_7),
            t1_1 == xt(t1),
            t1_2 == xt(t1_1),
            t1_3 == xt(t1_2),
            t1_4 == xt(t1_3),
            t1_5 == xt(t1_4),
            t1_6 == xt(t1_5),
            t1_7 == xt(t1_6),
            r1 == mx(r2, t1, t1_1, t1_2, t1_3, t1_4, t1_5, t1_6, t1_7),
            t0_1 == xt(t0),
            t0_2 == xt(t0_1),
            t0_3 == xt(t0_2),
            t0_4 == xt(t0_3),
            t0_5 == xt(t0_4),
            t0_6 == xt(t0_5),
            t0_7 == xt(t0_6),
            r0 == mx(r1, t0, t0_1, t0_2, t0_3, t0_4, t0_5, t0_6, t0_7);
}

/// The element 3 generates the multiplicative group: 3^d is not one for
/// 1 <= d <= 254.
#[verifier::spinoff_prover]
#[verifier::rlimit(60)]
pub proof fn lemma_pow3_order(d: nat)
    requires 1 <= d <= 254,
    ensures pow_spec(3, d) != 1,
{
    let d8 = d as u8;
    assert(d8 as nat == d);
    vstd::arithmetic::power2::lemma2_to64();
    lemma_powbits(3, d8, 8);
    let c0 = 3u8;
    let c1 = sq(c0);
    let c2 = sq(c1);
    let c3 = sq(c2);
    let c4 = sq(c3);
    let c5 = sq(c4);
    let c6 = sq(c5);
    let c7 = sq(c6);
    let d0 = d8;
    let d1 = (d0 >> 1u8) as u8;
    let d2 = (d1 >> 1u8) as u8;
    let d3 = (d2 >> 1u8) as u8;
    let d4 = (d3 >> 1u8) as u8;
    let d5 = (d4 >> 1u8) as u8;
    let d6 = (d5 >> 1u8) as u8;
    let d7 = (d6 >> 1u8) as u8;
    let t0 = tsel(d0, c0);
    let t1 = tsel(d1, c1);
    let t2 = tsel(d2, c2);
    let t3 = tsel(d3, c3);
    let t4 = tsel(d4, c4);
    let t5 = tsel(d5, c5);
    let t6 = tsel(d6, c6);
    let t7 = tsel(d7, c7);
    let r8 = 1u8;
    let r7 = gf_mul_spec(t7, r8);
    let r6 = gf_mul_spec(t6, r7);
    let r5 = gf_mul_spec(t5, r6);
    let r4 = gf_mul_spec(t4, r5);
    let r3 = gf_mul_spec(t3, r4);
    let r2 = gf_mul_spec(t2, r3);
    let r1 = gf_mul_spec(t1, r2);
    let r0 = gf_mul_spec(t0, r1);
    assert(powbits(c7, d7, 1) == r7) by { assert(powbits(sq(c7), (d7 >> 1u8) as u8, 0) == 1); }
    assert(powbits(c6, d6, 2) == r6);
    assert(powbits(c5, d5, 3) == r5);
    assert(powbits(c4, d4, 4) == r4);
    assert(powbits(c3, d3, 5) == r3);
    assert(powbits(c2, d2, 6) == r2);
    assert(powbits(c1, d1, 7) == r1);
    assert(powbits(c0, d0, 8) == r0);
    let e0 = lemma_xts(c0);
    let e1 = lemma_xts(c1);
    let e2 = lemma_xts(c2);
    let e3 = lemma_xts(c3);
    let e4 = lemma_xts(c4);
    let e5 = lemma_xts(c5);
    let e6 = lemma_xts(c6);
    let f7 = lemma_xts(t7);
    let f6 = lemma_xts(t6);
    let f5 = lemma_xts(t5);
    let f4 = lemma_xts(t4);
    let f3 = lemma_xts(t3);
    let f2 = lemma_xts(t2);
    let f1 = lemma_xts(t1);
    let f0 = lemma_xts(t0);
    lemma_order_bv(d8, c0, e0.0, e0.1, e0.2, e0.3, e0.4, e0.5, e0.6, c1,
        e1.0, e1.1, e1.2, e1.3, e1.4, e1.5, e1.6, c2,
        e2.0, e2.1, e2.2, e2.3, e2.4, e2.5, e2.6, c3,
        e3.0, e3.1, e3.2, e3.3, e3.4, e3.5, e3.6, c4,
        e4.0, e4.1, e4.2, e4.3, e4.4, e4.5, e4.6, c5,
        e5.0, e5.1, e5.2, e5.3, e5.4, e5.5, e5.6, c6,
        e6.0, e6.1, e6.2, e6.3, e6.4, e6.5, e6.6, c7,
        d0, d1, d2, d3, d4, d5, d6, d7, t0, t1, t2, t3, t4, t5, t6, t7, r8,
        f7.0, f7.1, f7.2, f7.3, f7.4, f7.5, f7.6, r7,
        f6.0, f6.1, f6.2, f6.3, f6.4, f6.5, f6.6, r6,
        f5.0, f5.1, f5.2, f5.3, f5.4, f5.5, f5.6, r5,
        f4.0, f4.1, f4.2, f4.3, f4.4, f4.5, f4.6, r4,
        f3.0, f3.1, f3.2, f3.3, f3.4, f3.5, f3.6, r3,
        f2.0, f2.1, f2.2, f2.3, f2.4, f2.5, f2.6, r2,
        f1.0, f1.1, f1.2, f1.3, f1.4, f1.5, f1.6, r1,
        f0.0, f0.1, f0.2, f0.3, f0.4, f0.5, f0.6, r0);
}

/// Powers of a non-zero element are non-zero.
pub proof fn lemma_pow_nonzero(a: u8, n: nat)
    requires a != 0,
    ensures pow_spec(a, n) != 0,
    decreases n,
{
    if n > 0 {
        lemma_pow_nonzero(a, (n - 1) as nat);
        if pow_spec(a, n) == 0 {
            lemma_mul_comm(a, pow_spec(a, (n - 1) as nat));
            lemma_no_zero_divisors(a, pow_spec(a, (n - 1) as nat));
        }
    }
}

/// The powers 3^0, ..., 3^254 are pairwise distinct.
pub proof fn lemma_pow3_distinct(i: nat, j: nat)
    requires i < j < 255,
    ensures pow_spec(3, i) != pow_spec(3, j),
{
    lemma_pow_add(3, i, (j - i) as nat);
    lemma_pow_nonzero(3, i);
    lemma_mul_one(pow_spec(3, i));
    if pow_spec(3, i) == pow_spec(3, j) {
        lemma_mul_cancel(pow_spec(3, i), pow_spec(3, (j - i) as nat), 1);
        lemma_pow3_order((j - i) as nat);
    }
}


/// Every non-zero element is a power of 3.
pub proof fn lemma_generator(a: u8)
    requires a != 0,
    ensures exists|e: nat| e < 255 && pow_spec(3, e) == a,
{
    let x = vstd::set_lib::set_int_range(0, 255);
    let f = |e: int| pow_spec(3, e as nat) as int;
    vstd::set_lib::lemma_int_range(0, 255);
    vstd::set_lib::lemma_int_range(1, 256);
    assert forall|i: int, j: int| x.contains(i) && x.contains(j) && #[trigger] f(i) == #[trigger] f(j) implies i == j by {
        if i < j {
            lemma_pow3_distinct(i as nat, j as nat);
        } else if j < i {
            lemma_pow3_distinct(j as nat, i as nat);
        }
    }
    assert(vstd::relations::injective_on(f, x));
    let y = x.map(f);
    vstd::set_lib::lemma_map_size(x, y, f);
    let z = vstd::set_lib::set_int_range(1, 256);
    assert forall|v: int| y.contains(v) implies z.contains(v) by {
        let e = choose|e: int| x.contains(e) && f(e) == v;
        lemma_pow_nonzero(3, e as nat);
    }
    vstd::set_lib::lemma_subset_equality(y, z);
    assert(z.contains(a as int));
    assert(y.contains(a as int));
    let e = choose|e: int| x.contains(e) && f(e) == a as int;
    assert(pow_spec(3, e as nat) == a);
}

/// Entry `i` of the exponential table: 3^(i mod 255).
pub fn gf_exp(i: usize) -> (r: u8)
    requires i < 512,
    ensures r == pow_spec(3, (i % 255) as nat),
{
    gf_pow(3, (i % 255) as u32)
}

/// The discrete logarithm of `a` to the base 3: the exponent `e < 255` with
/// 3^e == a, or 255 when there is none (for `a == 0`).
pub fn gf_log(a: u8) -> (r: u8)
    ensures
        r < 255 ==> pow_spec(3, r as nat) == a && forall|e: nat| e < r ==> pow_spec(3, e) != a,
        r == 255 <==> forall|e: nat| e < 255 ==> pow_spec(3, e) != a,
        a == 0 ==> r == 255,
        a != 0 ==> r < 255,
{
    proof {
        assert forall|e: nat| e < 255 implies pow_spec(3, e) != 0 by { lemma_pow_nonzero(3, e); }
        if a != 0 {
            lemma_generator(a);
        }
    }
    let mut e: usize = 0;
    while e < 255
        invariant
            e <= 255,
            forall|f: nat| f < e ==> pow_spec(3, f) != a,
            forall|f: nat| f < 255 ==> pow_spec(3, f) != 0,
            a != 0 ==> exists|f: nat| f < 255 && pow_spec(3, f) == a,
        decreases 255 - e,
    {
        if gf_exp(e) == a {
            assert((e % 255) as nat == e as nat);
            return e as u8;
        }
        e += 1;
    }
    255
}

} // verus!
