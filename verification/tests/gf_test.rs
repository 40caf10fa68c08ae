use holographic_memory::gf256::{gf_div, gf_exp, gf_inv, gf_log, gf_mul, gf_pow};
use holographic_memory::poly::{gf_poly_add, gf_poly_div, gf_poly_eval, gf_poly_mul, gf_poly_scale};

#[test]
fn test_gf_arithmetic() {
    assert_eq!(gf_mul(0, 5), 0);
    assert_eq!(gf_mul(1, 5), 5);
    assert_eq!(gf_mul(2, 2), 4);
    assert_eq!(gf_div(6, 2), 3);
    assert_eq!(gf_mul(3, gf_inv(3)), 1);
}

#[test]
fn test_gf_exp_log_roundtrip() {
    for i in 1u8..=254u8 {
        assert_eq!(gf_exp(gf_log(i) as usize), i);
    }
}

#[test]
fn gf_mul_reduces_by_the_field_polynomial() {
    // 0x80 * 2 overflows the byte and is reduced by 0x11b
    assert_eq!(gf_mul(0x80, 2), 0x1b);
    assert_eq!(gf_mul(0x57, 0x83), 0xc1);
}

#[test]
fn gf_pow_and_exp_agree() {
    assert_eq!(gf_pow(3, 0), 1);
    assert_eq!(gf_pow(3, 1), 3);
    assert_eq!(gf_pow(3, 255), 1);
    for i in 0..300usize {
        assert_eq!(gf_exp(i), gf_pow(3, (i % 255) as u32));
    }
}

#[test]
fn gf_div_undoes_mul() {
    for a in 0..=255u8 {
        for b in 1..=255u8 {
            assert_eq!(gf_div(gf_mul(a, b), b), a);
        }
    }
}

#[test]
fn gf_poly_helpers() {
    // constant term first: 1 + 2x at x = 3
    assert_eq!(gf_poly_eval(&[1, 2], 3), 1 ^ gf_mul(2, 3));
    assert_eq!(gf_poly_scale(&[1, 2, 3], 2), vec![2, 4, 6]);
    assert_eq!(gf_poly_add(&[1, 2, 3], &[5]), vec![1, 2, 3 ^ 5]);
    assert_eq!(gf_poly_mul(&[1, 1], &[1, 1]), vec![1, 0, 1]);
    assert_eq!(gf_poly_mul(&[], &[1, 1]), Vec::<u8>::new());
}

#[test]
fn gf_poly_div_gives_the_remainder() {
    // (x^2 + 1) / (x + 1): quotient places come back cleared, remainder 0
    let (q, r) = gf_poly_div(&[1, 0, 1], &[1, 1]);
    assert_eq!(q, vec![0, 0]);
    assert_eq!(r, vec![0]);
    // (x^2 + x + 1) / (x + 1): remainder 1
    let (q, r) = gf_poly_div(&[1, 1, 1], &[1, 1]);
    assert_eq!(q, vec![0, 0]);
    assert_eq!(r, vec![1]);
    // a shorter dividend is all remainder
    let (q, r) = gf_poly_div(&[7], &[1, 1]);
    assert!(q.is_empty());
    assert_eq!(r, vec![7]);
}
