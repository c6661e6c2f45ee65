use frost_dkg::curve::{
    hash_to_f, mul_gen, multiexp_vartime, point_from_slice, powers, scalar_from_slice,
    scalar_to_bytes, Point, GENERATOR_V,
};
use frost_dkg::error::FrostError;
use frost_dkg::field::{f_add, f_mul, f_neg, MODULUS};
use frost_dkg::params::Params;
use frost_dkg::rounds::{challenge, index_bytes, polynomial};
use frost_dkg::validate::validate_map;

#[test]
fn field_add_wraps() {
    assert_eq!(f_add(MODULUS - 1, 5), 4);
    assert_eq!(f_add(0, 0), 0);
    assert_eq!(f_add(1, MODULUS - 1), 0);
}

#[test]
fn field_mul_exact() {
    assert_eq!(f_mul(2, 3), 6);
    assert_eq!(f_mul(MODULUS - 1, 2), MODULUS - 2);
    assert_eq!(f_mul(MODULUS - 1, MODULUS - 1), 1);
}

#[test]
fn field_neg() {
    assert_eq!(f_neg(0), 0);
    assert_eq!(f_neg(5), MODULUS - 5);
    assert_eq!(f_add(f_neg(17), 17), 0);
}

#[test]
fn scalar_encoding_round_trips() {
    let v: u64 = 0x0123_4567_89ab_cdef;
    let b = scalar_to_bytes(v);
    assert_eq!(b.len(), 8);
    assert_eq!(scalar_from_slice(&b), Some(v));
}

#[test]
fn scalar_encoding_rejects_non_canonical() {
    let b = MODULUS.to_le_bytes().to_vec();
    assert_eq!(scalar_from_slice(&b), None);
    assert_eq!(scalar_from_slice(&[0xffu8; 8]), None);
    assert_eq!(scalar_from_slice(&[0u8; 7]), None);
    assert_eq!(scalar_from_slice(&[0u8; 9]), None);
    assert!(point_from_slice(&[0u8; 8]).is_some());
}

#[test]
fn hash_is_deterministic_and_sensitive() {
    let a = hash_to_f(b"abc");
    let b = hash_to_f(b"abc");
    let c = hash_to_f(b"abd");
    assert_eq!(a, b);
    assert_ne!(a, c);
    assert!(a < MODULUS);
}

#[test]
fn challenge_matches_manual_concatenation() {
    let l: u16 = 0x0102;
    let ctx = b"context";
    let rb = [9u8; 8];
    let am = [7u8; 16];
    let c = challenge(l, ctx, &rb, &am);
    let mut manual = index_bytes(l);
    assert_eq!(manual, vec![0x01u8, 0x02u8]);
    manual.extend_from_slice(ctx);
    manual.extend_from_slice(&rb);
    manual.extend_from_slice(&am);
    assert_eq!(c, hash_to_f(&manual));
}

#[test]
fn polynomial_evaluates_by_horner() {
    // 2 + 3x + 4x^2 at x = 5
    let coeffs = vec![2u64, 3, 4];
    assert_eq!(polynomial(&coeffs, 5), 117);
    assert_eq!(polynomial(&coeffs, 0), 2);
    assert_eq!(polynomial(&vec![], 3), 0);
}

#[test]
fn multiexp_sums_products() {
    let scalars = vec![2u64, 3];
    let points = vec![Point { v: 5 }, Point { v: 7 }];
    assert_eq!(multiexp_vartime(&scalars, &points).v, 31);
    assert_eq!(mul_gen(3).v, 3 * GENERATOR_V);
}

#[test]
fn powers_start_at_one() {
    let p = powers(3, 4);
    assert_eq!(p, vec![1, 3, 9, 27]);
}

#[test]
fn params_validate_bounds() {
    assert!(Params::new(3, 2, 1).is_some());
    assert!(Params::new(3, 4, 1).is_none());
    assert!(Params::new(3, 0, 1).is_none());
    assert!(Params::new(3, 2, 0).is_none());
    assert!(Params::new(3, 2, 4).is_none());
    let p = Params::new(5, 3, 2).unwrap();
    assert_eq!(p.n(), 5);
    assert_eq!(p.t(), 3);
    assert_eq!(p.i(), 2);
}

#[test]
fn validate_map_accepts_exact_coverage() {
    let entries = vec![(3u16, vec![3u8]), (1u16, vec![1u8])];
    let res = validate_map(entries, 3, 2, vec![2u8]).unwrap();
    assert_eq!(res, vec![vec![1u8], vec![2u8], vec![3u8]]);
}

#[test]
fn validate_map_reports_missing() {
    let entries = vec![(3u16, vec![3u8])];
    let err = validate_map(entries, 3, 2, vec![2u8]).unwrap_err();
    assert_eq!(err, FrostError::MissingParticipant(1));
}

#[test]
fn validate_map_reports_duplicates() {
    let entries = vec![(1u16, vec![1u8]), (1u16, vec![9u8]), (3u16, vec![3u8])];
    let err = validate_map(entries, 3, 2, vec![2u8]).unwrap_err();
    assert_eq!(err, FrostError::DuplicatedIndex(1));
}

#[test]
fn validate_map_rejects_own_index() {
    let entries = vec![(1u16, vec![1u8]), (2u16, vec![9u8]), (3u16, vec![3u8])];
    let err = validate_map(entries, 3, 2, vec![2u8]).unwrap_err();
    assert_eq!(err, FrostError::DuplicatedIndex(2));
}

#[test]
fn validate_map_rejects_out_of_range_index() {
    let entries = vec![(1u16, vec![1u8]), (4u16, vec![9u8]), (3u16, vec![3u8])];
    let err = validate_map(entries, 3, 2, vec![2u8]).unwrap_err();
    assert_eq!(err, FrostError::DuplicatedIndex(4));
}
