//! The field layer: canonical encoding round-trips and modular
//! arithmetic.

use nizk_bridge::bytes::{le_add, le_eq, le_lt, le_sub};
use nizk_bridge::field::{add_mod32, mul_mod32, nizk_modulus, u64_to_bytes32, FieldElem};

fn b32(x: u64) -> Vec<u8> {
    u64_to_bytes32(x)
}

#[test]
fn u64_encoding_is_little_endian() {
    let b = b32(0x0102_0304_0506_0708);
    assert_eq!(b.len(), 32);
    assert_eq!(b[0], 0x08);
    assert_eq!(b[7], 0x01);
    assert_eq!(b[8], 0x00);
}

#[test]
fn byte_arithmetic_matches_numbers() {
    let (s, carry) = le_add(&b32(250), &b32(10));
    assert!(!carry);
    assert!(le_eq(&s, &b32(260)));
    let (d, borrow) = le_sub(&b32(260), &b32(10));
    assert!(!borrow);
    assert!(le_eq(&d, &b32(250)));
    assert!(le_lt(&b32(3), &b32(5)));
    assert!(!le_lt(&b32(5), &b32(5)));
}

#[test]
fn modular_arithmetic_in_small_field() {
    let m = b32(7);
    assert!(le_eq(&add_mod32(&b32(5), &b32(4), &m), &b32(2)));
    assert!(le_eq(&mul_mod32(&b32(5), &b32(4), &m), &b32(6)));
    assert!(le_eq(&mul_mod32(&b32(0), &b32(4), &m), &b32(0)));
}

#[test]
fn from_u64_reduces() {
    let m = b32(7);
    let x = FieldElem::from_u64(&m, 23);
    assert!(le_eq(&x.value, &b32(2)));
}

#[test]
fn field_roundtrip_through_scalar_encoding() {
    let q = nizk_modulus();
    for x in [0u64, 1, 2, 6, 7, 1u64 << 40, u64::MAX] {
        let fe = FieldElem::from_u64(&q, x);
        let bytes = fe.encode().unwrap();
        let back = FieldElem::decode(&bytes).unwrap();
        assert!(le_eq(&back.value, &fe.value));
        assert!(le_eq(&back.modulus, &fe.modulus));
    }
}

#[test]
fn encode_refuses_foreign_field() {
    let m = b32(7);
    let fe = FieldElem::from_u64(&m, 3);
    assert!(fe.encode().is_err());
}

#[test]
fn decode_refuses_non_canonical_bytes() {
    let mut top = b32(0);
    for i in 0..32 {
        top[i] = 0xff;
    }
    assert!(FieldElem::decode(&top).is_err());
}

#[test]
fn neg_and_add_cancel() {
    let m = b32(7);
    let x = FieldElem::from_u64(&m, 5);
    let y = x.pf_neg();
    let z = x.pf_add(&y);
    assert!(le_eq(&z.value, &b32(0)));
}

#[test]
fn mul_mod_wide_values() {
    // (2^200 mod q) squared, computed two ways.
    let q = nizk_modulus();
    let mut two_200 = b32(0);
    two_200[25] = 1;
    let one = b32(1);
    let a = mul_mod32(&one, &two_200, &q);
    let sq = mul_mod32(&a, &a, &q);
    let sq2 = mul_mod32(&a, &two_200, &q);
    assert!(le_eq(&sq, &sq2));
}
