use debank_trace::hexfmt::{format_address, format_address_bytes, format_hash, i64_to_decimal};
use debank_trace::quantity::{format_quantity, u256_to_hex};

#[test]
fn format_hash_is_prefixed_lower_hex() {
    let mut h = [0u8; 32];
    h[0] = 0xAB;
    h[31] = 0x01;
    let s = format_hash(&h);
    assert_eq!(s.len(), 66);
    assert!(s.starts_with("0xab00"));
    assert!(s.ends_with("0001"));
}

#[test]
fn format_address_is_prefixed_lower_hex() {
    let a = [0xDEu8; 20];
    assert_eq!(format_address(&a), format!("0x{}", "de".repeat(20)));
}

#[test]
fn format_address_bytes_of_any_length() {
    assert_eq!(format_address_bytes(&[]), "0x");
    assert_eq!(format_address_bytes(&[0x0f, 0xf0]), "0x0ff0");
}

#[test]
fn decimal_of_signed_numbers() {
    assert_eq!(i64_to_decimal(0), "0");
    assert_eq!(i64_to_decimal(42), "42");
    assert_eq!(i64_to_decimal(-7), "-7");
    assert_eq!(i64_to_decimal(i64::MIN), "-9223372036854775808");
    assert_eq!(i64_to_decimal(i64::MAX), "9223372036854775807");
}

#[test]
fn quantities_have_no_leading_zeros() {
    assert_eq!(format_quantity(0), "0x0");
    assert_eq!(format_quantity(255), "0xff");
    assert_eq!(format_quantity(0x1000), "0x1000");
    assert_eq!(format_quantity(u64::MAX), "0xffffffffffffffff");
}

#[test]
fn u256_hex_matches_lower_hex_formatting() {
    let zero = [0u8; 32];
    assert_eq!(u256_to_hex(&zero), "0x0");
    let mut v = [0u8; 32];
    v[31] = 0x0a;
    assert_eq!(u256_to_hex(&v), "0xa");
    v[30] = 0x01;
    assert_eq!(u256_to_hex(&v), "0x10a");
    let all = [0xffu8; 32];
    assert_eq!(u256_to_hex(&all), format!("0x{}", "f".repeat(64)));
    let mut big = [0u8; 32];
    big[0] = 0x01;
    assert_eq!(u256_to_hex(&big), format!("0x1{}", "0".repeat(62)));
}
