use debank_trace::hashing::{calc_validation_hash, debank_id, debank_id_pair, debank_id_triple};

#[test]
fn test_debank_id() {
    let id = debank_id(&["hello", "world"]);
    // MD5 of "helloworld"
    assert_eq!(id.len(), 32);
    assert!(id.chars().all(|c| c.is_ascii_hexdigit()));
}

#[test]
fn test_calc_validation_hash() {
    let ids = vec!["abc".to_string(), "def".to_string()];
    let hash = calc_validation_hash(&ids);
    assert!(hash >= 0);
    assert!(hash < 1_000_000); // at most 6 digits
}

#[test]
fn test_empty_validation_hash() {
    let ids: Vec<String> = vec![];
    let hash = calc_validation_hash(&ids);
    assert_eq!(hash, 0);
}

#[test]
fn debank_id_is_md5_hex_of_joined_text() {
    assert_eq!(debank_id(&["hello", "world"]), "fc5e038d38a57032085441e7fe7010b0");
}

#[test]
fn debank_id_depends_only_on_joined_text() {
    assert_eq!(debank_id(&["hello", "world"]), debank_id(&["helloworld"]));
    assert_eq!(debank_id(&["hel", "", "loworld"]), debank_id(&["helloworld"]));
}

#[test]
fn debank_id_of_nothing_is_md5_of_empty() {
    assert_eq!(debank_id(&[]), "d41d8cd98f00b204e9800998ecf8427e");
}

#[test]
fn debank_id_pair_and_triple_hash_decimal_positions() {
    assert_eq!(debank_id_pair("0xaa", 0), debank_id(&["0xaa", "0"]));
    assert_eq!(debank_id_triple("a", "b", -12), debank_id(&["a", "b", "-12"]));
    assert_eq!(debank_id_pair("0xaa", 0), "1291953049036b88800b8cefd19bfd39");
}

#[test]
fn validation_hash_is_last_six_digits_of_sha1_sum() {
    let ids = vec!["abc".to_string(), "def".to_string()];
    assert_eq!(calc_validation_hash(&ids), 693166);
}

#[test]
fn validation_hash_of_one_id() {
    let ids = vec!["abc".to_string()];
    assert_eq!(calc_validation_hash(&ids), 479517);
}

#[test]
fn validation_hash_does_not_depend_on_order() {
    let a = vec!["abc".to_string(), "def".to_string(), "ghi".to_string()];
    let b = vec!["ghi".to_string(), "abc".to_string(), "def".to_string()];
    assert_eq!(calc_validation_hash(&a), calc_validation_hash(&b));
}
