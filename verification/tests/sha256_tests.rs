use axe_chain::u256::U256;

fn test_data_bytes() -> Vec<u8> {
    // The CBOR that serde and ciborium write for `TestData { a: 420, b: "Ryzen" }`.
    let value = ciborium::value::Value::Map(vec![
        (
            ciborium::value::Value::Text("a".to_string()),
            ciborium::value::Value::Integer(420u32.into()),
        ),
        (
            ciborium::value::Value::Text("b".to_string()),
            ciborium::value::Value::Text("Ryzen".to_string()),
        ),
    ]);
    let mut bytes = vec![];
    ciborium::into_writer(&value, &mut bytes).unwrap();
    bytes
}

fn digest_bytes(data: &[u8]) -> Vec<u8> {
    hex::decode(sha256::digest(data)).unwrap()
}

#[test]
fn test_hash() {
    let bytes = test_data_bytes();
    let h = axe_chain::sha256::Hash::hash(&bytes);
    println!("Hashed data: {:?}", h);
    let mut le = digest_bytes(&bytes);
    le.reverse();
    assert_eq!(h.to_bytes().to_vec(), le);
}

#[test]
fn test_as_bytes() {
    let bytes = axe_chain::sha256::Hash::hash(&test_data_bytes()).to_bytes();
    println!("Bytes of data : {:?}", bytes);
    assert_eq!(bytes.len(), 32);
}

#[test]
fn hash_of_hello_is_its_sha256_digest() {
    let h = axe_chain::sha256::Hash::hash(b"hello");
    let expected = hex::decode("2cf24dba5fb0a30e26e83b2ac5b9e29e1b161e5c1fa7425e73043362938b9824").unwrap();
    let mut le = expected.clone();
    le.reverse();
    assert_eq!(h.to_bytes().to_vec(), le);
    let mut be = [0u8; 32];
    be.copy_from_slice(&expected);
    assert!(h.eq(&axe_chain::sha256::Hash::hash(b"hello")));
    assert!(!h.eq(&axe_chain::sha256::Hash::hash(b"hellp")));
    // The hash is below a target exactly when its number is.
    let n = U256::from_big_endian(&be);
    assert!(!h.match_target(n));
    assert!(h.match_target(n.checked_add(&U256::from_u64(1)).unwrap()));
}

#[test]
fn zero_hash_has_zero_bytes() {
    let z = axe_chain::sha256::Hash::zero();
    assert_eq!(z.to_bytes(), [0u8; 32]);
    assert!(z.match_target(U256::from_u64(1)));
    assert!(!z.match_target(U256::zero()));
}

#[test]
fn hash_bytes_round_trip() {
    let h = axe_chain::sha256::Hash::hash(b"round trip");
    let back = axe_chain::sha256::Hash::from_bytes(&h.to_bytes());
    assert!(back.eq(&h));
    let mut bytes = [0u8; 32];
    bytes[0] = 7;
    bytes[31] = 1;
    assert_eq!(axe_chain::sha256::Hash::from_bytes(&bytes).to_bytes(), bytes);
}

#[test]
fn hash_displays_as_lowercase_hex_without_leading_zeros() {
    let h = axe_chain::sha256::Hash::hash(b"hello");
    assert_eq!(
        h.to_hex_string(),
        "2cf24dba5fb0a30e26e83b2ac5b9e29e1b161e5c1fa7425e73043362938b9824"
    );
    assert_eq!(axe_chain::sha256::Hash::zero().to_hex_string(), "0");
    let mut bytes = [0u8; 32];
    bytes[0] = 0xab;
    bytes[1] = 0x0c;
    assert_eq!(axe_chain::sha256::Hash::from_bytes(&bytes).to_hex_string(), "cab");
}
