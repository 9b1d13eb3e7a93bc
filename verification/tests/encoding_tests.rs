use axe_chain::encoding::{push_bytes, push_head, push_int, push_key, push_u128_bytes, push_uint};

fn uint(v: u64) -> Vec<u8> {
    let mut out = vec![];
    push_uint(&mut out, v);
    out
}

fn signed(v: i64) -> Vec<u8> {
    let mut out = vec![];
    push_int(&mut out, v);
    out
}

#[test]
fn cbor_unsigned_heads() {
    assert_eq!(uint(0), vec![0x00]);
    assert_eq!(uint(23), vec![0x17]);
    assert_eq!(uint(24), vec![0x18, 24]);
    assert_eq!(uint(255), vec![0x18, 0xff]);
    assert_eq!(uint(256), vec![0x19, 0x01, 0x00]);
    assert_eq!(uint(65536), vec![0x1a, 0x00, 0x01, 0x00, 0x00]);
    assert_eq!(uint(1 << 32), vec![0x1b, 0, 0, 0, 1, 0, 0, 0, 0]);
    assert_eq!(uint(u64::MAX), vec![0x1b, 0xff, 0xff, 0xff, 0xff, 0xff, 0xff, 0xff, 0xff]);
}

#[test]
fn cbor_negative_integers() {
    assert_eq!(signed(-1), vec![0x20]);
    assert_eq!(signed(-24), vec![0x37]);
    assert_eq!(signed(-25), vec![0x38, 0x18]);
    assert_eq!(signed(500), vec![0x19, 0x01, 0xf4]);
    assert_eq!(signed(i64::MIN), vec![0x3b, 0x7f, 0xff, 0xff, 0xff, 0xff, 0xff, 0xff, 0xff]);
}

#[test]
fn cbor_strings_and_heads() {
    let mut out = vec![];
    push_key(&mut out, "value");
    assert_eq!(out, vec![0x65, b'v', b'a', b'l', b'u', b'e']);
    let mut out = vec![];
    push_bytes(&mut out, &[1, 2, 3]);
    assert_eq!(out, vec![0x43, 1, 2, 3]);
    let mut out = vec![];
    push_head(&mut out, 4, 2);
    push_head(&mut out, 5, 3);
    assert_eq!(out, vec![0x82, 0xa3]);
    let mut out = vec![];
    push_u128_bytes(&mut out, 0x0102_0304_0506_0708_090a_0b0c_0d0e_0f10);
    assert_eq!(out, vec![0x50, 1, 2, 3, 4, 5, 6, 7, 8, 9, 10, 11, 12, 13, 14, 15, 16]);
}

#[test]
fn cbor_matches_ciborium_for_a_map() {
    let value = ciborium::value::Value::Map(vec![(
        ciborium::value::Value::Text("value".to_string()),
        ciborium::value::Value::Integer(300u32.into()),
    )]);
    let mut expected = vec![];
    ciborium::into_writer(&value, &mut expected).unwrap();
    let mut out = vec![];
    push_head(&mut out, 5, 1);
    push_key(&mut out, "value");
    push_uint(&mut out, 300);
    assert_eq!(out, expected);
}
