use base64::Engine;
use unleash_types::hashing::{hash_bytes, to_le_bytes};

#[test]
fn le_bytes_start_with_the_lowest_byte() {
    let x: u128 = 0x0102_0304_0506_0708_090a_0b0c_0d0e_0f10;
    assert_eq!(to_le_bytes(x), x.to_le_bytes().to_vec());
    assert_eq!(to_le_bytes(1)[0], 1);
    assert_eq!(to_le_bytes(1)[15], 0);
}

#[test]
fn hash_is_base64_of_xxh3_bytes() {
    let data = br#"{"version":2,"features":[],"query":null}"#;
    let expected = base64::prelude::BASE64_URL_SAFE
        .encode(xxhash_rust::xxh3::xxh3_128(data).to_le_bytes());
    let hashed = hash_bytes(data);
    assert_eq!(hashed, expected);
    assert_eq!(hashed.len(), 24);
    assert!(hashed.ends_with("=="));
    assert_ne!(hashed.as_bytes(), &data[..]);
    assert_eq!(hash_bytes(data), hash_bytes(data));
    assert_ne!(hash_bytes(b"a"), hash_bytes(b"b"));
}
