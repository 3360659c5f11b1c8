use rust_git::error::StoreError;
use rust_git::sha1hash::Sha1Hash;
use sha1::Digest;

const HELLO: &str = "2aae6c35c94fcfb415dbe95f408b9ce91ee846ed";

#[test]
fn hash_of_known_text() {
    let id = Sha1Hash::hash(b"hello world");
    assert_eq!(id.to_hex(), HELLO);
}

#[test]
fn hash_of_nothing() {
    let id = Sha1Hash::hash(b"");
    assert_eq!(id.to_hex(), "da39a3ee5e6b4b0d3255bfef95601890afd80709");
}

#[test]
fn hash_is_the_digest_of_the_sha1_crate() {
    let data = b"some bytes \x00\xff to digest";
    let expected: [u8; 20] = sha1::Sha1::digest(data).into();
    assert_eq!(Sha1Hash::hash(data).as_bytes(), &expected[..]);
}

#[test]
fn hashing_twice_gives_one_identifier() {
    assert_eq!(Sha1Hash::hash(b"abc"), Sha1Hash::hash(b"abc"));
    assert_ne!(Sha1Hash::hash(b"abc"), Sha1Hash::hash(b"abd"));
}

#[test]
fn to_hex_is_forty_lower_case_digits() {
    let mut bytes = [0u8; 20];
    for (i, b) in bytes.iter_mut().enumerate() {
        *b = (i as u8) * 13 + 0xa0;
    }
    let id = Sha1Hash::from_bytes(bytes);
    let text = id.to_hex();
    assert_eq!(text, "a0adbac7d4e1eefb0815222f3c495663707d8a97");
    assert_eq!(text.len(), 40);
    assert_eq!(id.to_hex_bytes(), text.as_bytes());
}

#[test]
fn to_hex_writes_each_half_of_a_byte() {
    let mut bytes = [0u8; 20];
    bytes[0] = 0x0f;
    bytes[1] = 0xf0;
    bytes[19] = 0x9a;
    let id = Sha1Hash::from_bytes(bytes);
    assert_eq!(id.to_hex(), "0ff000000000000000000000000000000000009a");
}

#[test]
fn from_hex_reads_what_to_hex_wrote() {
    let id = Sha1Hash::hash(b"round trip");
    assert_eq!(Sha1Hash::from_hex(&id.to_hex()), Ok(id));
}

#[test]
fn from_hex_reads_known_bytes() {
    let id = Sha1Hash::from_hex("000102030405060708090a0b0c0d0e0f10111213").unwrap();
    let expected: Vec<u8> = (0u8..20).collect();
    assert_eq!(id.as_bytes(), &expected[..]);
    assert_eq!(id.byte(0), 0);
    assert_eq!(id.byte(10), 10);
    assert_eq!(id.byte(19), 19);
}

#[test]
fn from_hex_takes_upper_and_mixed_case() {
    let lower = Sha1Hash::from_hex(HELLO).unwrap();
    let upper = Sha1Hash::from_hex(&HELLO.to_uppercase()).unwrap();
    let mixed = Sha1Hash::from_hex("2AAE6c35C94fcfb415dbe95f408b9ce91ee846ED").unwrap();
    assert_eq!(lower, upper);
    assert_eq!(lower, mixed);
    assert_eq!(upper.to_hex(), HELLO);
}

#[test]
fn from_hex_rejects_short_text() {
    assert_eq!(Sha1Hash::from_hex(&HELLO[..39]), Err(StoreError::InvalidIdentifier));
    assert_eq!(Sha1Hash::from_hex(&HELLO[..38]), Err(StoreError::InvalidIdentifier));
    assert_eq!(Sha1Hash::from_hex(""), Err(StoreError::InvalidIdentifier));
}

#[test]
fn from_hex_rejects_long_text() {
    let long = format!("{}0", HELLO);
    assert_eq!(Sha1Hash::from_hex(&long), Err(StoreError::InvalidIdentifier));
    let longer = format!("{}00", HELLO);
    assert_eq!(Sha1Hash::from_hex(&longer), Err(StoreError::InvalidIdentifier));
}

#[test]
fn from_hex_rejects_other_characters() {
    let bad = format!("{}g", &HELLO[..39]);
    assert_eq!(Sha1Hash::from_hex(&bad), Err(StoreError::InvalidIdentifier));
    let spaced = format!(" {}", &HELLO[..39]);
    assert_eq!(Sha1Hash::from_hex(&spaced), Err(StoreError::InvalidIdentifier));
    let signed = format!("+{}", &HELLO[..39]);
    assert_eq!(Sha1Hash::from_hex(&signed), Err(StoreError::InvalidIdentifier));
}

#[test]
fn from_hex_rejects_text_beyond_ascii() {
    let forty_chars = format!("{}\u{e9}", &HELLO[..39]);
    assert_eq!(forty_chars.chars().count(), 40);
    assert_eq!(Sha1Hash::from_hex(&forty_chars), Err(StoreError::InvalidIdentifier));
    let forty_bytes = format!("{}\u{e9}", &HELLO[..38]);
    assert_eq!(forty_bytes.len(), 40);
    assert_eq!(Sha1Hash::from_hex(&forty_bytes), Err(StoreError::InvalidIdentifier));
}

#[test]
fn same_as_compares_all_bytes() {
    let a = Sha1Hash::from_bytes([7u8; 20]);
    let b = Sha1Hash::from_bytes([7u8; 20]);
    let mut other = [7u8; 20];
    other[19] = 8;
    let c = Sha1Hash::from_bytes(other);
    assert!(a.same_as(&b));
    assert!(!a.same_as(&c));
    assert!(!c.same_as(&a));
}
