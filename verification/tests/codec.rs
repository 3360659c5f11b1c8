use rust_git::codec::{decode, decode_header, encode, ObjectKind};
use rust_git::error::StoreError;

#[test]
fn known_vector_hello_world() {
    let (id, envelope) = encode(ObjectKind::Blob, b"hello world\n");
    assert_eq!(id.to_hex(), "3b18e512dba79e4c8300dd08aeb37f8e728b8dad");
    assert_eq!(envelope, b"blob 12\x00hello world\n");
}

#[test]
fn envelope_of_an_empty_blob() {
    let (id, envelope) = encode(ObjectKind::Blob, b"");
    assert_eq!(envelope, b"blob 0\x00");
    assert_eq!(id.to_hex(), "e69de29bb2d1d6434b8b29ae775ad8c2e48c5391");
}

#[test]
fn envelope_of_each_kind() {
    assert_eq!(encode(ObjectKind::Blob, b"x").1, b"blob 1\x00x");
    assert_eq!(encode(ObjectKind::Tree, b"xy").1, b"tree 2\x00xy");
    assert_eq!(encode(ObjectKind::Commit, b"xyz").1, b"commit 3\x00xyz");
    assert_eq!(
        encode(ObjectKind::Tree, b"").0.to_hex(),
        "4b825dc642cb6eb9a060e54bf8d69288fbee4904"
    );
}

#[test]
fn envelope_counts_bytes_not_characters() {
    let payload = "h\u{e9}llo".as_bytes();
    assert_eq!(payload.len(), 6);
    assert_eq!(encode(ObjectKind::Blob, payload).1, b"blob 6\x00h\xc3\xa9llo");
}

#[test]
fn the_identifier_covers_the_header() {
    let blob = encode(ObjectKind::Blob, b"same").0;
    let tree = encode(ObjectKind::Tree, b"same").0;
    let commit = encode(ObjectKind::Commit, b"same").0;
    assert_ne!(blob, tree);
    assert_ne!(blob, commit);
    assert_ne!(tree, commit);
}

#[test]
fn encode_twice_gives_the_same() {
    let first = encode(ObjectKind::Commit, b"payload \x00 with nul");
    let second = encode(ObjectKind::Commit, b"payload \x00 with nul");
    assert_eq!(first, second);
}

#[test]
fn label_round_trip() {
    for kind in [ObjectKind::Blob, ObjectKind::Tree, ObjectKind::Commit] {
        assert_eq!(ObjectKind::from_label(kind.label_bytes()), Some(kind));
    }
    assert_eq!(ObjectKind::Blob.label_bytes(), b"blob");
    assert_eq!(ObjectKind::Tree.label_bytes(), b"tree");
    assert_eq!(ObjectKind::Commit.label_bytes(), b"commit");
    assert_eq!(ObjectKind::from_label(b"tag"), None);
    assert_eq!(ObjectKind::from_label(b"Blob"), None);
    assert_eq!(ObjectKind::from_label(b""), None);
    assert_eq!(ObjectKind::from_label(b"blobs"), None);
}

#[test]
fn decode_gives_back_what_encode_took() {
    let payloads: [&[u8]; 5] = [b"", b"a", b"hello world\n", b"\x00\x00", b"blob 3\x00abc"];
    for kind in [ObjectKind::Blob, ObjectKind::Tree, ObjectKind::Commit] {
        for payload in payloads {
            let (_, envelope) = encode(kind, payload);
            assert_eq!(decode(&envelope), Ok((kind, payload.to_vec())));
        }
    }
}

#[test]
fn decode_ignores_bytes_beyond_the_declared_length() {
    assert_eq!(decode(b"blob 3\x00abcdef"), Ok((ObjectKind::Blob, b"abc".to_vec())));
    assert_eq!(decode(b"tree 0\x00junk"), Ok((ObjectKind::Tree, Vec::new())));
}

#[test]
fn decode_takes_leading_zeros_in_the_length() {
    assert_eq!(decode(b"blob 003\x00abc"), Ok((ObjectKind::Blob, b"abc".to_vec())));
}

#[test]
fn decode_rejects_a_short_payload() {
    assert_eq!(decode(b"blob 4\x00abc"), Err(StoreError::TruncatedOrCorruptObject));
    assert_eq!(decode(b"blob 1\x00"), Err(StoreError::TruncatedOrCorruptObject));
    assert_eq!(
        decode(b"blob 99999999999999999999999999\x00abc"),
        Err(StoreError::TruncatedOrCorruptObject)
    );
}

#[test]
fn decode_rejects_an_envelope_cut_by_one_byte() {
    let (_, envelope) = encode(ObjectKind::Blob, b"hello world\n");
    let cut = &envelope[..envelope.len() - 1];
    assert_eq!(decode(cut), Err(StoreError::TruncatedOrCorruptObject));
}

#[test]
fn decode_rejects_a_header_without_nul() {
    assert_eq!(decode(b""), Err(StoreError::MalformedHeader));
    assert_eq!(decode(b"blob 3"), Err(StoreError::MalformedHeader));
    assert_eq!(decode(b"blob"), Err(StoreError::MalformedHeader));
}

#[test]
fn decode_rejects_an_unknown_kind() {
    assert_eq!(decode(b"tag 3\x00abc"), Err(StoreError::MalformedHeader));
    assert_eq!(decode(b"BLOB 3\x00abc"), Err(StoreError::MalformedHeader));
    assert_eq!(decode(b" 3\x00abc"), Err(StoreError::MalformedHeader));
}

#[test]
fn decode_rejects_a_header_without_separator() {
    assert_eq!(decode(b"blob3\x00abc"), Err(StoreError::MalformedHeader));
    assert_eq!(decode(b"\x00abc"), Err(StoreError::MalformedHeader));
}

#[test]
fn decode_rejects_a_length_that_is_no_number() {
    assert_eq!(decode(b"blob \x00abc"), Err(StoreError::MalformedHeader));
    assert_eq!(decode(b"blob x\x00abc"), Err(StoreError::MalformedHeader));
    assert_eq!(decode(b"blob -1\x00abc"), Err(StoreError::MalformedHeader));
    assert_eq!(decode(b"blob +3\x00abc"), Err(StoreError::MalformedHeader));
    assert_eq!(decode(b"blob  3\x00abc"), Err(StoreError::MalformedHeader));
    assert_eq!(decode(b"blob 3 \x00abc"), Err(StoreError::MalformedHeader));
}

#[test]
fn decode_header_gives_kind_length_and_start() {
    assert_eq!(decode_header(b"blob 12\x00hello"), Ok((ObjectKind::Blob, 12, 8)));
    assert_eq!(decode_header(b"commit 0\x00"), Ok((ObjectKind::Commit, 0, 9)));
    assert_eq!(decode_header(b"tree 5"), Err(StoreError::MalformedHeader));
}
