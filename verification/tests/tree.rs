use rust_git::codec::ObjectKind;
use rust_git::error::StoreError;
use rust_git::order::{name_is_before, serialize_tree, sort_entries};
use rust_git::reader::{list_entries, list_entry, list_tree, read_tree};
use rust_git::sha1hash::Sha1Hash;
use rust_git::store::ObjectStore;
use rust_git::tree::{parse_tree, serialize_entries, TreeEntry, MODE_DIRECTORY, MODE_FILE};

fn id_of(seed: u8) -> Sha1Hash {
    let mut bytes = [0u8; 20];
    for (i, b) in bytes.iter_mut().enumerate() {
        *b = seed.wrapping_add(i as u8);
    }
    Sha1Hash::from_bytes(bytes)
}

fn file(name: &str, seed: u8) -> TreeEntry {
    TreeEntry { mode: MODE_FILE, name: name.as_bytes().to_vec(), target: id_of(seed) }
}

fn directory(name: &str, seed: u8) -> TreeEntry {
    TreeEntry { mode: MODE_DIRECTORY, name: name.as_bytes().to_vec(), target: id_of(seed) }
}

fn names(entries: &[TreeEntry]) -> Vec<String> {
    entries.iter().map(|e| String::from_utf8(e.name.clone()).unwrap()).collect()
}

#[test]
fn the_modes() {
    assert_eq!(MODE_FILE, 0o100644);
    assert_eq!(MODE_DIRECTORY, 0o40000);
}

#[test]
fn payload_of_one_entry() {
    let target = Sha1Hash::from_hex("45b983be36b73c0788dc9cbcb76cbb80fc7bb057").unwrap();
    let entry = TreeEntry { mode: MODE_FILE, name: b"a.txt".to_vec(), target };
    let payload = serialize_entries(&vec![entry]);
    let mut expected = b"100644 a.txt\x00".to_vec();
    expected.extend_from_slice(target.as_bytes());
    assert_eq!(payload, expected);
    assert_eq!(payload.len(), 33);
}

#[test]
fn payload_of_no_entry() {
    assert_eq!(serialize_entries(&Vec::new()), Vec::<u8>::new());
    assert_eq!(serialize_tree(&Vec::new()), Vec::<u8>::new());
}

#[test]
fn payload_writes_the_directory_mode_without_padding() {
    let payload = serialize_entries(&vec![directory("src", 1)]);
    assert!(payload.starts_with(b"40000 src\x00"));
    assert_eq!(payload.len(), 10 + 20);
}

#[test]
fn serialize_entries_keeps_the_order_given() {
    let payload = serialize_entries(&vec![file("b", 1), file("a", 2)]);
    let mut expected = b"100644 b\x00".to_vec();
    expected.extend_from_slice(id_of(1).as_bytes());
    expected.extend_from_slice(b"100644 a\x00");
    expected.extend_from_slice(id_of(2).as_bytes());
    assert_eq!(payload, expected);
}

#[test]
fn serialize_tree_orders_by_name() {
    let payload = serialize_tree(&vec![file("b", 1), file("a", 2)]);
    let mut expected = b"100644 a\x00".to_vec();
    expected.extend_from_slice(id_of(2).as_bytes());
    expected.extend_from_slice(b"100644 b\x00");
    expected.extend_from_slice(id_of(1).as_bytes());
    assert_eq!(payload, expected);
}

#[test]
fn names_are_compared_byte_by_byte() {
    assert!(name_is_before(b"a", b"b"));
    assert!(!name_is_before(b"b", b"a"));
    assert!(!name_is_before(b"a", b"a"));
    assert!(name_is_before(b"", b"a"));
    assert!(!name_is_before(b"a", b""));
    assert!(!name_is_before(b"", b""));
    assert!(name_is_before(b"a", b"ab"));
    assert!(!name_is_before(b"ab", b"a"));
    assert!(name_is_before(b"B", b"a"));
    assert!(name_is_before(b"Z", b"a"));
    assert!(name_is_before(b"a.txt", b"ab"));
    assert!(name_is_before(b"a-b", b"a.b"));
    assert!(name_is_before(b"abc", b"abd"));
    assert!(name_is_before(b"z", "\u{e9}".as_bytes()));
    assert!(name_is_before(b"\x7f", b"\x80"));
}

#[test]
fn sort_orders_upper_case_before_lower_case() {
    let entries = vec![file("b", 1), file("a", 2), file("B", 3), file("ab", 4), file("a.txt", 5)];
    let sorted = sort_entries(&entries);
    assert_eq!(names(&sorted), vec!["B", "a", "a.txt", "ab", "b"]);
}

#[test]
fn sort_keeps_every_entry_whole() {
    let entries = vec![directory("src", 9), file("README", 8), file("Cargo.toml", 7)];
    let sorted = sort_entries(&entries);
    assert_eq!(sorted, vec![file("Cargo.toml", 7), file("README", 8), directory("src", 9)]);
}

#[test]
fn sort_does_not_depend_on_the_order_of_enumeration() {
    let a = file("alpha", 1);
    let b = directory("beta", 2);
    let c = file("gamma", 3);
    let d = file("Delta", 4);
    let expected = vec![d.clone(), a.clone(), b.clone(), c.clone()];
    let orders = [
        vec![a.clone(), b.clone(), c.clone(), d.clone()],
        vec![d.clone(), c.clone(), b.clone(), a.clone()],
        vec![b.clone(), d.clone(), a.clone(), c.clone()],
        vec![c.clone(), a.clone(), d.clone(), b.clone()],
    ];
    let payload = serialize_entries(&expected);
    for order in orders {
        assert_eq!(sort_entries(&order), expected);
        assert_eq!(serialize_tree(&order), payload);
    }
}

#[test]
fn sort_keeps_entries_of_one_name_in_the_order_given() {
    let entries = vec![file("x", 1), file("a", 2), file("x", 3), file("a", 4)];
    let sorted = sort_entries(&entries);
    assert_eq!(sorted, vec![file("a", 2), file("a", 4), file("x", 1), file("x", 3)]);
}

#[test]
fn parse_reads_what_serialize_wrote() {
    let entries = vec![
        file("a.txt", 1),
        directory("dir with space", 2),
        file("\u{e9}t\u{e9}", 3),
        TreeEntry { mode: 0o120000, name: b"link".to_vec(), target: id_of(0) },
        TreeEntry { mode: 0, name: b"".to_vec(), target: id_of(200) },
    ];
    let payload = serialize_entries(&entries);
    assert_eq!(parse_tree(&payload, payload.len()), Ok(entries));
}

#[test]
fn parse_of_an_empty_payload() {
    assert_eq!(parse_tree(b"", 0), Ok(Vec::new()));
}

#[test]
fn parse_keeps_the_stored_order() {
    let entries = vec![file("z", 1), file("a", 2), file("m", 3)];
    let payload = serialize_entries(&entries);
    let parsed = parse_tree(&payload, payload.len()).unwrap();
    assert_eq!(names(&parsed), vec!["z", "a", "m"]);
}

#[test]
fn parse_skips_over_nul_bytes_in_an_identifier() {
    let zero = Sha1Hash::from_bytes([0u8; 20]);
    let entries = vec![
        TreeEntry { mode: MODE_FILE, name: b"first".to_vec(), target: zero },
        file("second", 5),
    ];
    let payload = serialize_entries(&entries);
    assert_eq!(parse_tree(&payload, payload.len()), Ok(entries));
}

#[test]
fn parse_takes_a_mode_with_leading_zeros() {
    let mut payload = b"040000 dir\x00".to_vec();
    payload.extend_from_slice(id_of(4).as_bytes());
    assert_eq!(parse_tree(&payload, payload.len()), Ok(vec![directory("dir", 4)]));
}

#[test]
fn parse_stops_at_the_declared_length() {
    let first = serialize_entries(&vec![file("a", 1)]);
    let both = serialize_entries(&vec![file("a", 1), file("b", 2)]);
    assert_eq!(parse_tree(&both, first.len()), Ok(vec![file("a", 1)]));
    assert_eq!(parse_tree(&both, 0), Ok(Vec::new()));
    let mut surplus = first.clone();
    surplus.extend_from_slice(b"junk");
    assert_eq!(parse_tree(&surplus, first.len()), Ok(vec![file("a", 1)]));
}

#[test]
fn parse_rejects_an_entry_without_nul() {
    assert_eq!(parse_tree(b"100644 a.txt", 12), Err(StoreError::MalformedTreeEntry));
    let mut payload = serialize_entries(&vec![file("a", 1)]);
    payload.extend_from_slice(b"100644 b");
    assert_eq!(parse_tree(&payload, payload.len()), Err(StoreError::MalformedTreeEntry));
}

#[test]
fn parse_rejects_an_entry_without_separator() {
    let mut payload = b"100644a.txt\x00".to_vec();
    payload.extend_from_slice(id_of(1).as_bytes());
    assert_eq!(parse_tree(&payload, payload.len()), Err(StoreError::MalformedTreeEntry));
    let mut empty = b"\x00".to_vec();
    empty.extend_from_slice(id_of(1).as_bytes());
    assert_eq!(parse_tree(&empty, empty.len()), Err(StoreError::MalformedTreeEntry));
}

#[test]
fn parse_rejects_a_mode_that_is_not_octal() {
    for mode in ["", "8", "10064x", "+100644", "-1", "0x1ff", "40000000000"] {
        let mut payload = format!("{} name\x00", mode).into_bytes();
        payload.extend_from_slice(id_of(1).as_bytes());
        assert_eq!(parse_tree(&payload, payload.len()), Err(StoreError::MalformedTreeEntry));
    }
}

#[test]
fn parse_rejects_a_short_identifier() {
    let payload = serialize_entries(&vec![file("a", 1)]);
    for missing in 1..=20 {
        let cut = &payload[..payload.len() - missing];
        assert_eq!(parse_tree(cut, payload.len()), Err(StoreError::TruncatedTree));
        assert_eq!(parse_tree(cut, cut.len()), Err(StoreError::TruncatedTree));
    }
}

#[test]
fn parse_rejects_a_payload_that_ends_before_the_declared_length() {
    let payload = serialize_entries(&vec![file("a", 1)]);
    assert_eq!(parse_tree(&payload, payload.len() + 1), Err(StoreError::TruncatedTree));
    assert_eq!(parse_tree(b"", 1), Err(StoreError::TruncatedTree));
}

#[test]
fn parse_rejects_an_entry_that_reaches_beyond_the_declared_length() {
    let payload = serialize_entries(&vec![file("a", 1), file("b", 2)]);
    let one = serialize_entries(&vec![file("a", 1)]).len();
    assert_eq!(parse_tree(&payload, one - 1), Err(StoreError::TrailingTreeBytes));
    assert_eq!(parse_tree(&payload, one + 1), Err(StoreError::TrailingTreeBytes));
    assert_eq!(parse_tree(&payload, payload.len() - 1), Err(StoreError::TrailingTreeBytes));
    assert_eq!(parse_tree(&payload, 1), Err(StoreError::TrailingTreeBytes));
}

#[test]
fn a_payload_cut_by_any_number_of_bytes_fails() {
    let entries = vec![file("a.txt", 1), directory("src", 2), file("zz", 3)];
    let payload = serialize_entries(&entries);
    assert_eq!(parse_tree(&payload, payload.len()), Ok(entries));
    for keep in 0..payload.len() {
        let result = parse_tree(&payload[..keep], payload.len());
        assert!(result.is_err(), "{} bytes kept", keep);
    }
}

#[test]
fn the_entries_take_up_the_declared_length() {
    let entries = vec![file("a.txt", 1), directory("src", 2), file("zz", 3)];
    let payload = serialize_entries(&entries);
    let parsed = parse_tree(&payload, payload.len()).unwrap();
    let consumed: usize = parsed
        .iter()
        .map(|e| serialize_entries(&vec![e.clone()]).len())
        .sum();
    assert_eq!(consumed, payload.len());
    assert_eq!(consumed, (6 + 1 + 5 + 1 + 20) + (5 + 1 + 3 + 1 + 20) + (6 + 1 + 2 + 1 + 20));
}

#[test]
fn line_of_a_file_and_of_a_directory() {
    let blob = Sha1Hash::from_hex("45b983be36b73c0788dc9cbcb76cbb80fc7bb057").unwrap();
    let file = TreeEntry { mode: MODE_FILE, name: b"a.txt".to_vec(), target: blob };
    assert_eq!(
        list_entry(&file, false),
        b"100644 blob 45b983be36b73c0788dc9cbcb76cbb80fc7bb057 a.txt"
    );
    assert_eq!(list_entry(&file, true), b"a.txt");
    let tree = Sha1Hash::from_hex("0d8a474fc67971fb3dd7616e26323d3066442555").unwrap();
    let dir = TreeEntry { mode: MODE_DIRECTORY, name: b"src".to_vec(), target: tree };
    assert_eq!(
        list_entry(&dir, false),
        b"040000 tree 0d8a474fc67971fb3dd7616e26323d3066442555 src"
    );
    assert_eq!(list_entry(&dir, true), b"src");
}

#[test]
fn line_of_another_mode_says_blob() {
    let entry = TreeEntry { mode: 0o100755, name: b"run.sh".to_vec(), target: id_of(0) };
    let line = list_entry(&entry, false);
    assert!(line.starts_with(b"100755 blob "));
    assert!(line.ends_with(b" run.sh"));
    let small = TreeEntry { mode: 0o644, name: b"odd".to_vec(), target: id_of(0) };
    assert!(list_entry(&small, false).starts_with(b"000644 blob "));
}

#[test]
fn lines_come_in_the_order_of_the_entries() {
    let entries = vec![file("z", 1), directory("a", 2)];
    let lines = list_entries(&entries, true);
    assert_eq!(lines, vec![b"z".to_vec(), b"a".to_vec()]);
    let full = list_entries(&entries, false);
    assert_eq!(full.len(), 2);
    assert_eq!(full[0], list_entry(&entries[0], false));
    assert_eq!(full[1], list_entry(&entries[1], false));
    assert_eq!(list_entries(&Vec::new(), false), Vec::<Vec<u8>>::new());
}

#[test]
fn read_tree_gives_the_entries_stored() {
    let entries = vec![file("b", 1), file("a", 2)];
    let mut store = ObjectStore::new();
    let id = store.write(ObjectKind::Tree, &serialize_entries(&entries)).unwrap();
    assert_eq!(read_tree(&store, &id), Ok(entries));
    assert_eq!(list_tree(&store, &id, true), Ok(vec![b"b".to_vec(), b"a".to_vec()]));
}

#[test]
fn read_tree_refuses_other_kinds() {
    let mut store = ObjectStore::new();
    let blob = store.write(ObjectKind::Blob, b"not a tree").unwrap();
    let commit = store.write(ObjectKind::Commit, b"tree x\n").unwrap();
    assert_eq!(read_tree(&store, &blob), Err(StoreError::UnexpectedObjectKind));
    assert_eq!(read_tree(&store, &commit), Err(StoreError::UnexpectedObjectKind));
    assert_eq!(list_tree(&store, &blob, false), Err(StoreError::UnexpectedObjectKind));
}

#[test]
fn read_tree_of_an_absent_or_damaged_object() {
    let mut store = ObjectStore::new();
    let absent = id_of(77);
    assert_eq!(read_tree(&store, &absent), Err(StoreError::ObjectNotFound));
    assert_eq!(list_tree(&store, &absent, true), Err(StoreError::ObjectNotFound));
    store.insert_compressed(absent, vec![0, 1, 2]);
    assert_eq!(read_tree(&store, &absent), Err(StoreError::CorruptObject));
}

#[test]
fn read_tree_of_a_malformed_payload() {
    let mut store = ObjectStore::new();
    let no_nul = store.write(ObjectKind::Tree, b"100644 a.txt").unwrap();
    assert_eq!(read_tree(&store, &no_nul), Err(StoreError::MalformedTreeEntry));
    let short = store.write(ObjectKind::Tree, b"100644 a.txt\x00short").unwrap();
    assert_eq!(read_tree(&store, &short), Err(StoreError::TruncatedTree));
    let empty = store.write(ObjectKind::Tree, b"").unwrap();
    assert_eq!(read_tree(&store, &empty), Ok(Vec::new()));
}

#[test]
fn duplicate_gives_an_equal_entry() {
    let entry = directory("name", 42);
    assert_eq!(entry.duplicate(), entry);
}
