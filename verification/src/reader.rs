//! Tree reader: the entries of a stored tree and their listing.

use vstd::prelude::*;

use crate::codec::{ObjectKind, SPACE};
use crate::digits::{format_octal_padded, octal_digits_padded};
use crate::error::StoreError;
use crate::hexcode::hex_digits;
use crate::sha1hash::Sha1Hash;
use crate::store::{stored_object, ObjectStore};
use crate::text::append_bytes;
use crate::tree::{parse_tree, parsed_tree, EntrySpec, TreeEntry, MODE_DIRECTORY};

verus! {

/// The kind of object that an entry of the given mode stands for: a tree
/// for the directory mode, a blob for every other mode.
pub open spec fn kind_of_mode(mode: nat) -> ObjectKind {
    if mode == MODE_DIRECTORY {
        ObjectKind::Tree
    } else {
        ObjectKind::Blob
    }
}

/// One line of a listing, without line end. With `names_only` it is the
/// name; otherwise the mode in six octal digits, the kind's label, the
/// identifier's text and the name, with one space between them.
pub open spec fn listing_line(entry: EntrySpec, names_only: bool) -> Seq<u8> {
    if names_only {
        entry.name
    } else {
        octal_digits_padded(entry.mode) + seq![SPACE] + kind_of_mode(entry.mode).label()
            + seq![SPACE] + hex_digits(entry.target) + seq![SPACE] + entry.name
    }
}

/// The lines of a listing: one for each entry, in the order of the entries.
pub open spec fn listing(entries: Seq<EntrySpec>, names_only: bool) -> Seq<Seq<u8>> {
    Seq::new(entries.len(), |i: int| listing_line(entries[i], names_only))
}

/// What reading the tree stored under `id` gives: the entries of its
/// payload, or the reason why there are none.
pub open spec fn stored_tree(objects: Map<Seq<u8>, Seq<u8>>, id: Seq<u8>) -> Result<
    Seq<EntrySpec>,
    StoreError,
> {
    match stored_object(objects, id) {
        Err(e) => Err(e),
        Ok((kind, payload)) => if kind == ObjectKind::Tree {
            parsed_tree(payload, payload.len())
        } else {
            Err(StoreError::UnexpectedObjectKind)
        },
    }
}

/// What listing the tree stored under `id` gives.
pub open spec fn stored_listing(objects: Map<Seq<u8>, Seq<u8>>, id: Seq<u8>, names_only: bool)
    -> Result<Seq<Seq<u8>>, StoreError> {
    match stored_tree(objects, id) {
        Err(e) => Err(e),
        Ok(entries) => Ok(listing(entries, names_only)),
    }
}

/// Writes one line of a listing.
pub fn list_entry(entry: &TreeEntry, names_only: bool) -> (line: Vec<u8>)
    ensures
        line@ == listing_line(entry@, names_only),
{
    let mut line: Vec<u8> = Vec::new();
    if !names_only {
        append_bytes(&mut line, format_octal_padded(entry.mode).as_slice());
        line.push(SPACE);
        let kind = if entry.mode == MODE_DIRECTORY {
            ObjectKind::Tree
        } else {
            ObjectKind::Blob
        };
        append_bytes(&mut line, kind.label_bytes());
        line.push(SPACE);
        append_bytes(&mut line, entry.target.to_hex_bytes().as_slice());
        line.push(SPACE);
    }
    append_bytes(&mut line, entry.name.as_slice());
    assert(line@ =~= listing_line(entry@, names_only));
    line
}

/// Writes the lines of a listing.
pub fn list_entries(entries: &Vec<TreeEntry>, names_only: bool) -> (lines: Vec<Vec<u8>>)
    ensures
        lines.deep_view() == listing(entries.deep_view(), names_only),
{
    let mut lines: Vec<Vec<u8>> = Vec::new();
    let mut i: usize = 0;
    while i < entries.len()
        invariant
            i <= entries@.len(),
            lines@.len() == i,
            forall|j: int|
                0 <= j < i ==> (#[trigger] lines@[j])@ == listing_line(entries@[j]@, names_only),
        decreases entries@.len() - i,
    {
        lines.push(list_entry(&entries[i], names_only));
        i += 1;
    }
    proof {
        assert forall|j: int| 0 <= j < lines@.len() implies lines.deep_view()[j] == listing(
            entries.deep_view(),
            names_only,
        )[j] by {
            assert(lines@[j].deep_view() =~= lines@[j]@);
            assert(entries.deep_view()[j] == entries@[j]@);
        }
        assert(lines.deep_view() =~= listing(entries.deep_view(), names_only));
    }
    lines
}

/// Reads the entries of the tree stored under `id`, in the order stored.
pub fn read_tree(store: &ObjectStore, id: &Sha1Hash) -> (res: Result<Vec<TreeEntry>, StoreError>)
    ensures
        match res {
            Ok(entries) => stored_tree(store@, id@) == Ok::<Seq<EntrySpec>, StoreError>(
                entries.deep_view(),
            ),
            Err(e) => stored_tree(store@, id@) == Err::<Seq<EntrySpec>, StoreError>(e),
        },
{
    match store.read(id) {
        Err(e) => Err(e),
        Ok((kind, payload)) => match kind {
            ObjectKind::Tree => parse_tree(payload.as_slice(), payload.len()),
            _ => Err(StoreError::UnexpectedObjectKind),
        },
    }
}

/// Lists the tree stored under `id`: one line for each entry, in the order
/// stored.
pub fn list_tree(store: &ObjectStore, id: &Sha1Hash, names_only: bool) -> (res: Result<
    Vec<Vec<u8>>,
    StoreError,
>)
    ensures
        match res {
            Ok(lines) => stored_listing(store@, id@, names_only) == Ok::<
                Seq<Seq<u8>>,
                StoreError,
            >(lines.deep_view()),
            Err(e) => stored_listing(store@, id@, names_only) == Err::<Seq<Seq<u8>>, StoreError>(
                e,
            ),
        },
{
    match read_tree(store, id) {
        Err(e) => Err(e),
        Ok(entries) => Ok(list_entries(&entries, names_only)),
    }
}

} // verus!
