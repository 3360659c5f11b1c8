//! Tree entries and the payload of a tree: writing and reading.

use vstd::prelude::*;
use vstd::slice::{slice_subrange, slice_to_vec};

use crate::buffer::{buffer_bytes, buffer_into_vec, buffer_new, buffer_put_slice, buffer_put_u8};
use crate::codec::{NUL, SPACE};
use crate::digits::{
    format_octal, is_octal, lemma_octal_round_trip, octal_digits, octal_value, parse_octal,
};
use crate::error::StoreError;
use crate::scan::{find_byte, first_index, lemma_first_index, lemma_first_index_is};
use crate::sha1hash::Sha1Hash;

verus! {

/// The mode of a regular file.
pub const MODE_FILE: u32 = 0o100644;

/// The mode of a directory.
pub const MODE_DIRECTORY: u32 = 0o40000;

/// The number of bytes of an identifier.
pub const ID_LEN: usize = 20;

/// One entry of a tree: a mode, a name and the identifier of the object
/// that the name stands for.
#[derive(Debug, Clone, PartialEq, Eq)]
pub struct TreeEntry {
    pub mode: u32,
    pub name: Vec<u8>,
    pub target: Sha1Hash,
}

/// A tree entry as plain values.
pub struct EntrySpec {
    pub mode: nat,
    pub name: Seq<u8>,
    pub target: Seq<u8>,
}

impl View for TreeEntry {
    type V = EntrySpec;

    open spec fn view(&self) -> EntrySpec {
        EntrySpec { mode: self.mode as nat, name: self.name@, target: self.target@ }
    }
}

impl DeepView for TreeEntry {
    type V = EntrySpec;

    open spec fn deep_view(&self) -> EntrySpec {
        self@
    }
}

impl TreeEntry {
    /// A copy of the entry.
    pub fn duplicate(&self) -> (copy: TreeEntry)
        ensures
            copy@ == self@,
    {
        TreeEntry { mode: self.mode, name: self.name.clone(), target: self.target }
    }
}

/// The bytes of one entry in a tree payload: the mode in octal, a space,
/// the name, NUL, the 20 bytes of the identifier.
pub open spec fn entry_bytes(entry: EntrySpec) -> Seq<u8> {
    octal_digits(entry.mode) + seq![SPACE] + entry.name + seq![NUL] + entry.target
}

/// The payload of a tree: the bytes of its entries, one after the other in
/// the order given.
pub open spec fn tree_payload(entries: Seq<EntrySpec>) -> Seq<u8>
    decreases entries.len(),
{
    if entries.len() == 0 {
        Seq::empty()
    } else {
        tree_payload(entries.drop_last()) + entry_bytes(entries.last())
    }
}

/// Writes the payload of a tree with the entries in the order given.
pub fn serialize_entries(entries: &Vec<TreeEntry>) -> (payload: Vec<u8>)
    ensures
        payload@ == tree_payload(entries.deep_view()),
{
    let mut buffer = buffer_new();
    let mut i: usize = 0;
    let ghost all = entries.deep_view();
    assert(all.take(0) =~= Seq::<EntrySpec>::empty());
    while i < entries.len()
        invariant
            i <= entries@.len(),
            all == entries.deep_view(),
            buffer_bytes(buffer) == tree_payload(all.take(i as int)),
        decreases entries@.len() - i,
    {
        let entry = &entries[i];
        let ghost before = buffer_bytes(buffer);
        buffer_put_slice(&mut buffer, format_octal(entry.mode).as_slice());
        buffer_put_u8(&mut buffer, SPACE);
        buffer_put_slice(&mut buffer, entry.name.as_slice());
        buffer_put_u8(&mut buffer, NUL);
        buffer_put_slice(&mut buffer, entry.target.as_bytes());
        proof {
            assert(all[i as int] == entry@);
            assert(all.take(i + 1).drop_last() =~= all.take(i as int));
            assert(all.take(i + 1).last() == entry@);
            assert(buffer_bytes(buffer) =~= before + entry_bytes(entry@));
        }
        i += 1;
    }
    assert(all.take(i as int) =~= all);
    buffer_into_vec(buffer)
}

/// What the front of `bytes` holds as one entry, and how many bytes that
/// entry takes up.
pub open spec fn parsed_entry(bytes: Seq<u8>) -> Result<(EntrySpec, int), StoreError> {
    let nul = first_index(bytes, NUL);
    let segment = bytes.take(nul);
    let space = first_index(segment, SPACE);
    let mode_text = segment.take(space);
    if nul >= bytes.len() || space >= segment.len() {
        Err(StoreError::MalformedTreeEntry)
    } else if !is_octal(mode_text) || octal_value(mode_text) > u32::MAX {
        Err(StoreError::MalformedTreeEntry)
    } else if bytes.len() - (nul + 1) < ID_LEN {
        Err(StoreError::TruncatedTree)
    } else {
        Ok(
            (
                EntrySpec {
                    mode: octal_value(mode_text),
                    name: segment.skip(space + 1),
                    target: bytes.subrange(nul + 1, nul + 1 + ID_LEN),
                },
                nul + 1 + ID_LEN,
            ),
        )
    }
}

/// The entries that `bytes` holds within its first `declared` bytes, in
/// the order stored. Reading stops when the entries read take up exactly
/// `declared` bytes.
pub open spec fn parsed_tree(bytes: Seq<u8>, declared: nat) -> Result<Seq<EntrySpec>, StoreError>
    decreases declared,
{
    if declared == 0 {
        Ok(Seq::empty())
    } else if bytes.len() == 0 {
        Err(StoreError::TruncatedTree)
    } else {
        match parsed_entry(bytes) {
            Err(e) => Err(e),
            Ok((entry, used)) => {
                if used > declared {
                    Err(StoreError::TrailingTreeBytes)
                } else {
                    proof {
                        lemma_first_index(bytes, NUL);
                    }
                    match parsed_tree(bytes.skip(used), (declared - used) as nat) {
                        Err(e) => Err(e),
                        Ok(rest) => Ok(seq![entry] + rest),
                    }
                }
            },
        }
    }
}

/// The number of bytes that each entry read by `parsed_tree` takes up, in
/// the order stored.
pub open spec fn parsed_spans(bytes: Seq<u8>, declared: nat) -> Seq<int>
    decreases declared,
{
    if declared == 0 || bytes.len() == 0 {
        Seq::empty()
    } else {
        match parsed_entry(bytes) {
            Err(e) => Seq::empty(),
            Ok((entry, used)) => {
                if used > declared {
                    Seq::empty()
                } else {
                    proof {
                        lemma_first_index(bytes, NUL);
                    }
                    seq![used] + parsed_spans(bytes.skip(used), (declared - used) as nat)
                }
            },
        }
    }
}

/// Entries read so far, followed by what reading the rest gives.
spec fn entries_then(
    front: Seq<EntrySpec>,
    rest: Result<Seq<EntrySpec>, StoreError>,
) -> Result<Seq<EntrySpec>, StoreError> {
    match rest {
        Ok(entries) => Ok(front + entries),
        Err(e) => Err(e),
    }
}

/// Reads one entry from `bytes` at `start`.
fn parse_entry(bytes: &[u8], start: usize) -> (res: Result<(TreeEntry, usize), StoreError>)
    requires
        start <= bytes@.len(),
    ensures
        match res {
            Ok((entry, used)) => {
                &&& parsed_entry(bytes@.skip(start as int)) == Ok::<(EntrySpec, int), StoreError>(
                    (entry@, used as int),
                )
                &&& ID_LEN < used
                &&& start + used <= bytes@.len()
            },
            Err(e) => parsed_entry(bytes@.skip(start as int)) == Err::<
                (EntrySpec, int),
                StoreError,
            >(e),
        },
{
    let ghost rest = bytes@.skip(start as int);
    let nul = find_byte(bytes, start, NUL);
    if nul >= bytes.len() - start {
        return Err(StoreError::MalformedTreeEntry);
    }
    let segment = slice_subrange(bytes, start, start + nul);
    assert(segment@ =~= rest.take(nul as int));
    let space = find_byte(segment, 0, SPACE);
    assert(segment@.skip(0) =~= segment@);
    if space >= segment.len() {
        return Err(StoreError::MalformedTreeEntry);
    }
    let mode_text = slice_subrange(segment, 0, space);
    assert(mode_text@ =~= segment@.take(space as int));
    let mode = match parse_octal(mode_text) {
        Some(mode) => mode,
        None => {
            return Err(StoreError::MalformedTreeEntry);
        },
    };
    if bytes.len() - start - (nul + 1) < ID_LEN {
        return Err(StoreError::TruncatedTree);
    }
    let name = slice_to_vec(slice_subrange(segment, space + 1, segment.len()));
    assert(name@ =~= segment@.skip(space + 1));
    let at: usize = start + nul + 1;
    let mut target: [u8; 20] = [0u8; 20];
    let mut i: usize = 0;
    while i < ID_LEN
        invariant
            i <= ID_LEN,
            at + ID_LEN <= bytes.len(),
            forall|j: int| 0 <= j < i ==> target@[j] == bytes@[at + j],
        decreases ID_LEN - i,
    {
        target[i] = bytes[at + i];
        i += 1;
    }
    assert(target@ =~= rest.subrange(nul + 1, nul + 1 + ID_LEN));
    Ok((TreeEntry { mode, name, target: Sha1Hash::from_bytes(target) }, nul + 1 + ID_LEN))
}

/// Reads the entries of a tree out of the first `declared` bytes of
/// `payload`, in the order stored.
pub fn parse_tree(payload: &[u8], declared: usize) -> (res: Result<Vec<TreeEntry>, StoreError>)
    ensures
        match res {
            Ok(entries) => parsed_tree(payload@, declared as nat) == Ok::<
                Seq<EntrySpec>,
                StoreError,
            >(entries.deep_view()),
            Err(e) => parsed_tree(payload@, declared as nat) == Err::<Seq<EntrySpec>, StoreError>(
                e,
            ),
        },
{
    let mut entries: Vec<TreeEntry> = Vec::new();
    let mut consumed: usize = 0;
    assert(payload@.skip(0) =~= payload@);
    assert(Seq::<EntrySpec>::empty() + Seq::<EntrySpec>::empty() =~= Seq::<EntrySpec>::empty());
    while consumed < declared
        invariant
            consumed <= declared,
            consumed <= payload@.len(),
            parsed_tree(payload@, declared as nat) == entries_then(
                entries.deep_view(),
                parsed_tree(payload@.skip(consumed as int), (declared - consumed) as nat),
            ),
        decreases declared - consumed,
    {
        if consumed == payload.len() {
            return Err(StoreError::TruncatedTree);
        }
        match parse_entry(payload, consumed) {
            Err(e) => {
                return Err(e);
            },
            Ok((entry, used)) => {
                if used > declared - consumed {
                    return Err(StoreError::TrailingTreeBytes);
                }
                proof {
                    let ghost rest = payload@.skip(consumed as int);
                    assert(rest.skip(used as int) =~= payload@.skip(consumed + used));
                    let after = parsed_tree(
                        payload@.skip(consumed + used),
                        (declared - consumed - used) as nat,
                    );
                    if let Ok(more) = after {
                        assert(entries.deep_view() + (seq![entry@] + more)
                            =~= entries.deep_view().push(entry@) + more);
                    }
                }
                let ghost front = entries.deep_view();
                entries.push(entry);
                assert(entries.deep_view() =~= front.push(entry@));
                consumed += used;
            },
        }
    }
    assert(entries.deep_view() + Seq::<EntrySpec>::empty() =~= entries.deep_view());
    Ok(entries)
}

/// An entry that a payload can carry and a reader gets back: the mode fits
/// 32 bits, the name holds no NUL, the identifier has 20 bytes.
pub open spec fn entry_is_storable(entry: EntrySpec) -> bool {
    &&& entry.mode <= u32::MAX
    &&& forall|i: int| 0 <= i < entry.name.len() ==> entry.name[i] != NUL
    &&& entry.target.len() == ID_LEN
}

/// The sum of the numbers in `spans`.
pub open spec fn total(spans: Seq<int>) -> int
    decreases spans.len(),
{
    if spans.len() == 0 {
        0
    } else {
        spans[0] + total(spans.drop_first())
    }
}

/// The payload of a tree starts with the bytes of its first entry.
pub proof fn lemma_tree_payload_front(first: EntrySpec, rest: Seq<EntrySpec>)
    ensures
        tree_payload(seq![first] + rest) == entry_bytes(first) + tree_payload(rest),
    decreases rest.len(),
{
    let all = seq![first] + rest;
    if rest.len() == 0 {
        assert(all.drop_last() =~= Seq::<EntrySpec>::empty());
        assert(all.last() == first);
        assert(tree_payload(all.drop_last()) =~= Seq::<u8>::empty());
        assert(tree_payload(all) =~= entry_bytes(first) + tree_payload(rest));
    } else {
        lemma_tree_payload_front(first, rest.drop_last());
        assert(all.drop_last() =~= seq![first] + rest.drop_last());
        assert(all.last() == rest.last());
        assert(tree_payload(all) =~= entry_bytes(first) + tree_payload(rest));
    }
}

/// The bytes of a storable entry, whatever follows them, read back as
/// that entry and as long as they are.
pub proof fn lemma_parse_entry_bytes(entry: EntrySpec, after: Seq<u8>)
    requires
        entry_is_storable(entry),
    ensures
        parsed_entry(entry_bytes(entry) + after) == Ok::<(EntrySpec, int), StoreError>(
            (entry, entry_bytes(entry).len() as int),
        ),
{
    let digits = octal_digits(entry.mode);
    let bytes = entry_bytes(entry) + after;
    let nul: int = (digits.len() + 1 + entry.name.len()) as int;
    lemma_octal_round_trip(entry.mode);
    assert forall|j: int| 0 <= j < nul implies bytes[j] != NUL by {
        if j < digits.len() {
            assert(bytes[j] == digits[j]);
        } else if j > digits.len() {
            assert(bytes[j] == entry.name[j - digits.len() - 1]);
        }
    }
    assert(bytes[nul] == NUL);
    lemma_first_index_is(bytes, NUL, nul);
    let segment = bytes.take(nul);
    assert(segment =~= digits + seq![SPACE] + entry.name);
    assert forall|j: int| 0 <= j < digits.len() implies segment[j] != SPACE by {
        assert(segment[j] == digits[j]);
    }
    lemma_first_index_is(segment, SPACE, digits.len() as int);
    assert(segment.take(digits.len() as int) =~= digits);
    assert(segment.skip(digits.len() as int + 1) =~= entry.name);
    assert(bytes.subrange(nul + 1, nul + 1 + ID_LEN) =~= entry.target);
    assert(entry_bytes(entry).len() == nul + 1 + ID_LEN);
    let read = EntrySpec {
        mode: octal_value(segment.take(digits.len() as int)),
        name: segment.skip(digits.len() as int + 1),
        target: bytes.subrange(nul + 1, nul + 1 + ID_LEN),
    };
    assert(read == entry);
}

/// Reading back: the payload written for storable entries, read with its
/// own length declared, gives those entries in the order written.
pub proof fn lemma_parse_tree_payload(entries: Seq<EntrySpec>)
    requires
        forall|i: int| 0 <= i < entries.len() ==> entry_is_storable(#[trigger] entries[i]),
    ensures
        parsed_tree(tree_payload(entries), tree_payload(entries).len()) == Ok::<
            Seq<EntrySpec>,
            StoreError,
        >(entries),
    decreases entries.len(),
{
    if entries.len() == 0 {
        assert(tree_payload(entries).len() == 0);
        assert(entries =~= Seq::<EntrySpec>::empty());
    } else {
        let first = entries[0];
        let rest = entries.drop_first();
        assert(entries =~= seq![first] + rest);
        lemma_tree_payload_front(first, rest);
        let payload = tree_payload(entries);
        let used = entry_bytes(first).len() as int;
        assert(entry_is_storable(first));
        lemma_parse_entry_bytes(first, tree_payload(rest));
        assert forall|i: int| 0 <= i < rest.len() implies entry_is_storable(
            #[trigger] rest[i],
        ) by {
            assert(rest[i] == entries[i + 1]);
        }
        lemma_parse_tree_payload(rest);
        assert(payload.skip(used) =~= tree_payload(rest));
        assert(payload.len() - used == tree_payload(rest).len());
        assert(payload == entry_bytes(first) + tree_payload(rest));
        assert(parsed_entry(payload) == Ok::<(EntrySpec, int), StoreError>((first, used)));
        assert(parsed_tree(payload.skip(used), (payload.len() - used) as nat) == Ok::<
            Seq<EntrySpec>,
            StoreError,
        >(rest));
    }
}

/// Where reading succeeds, the bytes that the entries take up add up to
/// the declared length exactly, and one span is counted for each entry.
pub proof fn lemma_parsed_tree_spans(bytes: Seq<u8>, declared: nat)
    requires
        parsed_tree(bytes, declared) is Ok,
    ensures
        total(parsed_spans(bytes, declared)) == declared,
        parsed_spans(bytes, declared).len() == parsed_tree(bytes, declared).unwrap().len(),
        declared <= bytes.len(),
    decreases declared,
{
    if declared > 0 {
        lemma_first_index(bytes, NUL);
        let used = parsed_entry(bytes).unwrap().1;
        let spans = parsed_spans(bytes, declared);
        let rest = parsed_spans(bytes.skip(used), (declared - used) as nat);
        lemma_parsed_tree_spans(bytes.skip(used), (declared - used) as nat);
        assert(spans =~= seq![used] + rest);
        assert(spans.drop_first() =~= rest);
    }
}

/// A payload that is cut short of its declared length, by one byte or by
/// more, does not read as a tree.
pub proof fn lemma_truncated_tree_fails(bytes: Seq<u8>, declared: nat, kept: int)
    requires
        parsed_tree(bytes, declared) is Ok,
        0 <= kept < declared,
    ensures
        parsed_tree(bytes.take(kept), declared) is Err,
    decreases declared,
{
    lemma_parsed_tree_spans(bytes, declared);
    let cut = bytes.take(kept);
    if kept > 0 {
        lemma_first_index(bytes, NUL);
        let nul = first_index(bytes, NUL);
        let used = nul + 1 + ID_LEN;
        if kept <= nul {
            lemma_first_index_is(cut, NUL, kept);
        } else {
            lemma_first_index_is(cut, NUL, nul);
            assert(cut.take(nul) =~= bytes.take(nul));
            if kept >= used {
                assert(cut.subrange(nul + 1, nul + 1 + ID_LEN) =~= bytes.subrange(
                    nul + 1,
                    nul + 1 + ID_LEN,
                ));
                assert(parsed_entry(cut) == parsed_entry(bytes));
                assert(cut.skip(used) =~= bytes.skip(used).take(kept - used));
                lemma_truncated_tree_fails(
                    bytes.skip(used),
                    (declared - used) as nat,
                    kept - used,
                );
            }
        }
    }
}

} // verus!
