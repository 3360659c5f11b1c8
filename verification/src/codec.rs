//! Object codec: the envelope of an object, its identifier, and the
//! reading of an envelope.

use vstd::prelude::*;
use vstd::slice::{slice_subrange, slice_to_vec};

use crate::buffer::{buffer_bytes, buffer_into_vec, buffer_new, buffer_put_slice, buffer_put_u8};
use crate::digits::{
    decimal_digits, decimal_value, format_decimal, is_decimal, lemma_decimal_round_trip,
    parse_decimal,
};
use crate::error::StoreError;
use crate::scan::{bytes_equal, find_byte, first_index, lemma_first_index_is};
use crate::sha1hash::{sha1_digest, Sha1Hash};
use crate::text::{ascii, ascii_bytes};

verus! {

/// The byte that ends the header of an envelope and each tree entry's name.
pub const NUL: u8 = 0;

/// The byte between the words of a header.
pub const SPACE: u8 = 32;

/// The byte that ends a line.
pub const LINE_FEED: u8 = 10;

/// What an object holds.
#[derive(Debug, Clone, Copy, PartialEq, Eq, Structural)]
pub enum ObjectKind {
    /// Raw file content.
    Blob,
    /// A directory snapshot.
    Tree,
    /// A commit.
    Commit,
}

impl ObjectKind {
    /// The kind's label in a header: `blob`, `tree` or `commit` in ASCII.
    pub open spec fn label(self) -> Seq<u8> {
        match self {
            ObjectKind::Blob => ascii("blob"@),
            ObjectKind::Tree => ascii("tree"@),
            ObjectKind::Commit => ascii("commit"@),
        }
    }

    /// The kind that a label names, if any.
    pub open spec fn of_label(label: Seq<u8>) -> Option<ObjectKind> {
        if label == ObjectKind::Blob.label() {
            Some(ObjectKind::Blob)
        } else if label == ObjectKind::Tree.label() {
            Some(ObjectKind::Tree)
        } else if label == ObjectKind::Commit.label() {
            Some(ObjectKind::Commit)
        } else {
            None
        }
    }

    /// The label as bytes.
    pub fn label_bytes(self) -> (label: &'static [u8])
        ensures
            label@ == self.label(),
    {
        proof {
            reveal_strlit("blob");
            reveal_strlit("tree");
            reveal_strlit("commit");
        }
        match self {
            ObjectKind::Blob => ascii_bytes("blob"),
            ObjectKind::Tree => ascii_bytes("tree"),
            ObjectKind::Commit => ascii_bytes("commit"),
        }
    }

    /// Reads a label.
    pub fn from_label(label: &[u8]) -> (kind: Option<ObjectKind>)
        ensures
            kind == ObjectKind::of_label(label@),
    {
        if bytes_equal(label, ObjectKind::Blob.label_bytes()) {
            Some(ObjectKind::Blob)
        } else if bytes_equal(label, ObjectKind::Tree.label_bytes()) {
            Some(ObjectKind::Tree)
        } else if bytes_equal(label, ObjectKind::Commit.label_bytes()) {
            Some(ObjectKind::Commit)
        } else {
            None
        }
    }
}

/// The header of an envelope: label, space, the payload's length in
/// decimal, NUL.
pub open spec fn header(kind: ObjectKind, length: nat) -> Seq<u8> {
    kind.label() + seq![SPACE] + decimal_digits(length) + seq![NUL]
}

/// The envelope of an object: its header, then the payload.
pub open spec fn envelope(kind: ObjectKind, payload: Seq<u8>) -> Seq<u8> {
    header(kind, payload.len()) + payload
}

/// The identifier of an object: the digest of its envelope.
pub open spec fn object_id(kind: ObjectKind, payload: Seq<u8>) -> Seq<u8> {
    sha1_digest(envelope(kind, payload))
}

/// Builds the envelope of an object and computes its identifier.
pub fn encode(kind: ObjectKind, payload: &[u8]) -> (res: (Sha1Hash, Vec<u8>))
    ensures
        res.0@ == object_id(kind, payload@),
        res.1@ == envelope(kind, payload@),
{
    let mut buffer = buffer_new();
    buffer_put_slice(&mut buffer, kind.label_bytes());
    buffer_put_u8(&mut buffer, SPACE);
    buffer_put_slice(&mut buffer, format_decimal(payload.len()).as_slice());
    buffer_put_u8(&mut buffer, NUL);
    buffer_put_slice(&mut buffer, payload);
    assert(buffer_bytes(buffer) =~= envelope(kind, payload@));
    let bytes = buffer_into_vec(buffer);
    let id = Sha1Hash::hash(bytes.as_slice());
    (id, bytes)
}

/// What the header of an envelope says: the kind, the declared length of
/// the payload and the index at which the payload starts.
pub open spec fn decoded_header(bytes: Seq<u8>) -> Result<(ObjectKind, nat, int), StoreError> {
    let nul = first_index(bytes, NUL);
    let head = bytes.take(nul);
    let space = first_index(head, SPACE);
    if nul >= bytes.len() || space >= head.len() {
        Err(StoreError::MalformedHeader)
    } else {
        match ObjectKind::of_label(head.take(space)) {
            None => Err(StoreError::MalformedHeader),
            Some(kind) => {
                let digits = head.skip(space + 1);
                if is_decimal(digits) {
                    Ok((kind, decimal_value(digits), nul + 1))
                } else {
                    Err(StoreError::MalformedHeader)
                }
            },
        }
    }
}

/// The object that an envelope holds: the kind, and as many bytes after
/// the header as the header declares. Bytes beyond those count for nothing.
pub open spec fn decoded(bytes: Seq<u8>) -> Result<(ObjectKind, Seq<u8>), StoreError> {
    match decoded_header(bytes) {
        Err(e) => Err(e),
        Ok((kind, length, start)) => {
            if bytes.len() - start < length {
                Err(StoreError::TruncatedOrCorruptObject)
            } else {
                Ok((kind, bytes.subrange(start, start + length)))
            }
        },
    }
}

/// Reads the header of an envelope. A declared length beyond `usize` is
/// given as `usize::MAX`.
pub fn decode_header(bytes: &[u8]) -> (res: Result<(ObjectKind, usize, usize), StoreError>)
    ensures
        match res {
            Ok((kind, length, start)) => {
                &&& decoded_header(bytes@) matches Ok((k, n, s))
                &&& kind == k
                &&& start == s
                &&& 1 <= start <= bytes@.len()
                &&& length == if n <= usize::MAX {
                    n
                } else {
                    usize::MAX as nat
                }
            },
            Err(e) => decoded_header(bytes@) == Err::<(ObjectKind, nat, int), StoreError>(e),
        },
{
    let nul = find_byte(bytes, 0, NUL);
    assert(bytes@.skip(0) =~= bytes@);
    if nul >= bytes.len() {
        return Err(StoreError::MalformedHeader);
    }
    let head = slice_subrange(bytes, 0, nul);
    assert(head@ =~= bytes@.take(nul as int));
    let space = find_byte(head, 0, SPACE);
    assert(head@.skip(0) =~= head@);
    if space >= head.len() {
        return Err(StoreError::MalformedHeader);
    }
    let label = slice_subrange(head, 0, space);
    assert(label@ =~= head@.take(space as int));
    let digits = slice_subrange(head, space + 1, head.len());
    assert(digits@ =~= head@.skip(space + 1));
    match ObjectKind::from_label(label) {
        None => Err(StoreError::MalformedHeader),
        Some(kind) => match parse_decimal(digits) {
            None => Err(StoreError::MalformedHeader),
            Some(length) => Ok((kind, length, nul + 1)),
        },
    }
}

/// Reads an envelope: the kind and the payload that the header declares.
pub fn decode(bytes: &[u8]) -> (res: Result<(ObjectKind, Vec<u8>), StoreError>)
    ensures
        match res {
            Ok((kind, payload)) => decoded(bytes@) == Ok::<(ObjectKind, Seq<u8>), StoreError>(
                (kind, payload@),
            ),
            Err(e) => decoded(bytes@) == Err::<(ObjectKind, Seq<u8>), StoreError>(e),
        },
{
    match decode_header(bytes) {
        Err(e) => Err(e),
        Ok((kind, length, start)) => {
            if bytes.len() - start < length {
                Err(StoreError::TruncatedOrCorruptObject)
            } else {
                let payload = slice_to_vec(slice_subrange(bytes, start, start + length));
                Ok((kind, payload))
            }
        },
    }
}

/// Decoding the envelope of an object gives the object back, byte for
/// byte, whatever bytes follow the envelope.
pub proof fn lemma_decode_envelope(kind: ObjectKind, payload: Seq<u8>, surplus: Seq<u8>)
    ensures
        decoded(envelope(kind, payload) + surplus) == Ok::<(ObjectKind, Seq<u8>), StoreError>(
            (kind, payload),
        ),
        decoded_header(envelope(kind, payload) + surplus) == Ok::<
            (ObjectKind, nat, int),
            StoreError,
        >((kind, payload.len(), header(kind, payload.len()).len() as int)),
{
    reveal_strlit("blob");
    reveal_strlit("tree");
    reveal_strlit("commit");
    let label = kind.label();
    let digits = decimal_digits(payload.len());
    let bytes = envelope(kind, payload) + surplus;
    let nul: int = (label.len() + 1 + digits.len()) as int;
    lemma_decimal_round_trip(payload.len());
    assert forall|j: int| 0 <= j < nul implies bytes[j] != NUL by {
        if j > label.len() {
            assert(bytes[j] == digits[j - label.len() - 1]);
        }
    }
    assert(bytes[nul] == NUL);
    lemma_first_index_is(bytes, NUL, nul);
    let head = bytes.take(nul);
    assert(head =~= label + seq![SPACE] + digits);
    lemma_first_index_is(head, SPACE, label.len() as int);
    assert(head.take(label.len() as int) =~= label);
    assert(head.skip(label.len() as int + 1) =~= digits);
    assert(ObjectKind::of_label(label) == Some(kind)) by {
        assert(ObjectKind::Blob.label().len() == 4);
        assert(ObjectKind::Tree.label().len() == 4);
        assert(ObjectKind::Commit.label().len() == 6);
        assert(ObjectKind::Blob.label()[0] != ObjectKind::Tree.label()[0]);
    }
    assert(bytes.subrange(nul + 1, nul + 1 + payload.len() as int) =~= payload);
}

/// Encoding is a function of the object: whenever the same kind and
/// payload are encoded, the same identifier and the same envelope come out.
pub proof fn lemma_encode_deterministic(
    kind: ObjectKind,
    payload: &[u8],
    first: (Sha1Hash, Vec<u8>),
    second: (Sha1Hash, Vec<u8>),
)
    requires
        call_ensures(encode, (kind, payload), first),
        call_ensures(encode, (kind, payload), second),
    ensures
        first.0@ == second.0@,
        first.1@ == second.1@,
{
}

} // verus!
