//! Object identifiers: SHA-1 digests and their hexadecimal text.

use sha1::{Digest, Sha1};
use vstd::prelude::*;

use crate::error::StoreError;
use crate::hexcode::{
    decode_hex, encode_hex, hex_decoded, hex_digits, hex_text, is_hex_text, lemma_hex_round_trip,
    lemma_hex_text_ascii,
};
use crate::text::ascii_bytes;

verus! {

/// The SHA-1 digest of a byte sequence.
pub uninterp spec fn sha1_digest(data: Seq<u8>) -> Seq<u8>;

/// `Sha1::new`, `update`, `finalize` of the `sha1` crate: the 20 bytes of
/// the SHA-1 digest of `data`.
#[verifier::external_body]
fn sha1_of(data: &[u8]) -> (digest: [u8; 20])
    ensures
        digest@ == sha1_digest(data@),
{
    let mut hasher = Sha1::new();
    hasher.update(data);
    hasher.finalize().into()
}

/// An object identifier: 20 bytes.
#[derive(Debug, Clone, Copy, PartialEq, Eq, Hash)]
pub struct Sha1Hash([u8; 20]);

impl View for Sha1Hash {
    type V = Seq<u8>;

    closed spec fn view(&self) -> Seq<u8> {
        self.0@
    }
}

/// Text that names an identifier: exactly 40 hexadecimal characters.
pub open spec fn is_identifier_text(text: Seq<char>) -> bool {
    text.len() == 40 && is_hex_text(text)
}

impl Sha1Hash {
    /// Every identifier holds 20 bytes.
    pub proof fn lemma_len(self)
        ensures
            self@.len() == 20,
    {
    }

    /// The canonical text of an identifier is identifier text, and reads
    /// back as the identifier.
    pub proof fn lemma_text_round_trip(self)
        ensures
            is_identifier_text(hex_text(self@)),
            hex_decoded(hex_text(self@)) == self@,
    {
        lemma_hex_round_trip(self@);
        lemma_hex_text_ascii(self@);
    }

    /// The identifier of `data`: its SHA-1 digest.
    pub fn hash(data: &[u8]) -> (id: Sha1Hash)
        ensures
            id@ == sha1_digest(data@),
    {
        Sha1Hash(sha1_of(data))
    }

    /// The identifier that holds the given bytes.
    pub fn from_bytes(bytes: [u8; 20]) -> (id: Sha1Hash)
        ensures
            id@ == bytes@,
    {
        Sha1Hash(bytes)
    }

    /// The 20 bytes of the identifier.
    pub fn as_bytes(&self) -> (bytes: &[u8])
        ensures
            bytes@ == self@,
    {
        self.0.as_slice()
    }

    /// The byte at `index`.
    pub fn byte(&self, index: usize) -> (b: u8)
        requires
            index < 20,
        ensures
            b == self@[index as int],
    {
        self.0[index]
    }

    /// Whether two identifiers hold the same bytes.
    pub fn same_as(&self, other: &Sha1Hash) -> (same: bool)
        ensures
            same == (self@ == other@),
    {
        let mut i: usize = 0;
        while i < 20
            invariant
                i <= 20,
                forall|j: int| 0 <= j < i ==> self@[j] == other@[j],
            decreases 20 - i,
        {
            if self.0[i] != other.0[i] {
                return false;
            }
            i += 1;
        }
        assert(self@ =~= other@);
        true
    }

    /// The canonical text of the identifier: 40 lower-case hexadecimal
    /// characters.
    pub fn to_hex(&self) -> (text: String)
        ensures
            text@ == hex_text(self@),
    {
        encode_hex(self.0.as_slice())
    }

    /// The canonical text of the identifier as ASCII bytes.
    pub fn to_hex_bytes(&self) -> (text: Vec<u8>)
        ensures
            text@ == hex_digits(self@),
    {
        let text = self.to_hex();
        proof {
            lemma_hex_text_ascii(self@);
        }
        let bytes = vstd::slice::slice_to_vec(ascii_bytes(text.as_str()));
        assert(bytes@ =~= hex_digits(self@));
        bytes
    }

    /// Reads an identifier from text. Text that is not exactly 40
    /// hexadecimal characters is rejected.
    pub fn from_hex(text: &str) -> (res: Result<Sha1Hash, StoreError>)
        ensures
            res is Ok <==> is_identifier_text(text@),
            res matches Ok(id) ==> id@ == hex_decoded(text@),
            res matches Err(e) ==> e == StoreError::InvalidIdentifier,
    {
        match decode_hex(text) {
            Ok(decoded) => {
                if decoded.len() != 20 {
                    return Err(StoreError::InvalidIdentifier);
                }
                let mut bytes: [u8; 20] = [0u8; 20];
                let mut i: usize = 0;
                while i < 20
                    invariant
                        i <= 20,
                        decoded@.len() == 20,
                        forall|j: int| 0 <= j < i ==> bytes@[j] == decoded@[j],
                    decreases 20 - i,
                {
                    bytes[i] = decoded[i];
                    i += 1;
                }
                assert(bytes@ =~= decoded@);
                Ok(Sha1Hash(bytes))
            },
            Err(_) => Err(StoreError::InvalidIdentifier),
        }
    }
}

impl std::str::FromStr for Sha1Hash {
    type Err = StoreError;

    /// Reads an identifier from text, as `from_hex` does.
    fn from_str(text: &str) -> (res: Result<Sha1Hash, StoreError>)
        ensures
            res is Ok <==> is_identifier_text(text@),
            res matches Ok(id) ==> id@ == hex_decoded(text@),
            res matches Err(e) ==> e == StoreError::InvalidIdentifier,
    {
        Sha1Hash::from_hex(text)
    }
}

impl AsRef<[u8]> for Sha1Hash {
    /// The 20 bytes of the identifier, as `as_bytes` gives them.
    fn as_ref(&self) -> (bytes: &[u8])
        ensures
            bytes@ == self@,
    {
        self.as_bytes()
    }
}

} // verus!
