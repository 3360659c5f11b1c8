//! Commit composer: the payload of a commit and its storing.

use vstd::prelude::*;

use crate::codec::{envelope, object_id, ObjectKind, LINE_FEED};
use crate::deflate::zlib_deflated;
use crate::error::StoreError;
use crate::hexcode::hex_digits;
use crate::sha1hash::Sha1Hash;
use crate::store::{stored_object, written, ObjectStore};
use crate::text::{append_bytes, ascii, ascii_bytes};

verus! {

/// The line that names the parent, with its line end; nothing where there
/// is no parent.
pub open spec fn parent_line(parent: Option<Seq<u8>>) -> Seq<u8> {
    match parent {
        Some(id) => ascii("parent "@) + hex_digits(id) + seq![LINE_FEED],
        None => Seq::empty(),
    }
}

/// The payload of a commit: the `tree` line, the `parent` line where there
/// is a parent, the `author` line, the `committer` line, an empty line,
/// the message, a line end.
pub open spec fn commit_payload(
    tree: Seq<u8>,
    parent: Option<Seq<u8>>,
    message: Seq<u8>,
    author: Seq<u8>,
    committer: Seq<u8>,
) -> Seq<u8> {
    ascii("tree "@) + hex_digits(tree) + seq![LINE_FEED] + parent_line(parent) + ascii("author "@)
        + author + seq![LINE_FEED] + ascii("committer "@) + committer + seq![LINE_FEED]
        + seq![LINE_FEED] + message + seq![LINE_FEED]
}

/// The bytes of the parent's identifier, where there is a parent.
pub open spec fn parent_view(parent: Option<Sha1Hash>) -> Option<Seq<u8>> {
    match parent {
        Some(id) => Some(id@),
        None => None,
    }
}

/// Writes the payload of a commit.
pub fn render_commit(
    tree: &Sha1Hash,
    parent: Option<Sha1Hash>,
    message: &[u8],
    author: &[u8],
    committer: &[u8],
) -> (payload: Vec<u8>)
    ensures
        payload@ == commit_payload(tree@, parent_view(parent), message@, author@, committer@),
{
    proof {
        reveal_strlit("tree ");
        reveal_strlit("parent ");
        reveal_strlit("author ");
        reveal_strlit("committer ");
    }
    let mut payload: Vec<u8> = Vec::new();
    append_bytes(&mut payload, ascii_bytes("tree "));
    append_bytes(&mut payload, tree.to_hex_bytes().as_slice());
    payload.push(LINE_FEED);
    match parent {
        Some(id) => {
            append_bytes(&mut payload, ascii_bytes("parent "));
            append_bytes(&mut payload, id.to_hex_bytes().as_slice());
            payload.push(LINE_FEED);
        },
        None => {},
    }
    assert(payload@ =~= ascii("tree "@) + hex_digits(tree@) + seq![LINE_FEED] + parent_line(
        parent_view(parent),
    ));
    append_bytes(&mut payload, ascii_bytes("author "));
    append_bytes(&mut payload, author);
    payload.push(LINE_FEED);
    append_bytes(&mut payload, ascii_bytes("committer "));
    append_bytes(&mut payload, committer);
    payload.push(LINE_FEED);
    payload.push(LINE_FEED);
    append_bytes(&mut payload, message);
    payload.push(LINE_FEED);
    assert(payload@ =~= commit_payload(
        tree@,
        parent_view(parent),
        message@,
        author@,
        committer@,
    ));
    payload
}

/// Composes a commit and stores it. Whether the tree and the parent are in
/// the store is not looked at.
pub fn compose(
    store: &mut ObjectStore,
    tree: &Sha1Hash,
    parent: Option<Sha1Hash>,
    message: &[u8],
    author: &[u8],
    committer: &[u8],
) -> (res: Result<Sha1Hash, StoreError>)
    ensures
        ({
            let payload = commit_payload(
                tree@,
                parent_view(parent),
                message@,
                author@,
                committer@,
            );
            &&& final(store)@ == written(old(store)@, ObjectKind::Commit, payload)
            &&& match res {
                Ok(id) => {
                    &&& id@ == object_id(ObjectKind::Commit, payload)
                    &&& zlib_deflated(envelope(ObjectKind::Commit, payload)) is Some
                    &&& stored_object(final(store)@, id@) == Ok::<
                        (ObjectKind, Seq<u8>),
                        StoreError,
                    >((ObjectKind::Commit, payload))
                },
                Err(e) => {
                    &&& e == StoreError::CompressionFailed
                    &&& zlib_deflated(envelope(ObjectKind::Commit, payload)) is None
                },
            }
        }),
{
    let payload = render_commit(tree, parent, message, author, committer);
    store.write(ObjectKind::Commit, payload.as_slice())
}

} // verus!
