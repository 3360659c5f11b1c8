//! Object store: identifiers mapped to compressed envelopes, and the
//! paths under which the envelopes are kept on disk.

use vstd::prelude::*;
use vstd::string::{StrSliceExecFns, StringExecFns};

use crate::codec::{decode, decoded, encode, envelope, object_id, ObjectKind};
use crate::deflate::{deflate, inflate, zlib_deflated, zlib_inflated};
use crate::error::StoreError;
use crate::hexcode::{hex_text, lemma_hex_text_ascii};
use crate::sha1hash::Sha1Hash;

verus! {

/// One stored object: its identifier and its compressed envelope.
struct StoredObject {
    id: Sha1Hash,
    bytes: Vec<u8>,
}

/// The objects of a repository held in memory: for each identifier the
/// compressed envelope that is, or is to be, kept under it.
pub struct ObjectStore {
    objects: Vec<StoredObject>,
}

spec fn ids_distinct(objects: Seq<StoredObject>) -> bool {
    forall|i: int, j: int| 0 <= i < j < objects.len() ==> objects[i].id@ != objects[j].id@
}

spec fn objects_map(objects: Seq<StoredObject>) -> Map<Seq<u8>, Seq<u8>>
    decreases objects.len(),
{
    if objects.len() == 0 {
        Map::empty()
    } else {
        objects_map(objects.drop_last()).insert(objects.last().id@, objects.last().bytes@)
    }
}

spec fn holds_id(objects: Seq<StoredObject>, id: Seq<u8>) -> bool {
    exists|i: int| 0 <= i < objects.len() && (#[trigger] objects[i]).id@ == id
}

proof fn lemma_objects_map_dom(objects: Seq<StoredObject>, id: Seq<u8>)
    ensures
        objects_map(objects).dom().contains(id) <==> holds_id(objects, id),
    decreases objects.len(),
{
    if objects.len() > 0 {
        let front = objects.drop_last();
        lemma_objects_map_dom(front, id);
        if holds_id(front, id) {
            let i = choose|i: int| 0 <= i < front.len() && (#[trigger] front[i]).id@ == id;
            assert(objects[i].id@ == id);
        }
        if id == objects.last().id@ {
            assert(objects[objects.len() - 1].id@ == id);
        }
        if holds_id(objects, id) {
            let i = choose|i: int| 0 <= i < objects.len() && (#[trigger] objects[i]).id@ == id;
            if i < front.len() {
                assert(front[i].id@ == id);
            }
        }
    }
}

proof fn lemma_objects_map_at(objects: Seq<StoredObject>, at: int)
    requires
        ids_distinct(objects),
        0 <= at < objects.len(),
    ensures
        objects_map(objects).dom().contains(objects[at].id@),
        objects_map(objects)[objects[at].id@] == objects[at].bytes@,
    decreases objects.len(),
{
    let front = objects.drop_last();
    if at < front.len() {
        assert(ids_distinct(front)) by {
            assert forall|i: int, j: int| 0 <= i < j < front.len() implies front[i].id@
                != front[j].id@ by {
                assert(objects[i].id@ != objects[j].id@);
            }
        }
        lemma_objects_map_at(front, at);
        assert(front[at] == objects[at]);
        assert(objects[at].id@ != objects[objects.len() - 1].id@);
    }
}

proof fn lemma_objects_map_update(before: Seq<StoredObject>, after: Seq<StoredObject>, at: int)
    requires
        0 <= at < before.len(),
        ids_distinct(before),
        after.len() == before.len(),
        after[at].id@ == before[at].id@,
        forall|j: int| 0 <= j < before.len() && j != at ==> after[j] == before[j],
    ensures
        ids_distinct(after),
        objects_map(after) == objects_map(before).insert(before[at].id@, after[at].bytes@),
{
    assert(ids_distinct(after)) by {
        assert forall|i: int, j: int| 0 <= i < j < after.len() implies after[i].id@
            != after[j].id@ by {
            assert(before[i].id@ != before[j].id@);
        }
    }
    let expected = objects_map(before).insert(before[at].id@, after[at].bytes@);
    assert forall|id: Seq<u8>| objects_map(after).dom().contains(id) <==> expected.dom().contains(
        id,
    ) by {
        lemma_objects_map_dom(before, id);
        lemma_objects_map_dom(after, id);
        if holds_id(after, id) {
            let i = choose|i: int| 0 <= i < after.len() && (#[trigger] after[i]).id@ == id;
            assert(before[i].id@ == id);
        }
        if holds_id(before, id) {
            let i = choose|i: int| 0 <= i < before.len() && (#[trigger] before[i]).id@ == id;
            assert(after[i].id@ == id);
        }
        if id == before[at].id@ {
            assert(after[at].id@ == id);
        }
    }
    assert forall|id: Seq<u8>| objects_map(after).dom().contains(id) implies objects_map(
        after,
    )[id] == expected[id] by {
        lemma_objects_map_dom(after, id);
        let i = choose|i: int| 0 <= i < after.len() && (#[trigger] after[i]).id@ == id;
        lemma_objects_map_at(after, i);
        if i != at {
            assert(before[i].id@ != before[at].id@);
            lemma_objects_map_at(before, i);
        }
    }
    assert(objects_map(after) =~= expected);
}

/// The objects after one more is stored: its compressed envelope stands
/// under its identifier, in place of what was there. Where the compressor
/// fails nothing changes.
pub open spec fn written(objects: Map<Seq<u8>, Seq<u8>>, kind: ObjectKind, payload: Seq<u8>) -> Map<
    Seq<u8>,
    Seq<u8>,
> {
    match zlib_deflated(envelope(kind, payload)) {
        Some(stream) => objects.insert(object_id(kind, payload), stream),
        None => objects,
    }
}

/// What reading `id` out of `objects` gives: the stored bytes are
/// decompressed, then decoded.
pub open spec fn stored_object(objects: Map<Seq<u8>, Seq<u8>>, id: Seq<u8>) -> Result<
    (ObjectKind, Seq<u8>),
    StoreError,
> {
    if !objects.dom().contains(id) {
        Err(StoreError::ObjectNotFound)
    } else {
        match zlib_inflated(objects[id]) {
            None => Err(StoreError::CorruptObject),
            Some(bytes) => decoded(bytes),
        }
    }
}

impl View for ObjectStore {
    type V = Map<Seq<u8>, Seq<u8>>;

    closed spec fn view(&self) -> Map<Seq<u8>, Seq<u8>> {
        objects_map(self.objects@)
    }
}

impl ObjectStore {
    #[verifier::type_invariant]
    spec fn well_formed(&self) -> bool {
        ids_distinct(self.objects@)
    }

    /// A store that holds nothing.
    pub fn new() -> (store: ObjectStore)
        ensures
            store@ == Map::<Seq<u8>, Seq<u8>>::empty(),
    {
        ObjectStore { objects: Vec::new() }
    }

    fn position(&self, id: &Sha1Hash) -> (at: Option<usize>)
        ensures
            match at {
                Some(i) => i < self.objects@.len() && self.objects@[i as int].id@ == id@,
                None => forall|j: int| 0 <= j < self.objects@.len() ==> self.objects@[j].id@ != id@,
            },
    {
        let mut i: usize = 0;
        while i < self.objects.len()
            invariant
                i <= self.objects@.len(),
                forall|j: int| 0 <= j < i ==> self.objects@[j].id@ != id@,
            decreases self.objects@.len() - i,
        {
            if self.objects[i].id.same_as(id) {
                return Some(i);
            }
            i += 1;
        }
        None
    }

    /// Whether an object is stored under `id`.
    pub fn contains(&self, id: &Sha1Hash) -> (found: bool)
        ensures
            found == self@.dom().contains(id@),
    {
        let at = self.position(id);
        proof {
            lemma_objects_map_dom(self.objects@, id@);
            if let Some(i) = at {
                assert(self.objects@[i as int].id@ == id@);
            }
        }
        at.is_some()
    }

    /// The identifiers under which the store holds an object, each once.
    pub fn ids(&self) -> (ids: Vec<Sha1Hash>)
        ensures
            forall|id: Seq<u8>|
                self@.dom().contains(id) <==> exists|i: int|
                    0 <= i < ids@.len() && #[trigger] ids@[i]@ == id,
            forall|i: int, j: int| 0 <= i < j < ids@.len() ==> ids@[i]@ != ids@[j]@,
    {
        let mut ids: Vec<Sha1Hash> = Vec::new();
        let mut i: usize = 0;
        while i < self.objects.len()
            invariant
                i <= self.objects@.len(),
                ids@.len() == i,
                forall|j: int| 0 <= j < i ==> ids@[j]@ == self.objects@[j].id@,
            decreases self.objects@.len() - i,
        {
            ids.push(self.objects[i].id);
            i += 1;
        }
        proof {
            use_type_invariant(self);
            assert forall|id: Seq<u8>|
                self@.dom().contains(id) <==> exists|i: int|
                    0 <= i < ids@.len() && #[trigger] ids@[i]@ == id by {
                lemma_objects_map_dom(self.objects@, id);
                if holds_id(self.objects@, id) {
                    let k = choose|k: int|
                        0 <= k < self.objects@.len() && (#[trigger] self.objects@[k]).id@ == id;
                    assert(ids@[k]@ == id);
                }
                if exists|i: int| 0 <= i < ids@.len() && #[trigger] ids@[i]@ == id {
                    let k = choose|k: int| 0 <= k < ids@.len() && #[trigger] ids@[k]@ == id;
                    assert(self.objects@[k].id@ == id);
                }
            }
            assert forall|i: int, j: int| 0 <= i < j < ids@.len() implies ids@[i]@ != ids@[j]@ by {
                assert(self.objects@[i].id@ != self.objects@[j].id@);
            }
        }
        ids
    }

    /// The compressed bytes stored under `id`, if any.
    pub fn compressed(&self, id: &Sha1Hash) -> (bytes: Option<Vec<u8>>)
        ensures
            match bytes {
                Some(b) => self@.dom().contains(id@) && b@ == self@[id@],
                None => !self@.dom().contains(id@),
            },
    {
        proof {
            use_type_invariant(self);
            lemma_objects_map_dom(self.objects@, id@);
        }
        match self.position(id) {
            Some(i) => {
                proof {
                    lemma_objects_map_at(self.objects@, i as int);
                }
                Some(self.objects[i].bytes.clone())
            },
            None => None,
        }
    }

    /// Puts compressed bytes under `id`, in place of what was there.
    pub fn insert_compressed(&mut self, id: Sha1Hash, bytes: Vec<u8>)
        ensures
            final(self)@ == old(self)@.insert(id@, bytes@),
    {
        proof {
            use_type_invariant(&*self);
        }
        let at = self.position(&id);
        let mut objects: Vec<StoredObject> = Vec::new();
        core::mem::swap(&mut self.objects, &mut objects);
        let ghost before = objects@;
        match at {
            Some(i) => {
                objects[i] = StoredObject { id, bytes };
                proof {
                    lemma_objects_map_update(before, objects@, i as int);
                }
            },
            None => {
                objects.push(StoredObject { id, bytes });
                assert(objects@.drop_last() =~= before);
            },
        }
        self.objects = objects;
    }

    /// Puts every object of `other` into the store, in place of what was
    /// there under the same identifier.
    pub fn absorb(&mut self, other: &ObjectStore)
        ensures
            final(self)@ == old(self)@.union_prefer_right(other@),
    {
        let mut i: usize = 0;
        assert(other.objects@.take(0) =~= Seq::<StoredObject>::empty());
        assert(self@ =~= old(self)@.union_prefer_right(Map::empty()));
        while i < other.objects.len()
            invariant
                i <= other.objects@.len(),
                self@ == old(self)@.union_prefer_right(objects_map(other.objects@.take(i as int))),
            decreases other.objects@.len() - i,
        {
            let ghost before = self@;
            let ghost done = objects_map(other.objects@.take(i as int));
            let object = &other.objects[i];
            self.insert_compressed(object.id, object.bytes.clone());
            proof {
                assert(other.objects@.take(i + 1).drop_last() =~= other.objects@.take(i as int));
                assert(other.objects@.take(i + 1).last() == other.objects@[i as int]);
                assert(self@ =~= old(self)@.union_prefer_right(done.insert(object.id@, object.bytes@)));
            }
            i += 1;
        }
        assert(other.objects@.take(i as int) =~= other.objects@);
    }

    /// Stores an object: its envelope is compressed and put under its
    /// identifier, in place of what was there. Reading the identifier
    /// afterwards gives the object back. It fails only where the
    /// compressor does, and then changes nothing.
    pub fn write(&mut self, kind: ObjectKind, payload: &[u8]) -> (res: Result<Sha1Hash, StoreError>)
        ensures
            final(self)@ == written(old(self)@, kind, payload@),
            match res {
                Ok(id) => {
                    &&& id@ == object_id(kind, payload@)
                    &&& zlib_deflated(envelope(kind, payload@)) is Some
                    &&& stored_object(final(self)@, id@) == Ok::<(ObjectKind, Seq<u8>), StoreError>(
                        (kind, payload@),
                    )
                },
                Err(e) => {
                    &&& e == StoreError::CompressionFailed
                    &&& zlib_deflated(envelope(kind, payload@)) is None
                },
            },
    {
        let (id, bytes) = encode(kind, payload);
        match deflate(bytes.as_slice()) {
            Ok(stream) => {
                proof {
                    crate::codec::lemma_decode_envelope(kind, payload@, Seq::empty());
                    assert(envelope(kind, payload@) + Seq::<u8>::empty() =~= envelope(
                        kind,
                        payload@,
                    ));
                }
                self.insert_compressed(id, stream);
                Ok(id)
            },
            Err(_) => Err(StoreError::CompressionFailed),
        }
    }

    /// Reads the object stored under `id`.
    pub fn read(&self, id: &Sha1Hash) -> (res: Result<(ObjectKind, Vec<u8>), StoreError>)
        ensures
            match res {
                Ok((kind, payload)) => stored_object(self@, id@) == Ok::<
                    (ObjectKind, Seq<u8>),
                    StoreError,
                >((kind, payload@)),
                Err(e) => stored_object(self@, id@) == Err::<(ObjectKind, Seq<u8>), StoreError>(e),
            },
    {
        proof {
            use_type_invariant(self);
            lemma_objects_map_dom(self.objects@, id@);
        }
        match self.position(id) {
            None => Err(StoreError::ObjectNotFound),
            Some(i) => {
                proof {
                    lemma_objects_map_at(self.objects@, i as int);
                }
                match inflate(self.objects[i].bytes.as_slice()) {
                    Err(_) => Err(StoreError::CorruptObject),
                    Ok(bytes) => decode(bytes.as_slice()),
                }
            },
        }
    }
}

/// The directory that keeps the object `id`: `.git/objects/`, then the
/// first two characters of the identifier's text.
pub open spec fn object_directory(id: Seq<u8>) -> Seq<char> {
    ".git/objects/"@ + hex_text(id).take(2)
}

/// The file that keeps the object `id`: its directory, `/`, then the other
/// 38 characters of the identifier's text.
pub open spec fn object_path(id: Seq<u8>) -> Seq<char> {
    object_directory(id) + "/"@ + hex_text(id).skip(2)
}

/// The path of the directory that keeps the object `sha`.
pub fn directory_from_sha(sha: &Sha1Hash) -> (path: String)
    ensures
        path@ == object_directory(sha@),
{
    let text = sha.to_hex();
    proof {
        sha.lemma_len();
        lemma_hex_text_ascii(sha@);
    }
    let head = text.as_str().substring_ascii(0, 2);
    assert(head@ =~= hex_text(sha@).take(2));
    String::from_str(".git/objects/").concat(head)
}

/// The path of the file that keeps the object `sha`.
pub fn filename_from_sha(sha: &Sha1Hash) -> (path: String)
    ensures
        path@ == object_path(sha@),
{
    let text = sha.to_hex();
    proof {
        sha.lemma_len();
        lemma_hex_text_ascii(sha@);
    }
    let tail = text.as_str().substring_ascii(2, 40);
    assert(tail@ =~= hex_text(sha@).skip(2));
    directory_from_sha(sha).concat("/").concat(tail)
}

/// Computes the identifier of an object and, where `write_to_file` is set,
/// stores the object.
pub fn write_object(
    store: &mut ObjectStore,
    kind: ObjectKind,
    content: &[u8],
    write_to_file: bool,
) -> (res: Result<Sha1Hash, StoreError>)
    ensures
        final(store)@ == if write_to_file {
            written(old(store)@, kind, content@)
        } else {
            old(store)@
        },
        match res {
            Ok(id) => {
                &&& id@ == object_id(kind, content@)
                &&& write_to_file ==> {
                    &&& zlib_deflated(envelope(kind, content@)) is Some
                    &&& stored_object(final(store)@, id@) == Ok::<
                        (ObjectKind, Seq<u8>),
                        StoreError,
                    >((kind, content@))
                }
            },
            Err(e) => {
                &&& write_to_file
                &&& e == StoreError::CompressionFailed
                &&& zlib_deflated(envelope(kind, content@)) is None
            },
        },
{
    if write_to_file {
        store.write(kind, content)
    } else {
        Ok(encode(kind, content).0)
    }
}

/// Computes the identifier of a file's content as a blob and, where
/// `write_to_file` is set, stores the blob.
pub fn hash_object(store: &mut ObjectStore, content: &[u8], write_to_file: bool) -> (res: Result<
    Sha1Hash,
    StoreError,
>)
    ensures
        final(store)@ == if write_to_file {
            written(old(store)@, ObjectKind::Blob, content@)
        } else {
            old(store)@
        },
        match res {
            Ok(id) => {
                &&& id@ == object_id(ObjectKind::Blob, content@)
                &&& write_to_file ==> {
                    &&& zlib_deflated(envelope(ObjectKind::Blob, content@)) is Some
                    &&& stored_object(final(store)@, id@) == Ok::<
                        (ObjectKind, Seq<u8>),
                        StoreError,
                    >((ObjectKind::Blob, content@))
                }
            },
            Err(e) => {
                &&& write_to_file
                &&& e == StoreError::CompressionFailed
                &&& zlib_deflated(envelope(ObjectKind::Blob, content@)) is None
            },
        },
{
    write_object(store, ObjectKind::Blob, content, write_to_file)
}

/// Storing an object a second time leaves the store as the first time
/// left it: one entry under the identifier, with the same bytes.
pub proof fn lemma_write_idempotent(
    objects: Map<Seq<u8>, Seq<u8>>,
    kind: ObjectKind,
    payload: Seq<u8>,
)
    ensures
        written(written(objects, kind, payload), kind, payload) == written(objects, kind, payload),
{
    assert(written(written(objects, kind, payload), kind, payload) =~= written(
        objects,
        kind,
        payload,
    ));
}

/// What was stored is what is read: where the compressor yields a stream
/// that the decompressor reads back, as every stream that `write` stores
/// is, reading the identifier of the object gives the object, byte for
/// byte.
pub proof fn lemma_read_what_was_written(
    objects: Map<Seq<u8>, Seq<u8>>,
    kind: ObjectKind,
    payload: Seq<u8>,
)
    requires
        zlib_deflated(envelope(kind, payload)) matches Some(stream) && zlib_inflated(stream)
            == Some(envelope(kind, payload)),
    ensures
        stored_object(written(objects, kind, payload), object_id(kind, payload)) == Ok::<
            (ObjectKind, Seq<u8>),
            StoreError,
        >((kind, payload)),
{
    crate::codec::lemma_decode_envelope(kind, payload, Seq::empty());
    assert(envelope(kind, payload) + Seq::<u8>::empty() =~= envelope(kind, payload));
}

/// Storing an object leaves every other identifier as it was.
pub proof fn lemma_write_keeps_others(
    objects: Map<Seq<u8>, Seq<u8>>,
    kind: ObjectKind,
    payload: Seq<u8>,
    other: Seq<u8>,
)
    requires
        other != object_id(kind, payload),
    ensures
        written(objects, kind, payload).dom().contains(other) == objects.dom().contains(other),
        objects.dom().contains(other) ==> written(objects, kind, payload)[other] == objects[other],
        stored_object(written(objects, kind, payload), other) == stored_object(objects, other),
{
}

/// What reading a blob gives: its payload; an object of another kind is
/// refused.
pub open spec fn stored_blob(objects: Map<Seq<u8>, Seq<u8>>, id: Seq<u8>) -> Result<
    Seq<u8>,
    StoreError,
> {
    match stored_object(objects, id) {
        Err(e) => Err(e),
        Ok((kind, payload)) => if kind == ObjectKind::Blob {
            Ok(payload)
        } else {
            Err(StoreError::UnexpectedObjectKind)
        },
    }
}

/// Reads the content of the blob stored under `id`.
pub fn read_blob(store: &ObjectStore, id: &Sha1Hash) -> (res: Result<Vec<u8>, StoreError>)
    ensures
        match res {
            Ok(content) => stored_blob(store@, id@) == Ok::<Seq<u8>, StoreError>(content@),
            Err(e) => stored_blob(store@, id@) == Err::<Seq<u8>, StoreError>(e),
        },
{
    match store.read(id) {
        Err(e) => Err(e),
        Ok((kind, payload)) => match kind {
            ObjectKind::Blob => Ok(payload),
            _ => Err(StoreError::UnexpectedObjectKind),
        },
    }
}

} // verus!
