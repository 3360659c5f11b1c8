//! Tree builder: turns a directory held in memory into blobs and trees.

use vstd::multiset::Multiset;
use vstd::prelude::*;

use crate::codec::{envelope, object_id, ObjectKind, NUL};
use crate::deflate::zlib_deflated;
use crate::error::StoreError;
use crate::order::{
    lemma_sort_ignores_enumeration_order, lemma_sorted_keeps, names_distinct, serialize_tree,
    sorted_by_name,
};
use crate::reader::stored_tree;
use crate::sha1hash::Sha1Hash;
use crate::store::ObjectStore;
use crate::text::{ascii, ascii_bytes};
use crate::tree::{
    entry_is_storable, lemma_parse_tree_payload, tree_payload, EntrySpec, TreeEntry,
    MODE_DIRECTORY, MODE_FILE,
};

verus! {

/// The byte that parts the names of a path.
pub const SEPARATOR: u8 = 47;

/// A file or a directory, read into memory.
#[derive(Debug, PartialEq, Eq)]
pub enum FsNode {
    /// A regular file and its content.
    File { name: Vec<u8>, content: Vec<u8> },
    /// A directory and what it holds, in the order of enumeration.
    Directory { name: Vec<u8>, children: Vec<FsNode> },
}

impl FsNode {
    /// The name of the file or directory within its parent.
    pub open spec fn name(self) -> Seq<u8> {
        match self {
            FsNode::File { name, .. } => name@,
            FsNode::Directory { name, .. } => name@,
        }
    }
}

/// A name that belongs to the store itself: one that starts with `.git`.
pub open spec fn is_reserved_name(name: Seq<u8>) -> bool {
    ascii(".git"@).is_prefix_of(name)
}

/// A name that a tree entry can carry: not empty, without NUL and without
/// path separator.
pub open spec fn is_valid_name(name: Seq<u8>) -> bool {
    &&& name.len() > 0
    &&& forall|i: int| 0 <= i < name.len() ==> name[i] != NUL && name[i] != SEPARATOR
}

/// The entry that stands for a child in its parent's tree.
pub open spec fn node_entry(node: FsNode) -> Result<EntrySpec, StoreError>
    decreases node, 0int,
{
    if !is_valid_name(node.name()) {
        Err(StoreError::InvalidEntryName)
    } else {
        match node {
            FsNode::File { name, content } => {
                if zlib_deflated(envelope(ObjectKind::Blob, content@)) is None {
                    Err(StoreError::CompressionFailed)
                } else {
                    Ok(
                        EntrySpec {
                            mode: MODE_FILE as nat,
                            name: name@,
                            target: object_id(ObjectKind::Blob, content@),
                        },
                    )
                }
            },
            FsNode::Directory { name, children } => {
                match tree_id(children@) {
                    Err(e) => Err(e),
                    Ok(id) => Ok(EntrySpec { mode: MODE_DIRECTORY as nat, name: name@, target: id }),
                }
            },
        }
    }
}

/// The entries of a directory in the order of enumeration, without the
/// children that belong to the store itself; the first failure otherwise.
pub open spec fn tree_entries(children: Seq<FsNode>) -> Result<Seq<EntrySpec>, StoreError>
    decreases children, 0int,
{
    if children.len() == 0 {
        Ok(Seq::empty())
    } else {
        match tree_entries(children.drop_last()) {
            Err(e) => Err(e),
            Ok(front) => {
                if is_reserved_name(children.last().name()) {
                    Ok(front)
                } else {
                    match node_entry(children.last()) {
                        Err(e) => Err(e),
                        Ok(entry) => Ok(front.push(entry)),
                    }
                }
            },
        }
    }
}

/// The payload of a directory's tree: its entries, ordered by name.
pub open spec fn tree_of(children: Seq<FsNode>) -> Result<Seq<u8>, StoreError>
    decreases children, 1int,
{
    match tree_entries(children) {
        Err(e) => Err(e),
        Ok(entries) => Ok(tree_payload(sorted_by_name(entries))),
    }
}

/// The identifier of a directory's tree.
pub open spec fn tree_id(children: Seq<FsNode>) -> Result<Seq<u8>, StoreError>
    decreases children, 2int,
{
    match tree_of(children) {
        Err(e) => Err(e),
        Ok(payload) => {
            if zlib_deflated(envelope(ObjectKind::Tree, payload)) is None {
                Err(StoreError::CompressionFailed)
            } else {
                Ok(object_id(ObjectKind::Tree, payload))
            }
        },
    }
}

/// The objects that make up a child: the blob of a file, the objects of a
/// directory's tree.
pub open spec fn node_objects(node: FsNode) -> Map<Seq<u8>, Seq<u8>>
    decreases node, 0int,
{
    match node {
        FsNode::File { name, content } => Map::empty().insert(
            object_id(ObjectKind::Blob, content@),
            zlib_deflated(envelope(ObjectKind::Blob, content@)).unwrap(),
        ),
        FsNode::Directory { name, children } => tree_objects(children@),
    }
}

/// The objects that make up the children of a directory, taken in the
/// order of enumeration; of two objects under one identifier the later
/// stays.
pub open spec fn children_objects(children: Seq<FsNode>) -> Map<Seq<u8>, Seq<u8>>
    decreases children, 0int,
{
    if children.len() == 0 {
        Map::empty()
    } else {
        let front = children_objects(children.drop_last());
        if is_reserved_name(children.last().name()) {
            front
        } else {
            front.union_prefer_right(node_objects(children.last()))
        }
    }
}

/// The objects that make up a directory's tree: those of its children,
/// then the tree itself.
pub open spec fn tree_objects(children: Seq<FsNode>) -> Map<Seq<u8>, Seq<u8>>
    decreases children, 1int,
{
    match tree_of(children) {
        Err(e) => children_objects(children),
        Ok(payload) => children_objects(children).insert(
            object_id(ObjectKind::Tree, payload),
            zlib_deflated(envelope(ObjectKind::Tree, payload)).unwrap(),
        ),
    }
}

/// A failure among the first children is the failure of the directory.
proof fn lemma_tree_entries_failure(children: Seq<FsNode>, upto: int)
    requires
        0 <= upto <= children.len(),
        tree_entries(children.take(upto)) is Err,
    ensures
        tree_entries(children) == tree_entries(children.take(upto)),
    decreases children.len() - upto,
{
    if upto < children.len() {
        assert(children.take(upto + 1).drop_last() =~= children.take(upto));
        lemma_tree_entries_failure(children, upto + 1);
    } else {
        assert(children.take(upto) =~= children);
    }
}

/// Whether a child is left out or has an entry.
spec fn child_is_fine(child: FsNode) -> bool {
    is_reserved_name(child.name()) || node_entry(child) is Ok
}

/// The entries of the children that are not left out, without their order.
spec fn kept_entries(children: Seq<FsNode>) -> Multiset<EntrySpec>
    decreases children.len(),
{
    if children.len() == 0 {
        Multiset::empty()
    } else if is_reserved_name(children.last().name()) {
        kept_entries(children.drop_last())
    } else {
        kept_entries(children.drop_last()).insert(node_entry(children.last()).unwrap())
    }
}

proof fn lemma_tree_entries_kept(children: Seq<FsNode>)
    ensures
        tree_entries(children) is Ok <==> forall|i: int|
            0 <= i < children.len() ==> child_is_fine(#[trigger] children[i]),
        tree_entries(children) matches Ok(entries) ==> entries.to_multiset() == kept_entries(
            children,
        ),
    decreases children.len(),
{
    if children.len() == 0 {
        assert(Seq::<EntrySpec>::empty().to_multiset() =~= Multiset::empty()) by {
            Seq::<EntrySpec>::empty().to_multiset_ensures();
        }
    } else {
        let front = children.drop_last();
        lemma_tree_entries_kept(front);
        if tree_entries(children) is Ok {
            assert forall|i: int| 0 <= i < children.len() implies child_is_fine(
                #[trigger] children[i],
            ) by {
                if i < front.len() {
                    assert(children[i] == front[i]);
                }
            }
        }
        if forall|i: int| 0 <= i < children.len() ==> child_is_fine(#[trigger] children[i]) {
            assert forall|i: int| 0 <= i < front.len() implies child_is_fine(
                #[trigger] front[i],
            ) by {
                assert(front[i] == children[i]);
            }
            assert(child_is_fine(children[children.len() - 1]));
        }
        if let Ok(entries) = tree_entries(children) {
            let before = tree_entries(front).unwrap();
            if !is_reserved_name(children.last().name()) {
                vstd::seq_lib::to_multiset_build(before, node_entry(children.last()).unwrap());
            }
        }
    }
}

proof fn lemma_kept_entries_remove(children: Seq<FsNode>, at: int)
    requires
        0 <= at < children.len(),
    ensures
        kept_entries(children) == if is_reserved_name(children[at].name()) {
            kept_entries(children.remove(at))
        } else {
            kept_entries(children.remove(at)).insert(node_entry(children[at]).unwrap())
        },
    decreases children.len(),
{
    broadcast use vstd::multiset::group_multiset_axioms;

    let without = children.remove(at);
    if at == children.len() - 1 {
        assert(without =~= children.drop_last());
    } else {
        lemma_kept_entries_remove(children.drop_last(), at);
        assert(without.drop_last() =~= children.drop_last().remove(at));
        assert(without.last() == children.last());
        assert(children.drop_last()[at] == children[at]);
        let expected = if is_reserved_name(children[at].name()) {
            kept_entries(without)
        } else {
            kept_entries(without).insert(node_entry(children[at]).unwrap())
        };
        assert(kept_entries(children) =~= expected);
    }
}

proof fn lemma_kept_entries_permuted(first: Seq<FsNode>, second: Seq<FsNode>)
    requires
        first.to_multiset() == second.to_multiset(),
    ensures
        kept_entries(first) == kept_entries(second),
    decreases first.len(),
{
    broadcast use vstd::multiset::group_multiset_axioms;

    first.to_multiset_ensures();
    second.to_multiset_ensures();
    if first.len() == 0 {
        assert(second.len() == 0);
    } else {
        let last = first.last();
        assert(first.contains(last)) by {
            assert(first[first.len() - 1] == last);
        }
        assert(first.to_multiset().count(last) > 0);
        assert(second.to_multiset().count(last) > 0);
        assert(second.contains(last));
        let at = choose|at: int| 0 <= at < second.len() && second[at] == last;
        assert(first.drop_last() =~= first.remove(first.len() - 1));
        assert(first.drop_last().to_multiset() =~= second.remove(at).to_multiset());
        lemma_kept_entries_permuted(first.drop_last(), second.remove(at));
        lemma_kept_entries_remove(second, at);
    }
}

/// A directory whose children have distinct names gives one tree, in
/// whatever order its children are enumerated.
pub proof fn lemma_tree_ignores_enumeration_order(first: Seq<FsNode>, second: Seq<FsNode>)
    requires
        first.to_multiset() == second.to_multiset(),
        tree_entries(first) matches Ok(entries) && names_distinct(entries),
    ensures
        tree_of(second) == tree_of(first),
        tree_id(second) == tree_id(first),
{
    broadcast use vstd::multiset::group_multiset_axioms;

    lemma_tree_entries_kept(first);
    lemma_tree_entries_kept(second);
    first.to_multiset_ensures();
    second.to_multiset_ensures();
    assert forall|i: int| 0 <= i < second.len() implies child_is_fine(#[trigger] second[i]) by {
        assert(second.contains(second[i]));
        assert(second.to_multiset().count(second[i]) > 0);
        assert(first.to_multiset().count(second[i]) > 0);
        assert(first.contains(second[i]));
        let k = choose|k: int| 0 <= k < first.len() && first[k] == second[i];
        assert(child_is_fine(first[k]));
    }
    lemma_kept_entries_permuted(first, second);
    lemma_sort_ignores_enumeration_order(
        tree_entries(first).unwrap(),
        tree_entries(second).unwrap(),
    );
}

/// Whether `bytes` starts with `prefix`.
pub fn starts_with(bytes: &[u8], prefix: &[u8]) -> (yes: bool)
    ensures
        yes == prefix@.is_prefix_of(bytes@),
{
    if bytes.len() < prefix.len() {
        return false;
    }
    let mut i: usize = 0;
    while i < prefix.len()
        invariant
            i <= prefix@.len(),
            prefix@.len() <= bytes@.len(),
            forall|j: int| 0 <= j < i ==> prefix@[j] == bytes@[j],
        decreases prefix@.len() - i,
    {
        if prefix[i] != bytes[i] {
            return false;
        }
        i += 1;
    }
    true
}

/// Whether a child of this name is left out of its parent's tree.
pub fn name_is_reserved(name: &[u8]) -> (yes: bool)
    ensures
        yes == is_reserved_name(name@),
{
    proof {
        reveal_strlit(".git");
    }
    starts_with(name, ascii_bytes(".git"))
}

/// Whether a tree entry can carry this name.
pub fn name_is_valid(name: &[u8]) -> (yes: bool)
    ensures
        yes == is_valid_name(name@),
{
    if name.len() == 0 {
        return false;
    }
    let mut i: usize = 0;
    while i < name.len()
        invariant
            i <= name@.len(),
            forall|j: int| 0 <= j < i ==> name@[j] != NUL && name@[j] != SEPARATOR,
        decreases name@.len() - i,
    {
        if name[i] == NUL || name[i] == SEPARATOR {
            return false;
        }
        i += 1;
    }
    true
}

/// Stores the objects of a directory's tree in `pending` and gives the
/// identifier of the tree.
fn build_tree(pending: &mut ObjectStore, children: &Vec<FsNode>) -> (res: Result<
    Sha1Hash,
    StoreError,
>)
    ensures
        match res {
            Ok(id) => {
                &&& tree_id(children@) == Ok::<Seq<u8>, StoreError>(id@)
                &&& final(pending)@ == old(pending)@.union_prefer_right(tree_objects(children@))
                &&& stored_tree(final(pending)@, id@) == Ok::<Seq<EntrySpec>, StoreError>(
                    sorted_by_name(tree_entries(children@).unwrap()),
                )
            },
            Err(e) => tree_id(children@) == Err::<Seq<u8>, StoreError>(e),
        },
    decreases children,
{
    let mut entries: Vec<TreeEntry> = Vec::new();
    let mut i: usize = 0;
    proof {
        assert(children@.take(0) =~= Seq::<FsNode>::empty());
        assert(entries.deep_view() =~= Seq::<EntrySpec>::empty());
        assert(pending@ =~= old(pending)@.union_prefer_right(Map::empty()));
    }
    while i < children.len()
        invariant
            i <= children@.len(),
            tree_entries(children@.take(i as int)) == Ok::<Seq<EntrySpec>, StoreError>(
                entries.deep_view(),
            ),
            pending@ == old(pending)@.union_prefer_right(
                children_objects(children@.take(i as int)),
            ),
            forall|j: int|
                0 <= j < entries@.len() ==> entry_is_storable(#[trigger] entries.deep_view()[j]),
        decreases children@.len() - i,
    {
        let child = &children[i];
        let ghost front = entries.deep_view();
        let ghost done = children_objects(children@.take(i as int));
        proof {
            assert(children@.take(i + 1).drop_last() =~= children@.take(i as int));
            assert(children@.take(i + 1).last() == *child);
        }
        let name: &Vec<u8> = match child {
            FsNode::File { name, .. } => name,
            FsNode::Directory { name, .. } => name,
        };
        if !name_is_reserved(name.as_slice()) {
            if !name_is_valid(name.as_slice()) {
                proof {
                    lemma_tree_entries_failure(children@, i + 1);
                }
                return Err(StoreError::InvalidEntryName);
            }
            let written = match child {
                FsNode::File { name, content } => {
                    match pending.write(ObjectKind::Blob, content.as_slice()) {
                        Ok(id) => Ok(TreeEntry { mode: MODE_FILE, name: name.clone(), target: id }),
                        Err(e) => Err(e),
                    }
                },
                FsNode::Directory { name, children: inner } => {
                    match build_tree(pending, inner) {
                        Ok(id) => Ok(
                            TreeEntry { mode: MODE_DIRECTORY, name: name.clone(), target: id },
                        ),
                        Err(e) => Err(e),
                    }
                },
            };
            match written {
                Err(e) => {
                    proof {
                        lemma_tree_entries_failure(children@, i + 1);
                    }
                    return Err(e);
                },
                Ok(entry) => {
                    proof {
                        entry.target.lemma_len();
                    }
                    assert(entry_is_storable(entry@));
                    assert(node_entry(*child) == Ok::<EntrySpec, StoreError>(entry@));
                    assert(pending@ =~= old(pending)@.union_prefer_right(
                        done.union_prefer_right(node_objects(*child)),
                    ));
                    entries.push(entry);
                    assert(entries.deep_view() =~= front.push(entry@));
                },
            }
        }
        i += 1;
    }
    assert(children@.take(i as int) =~= children@);
    let payload = serialize_tree(&entries);
    proof {
        let sorted = sorted_by_name(entries.deep_view());
        lemma_sorted_keeps(entries.deep_view(), |e: EntrySpec| entry_is_storable(e));
        lemma_parse_tree_payload(sorted);
    }
    match pending.write(ObjectKind::Tree, payload.as_slice()) {
        Ok(id) => {
            assert(pending@ =~= old(pending)@.union_prefer_right(tree_objects(children@)));
            Ok(id)
        },
        Err(e) => Err(e),
    }
}

/// Stores a directory as a tree: each file as a blob, each directory in it
/// as a tree of its own, children first, and last the tree that lists them
/// by name. Children whose name starts with `.git` are left out. Reading
/// the tree afterwards gives the entries of the children, ordered by name.
/// Where anything fails the store stays as it was.
pub fn write_tree(store: &mut ObjectStore, children: &Vec<FsNode>) -> (res: Result<
    Sha1Hash,
    StoreError,
>)
    ensures
        match res {
            Ok(id) => {
                &&& tree_id(children@) == Ok::<Seq<u8>, StoreError>(id@)
                &&& final(store)@ == old(store)@.union_prefer_right(tree_objects(children@))
                &&& stored_tree(final(store)@, id@) == Ok::<Seq<EntrySpec>, StoreError>(
                    sorted_by_name(tree_entries(children@).unwrap()),
                )
            },
            Err(e) => {
                &&& tree_id(children@) == Err::<Seq<u8>, StoreError>(e)
                &&& final(store)@ == old(store)@
            },
        },
{
    let mut pending = ObjectStore::new();
    match build_tree(&mut pending, children) {
        Err(e) => Err(e),
        Ok(id) => {
            assert(pending@ =~= tree_objects(children@));
            store.absorb(&pending);
            Ok(id)
        },
    }
}

} // verus!
