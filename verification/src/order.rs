//! The order of names in a tree: byte-wise comparison and sorting.

use vstd::prelude::*;

use crate::tree::{serialize_entries, tree_payload, EntrySpec, TreeEntry};

verus! {

/// Whether `a` comes strictly before `b` when names are compared byte by
/// byte: at the first byte that differs the smaller byte decides, and a
/// name comes before every longer name that starts with it.
pub open spec fn name_before(a: Seq<u8>, b: Seq<u8>) -> bool
    decreases a.len(),
{
    if b.len() == 0 {
        false
    } else if a.len() == 0 {
        true
    } else if a[0] != b[0] {
        a[0] < b[0]
    } else {
        name_before(a.drop_first(), b.drop_first())
    }
}

/// Of two names at most one comes before the other.
pub proof fn lemma_name_before_asymmetric(a: Seq<u8>, b: Seq<u8>)
    requires
        name_before(a, b),
    ensures
        !name_before(b, a),
    decreases a.len(),
{
    if a.len() > 0 && b.len() > 0 && a[0] == b[0] {
        lemma_name_before_asymmetric(a.drop_first(), b.drop_first());
    }
}

/// Two names of which neither comes before the other are the same name.
pub proof fn lemma_name_order_total(a: Seq<u8>, b: Seq<u8>)
    requires
        !name_before(a, b),
        !name_before(b, a),
    ensures
        a == b,
    decreases a.len(),
{
    if a.len() > 0 && b.len() > 0 {
        lemma_name_order_total(a.drop_first(), b.drop_first());
        assert(a =~= seq![a[0]] + a.drop_first());
        assert(b =~= seq![b[0]] + b.drop_first());
    } else {
        assert(a =~= b);
    }
}

/// A name that comes before `b` comes before every name that does not come
/// before `b`.
pub proof fn lemma_name_before_then_not_after(a: Seq<u8>, b: Seq<u8>, c: Seq<u8>)
    requires
        name_before(a, b),
        !name_before(c, b),
    ensures
        name_before(a, c),
    decreases a.len(),
{
    if a.len() > 0 && b.len() > 0 && c.len() > 0 {
        if a[0] == b[0] && b[0] == c[0] {
            lemma_name_before_then_not_after(a.drop_first(), b.drop_first(), c.drop_first());
        }
    }
}

/// Whether `a` comes strictly before `b`, byte by byte.
pub fn name_is_before(a: &[u8], b: &[u8]) -> (before: bool)
    ensures
        before == name_before(a@, b@),
{
    let mut i: usize = 0;
    assert(a@.skip(0) =~= a@ && b@.skip(0) =~= b@);
    while i < a.len() && i < b.len()
        invariant
            i <= a@.len(),
            i <= b@.len(),
            name_before(a@, b@) == name_before(a@.skip(i as int), b@.skip(i as int)),
        decreases a@.len() - i,
    {
        if a[i] != b[i] {
            return a[i] < b[i];
        }
        assert(a@.skip(i as int).drop_first() =~= a@.skip(i + 1));
        assert(b@.skip(i as int).drop_first() =~= b@.skip(i + 1));
        i += 1;
    }
    i < b.len()
}

/// Where an entry called `name` goes into `sorted`: before the first entry
/// whose name comes after `name`, at the end where there is none.
pub open spec fn insertion_point(sorted: Seq<EntrySpec>, name: Seq<u8>) -> int
    decreases sorted.len(),
{
    if sorted.len() == 0 || name_before(name, sorted[0].name) {
        0
    } else {
        1 + insertion_point(sorted.drop_first(), name)
    }
}

/// The entries ordered by name, byte by byte. Entries of one name keep
/// the order in which they were given.
pub open spec fn sorted_by_name(entries: Seq<EntrySpec>) -> Seq<EntrySpec>
    decreases entries.len(),
{
    if entries.len() == 0 {
        entries
    } else {
        let front = sorted_by_name(entries.drop_last());
        front.insert(insertion_point(front, entries.last().name), entries.last())
    }
}

/// No entry's name comes before the name of an entry that stands earlier.
pub open spec fn names_ascending(entries: Seq<EntrySpec>) -> bool {
    forall|i: int, j: int|
        0 <= i < j < entries.len() ==> !name_before(
            (#[trigger] entries[j]).name,
            (#[trigger] entries[i]).name,
        )
}

/// Each entry's name comes strictly before the names of all later entries.
pub open spec fn names_strictly_ascending(entries: Seq<EntrySpec>) -> bool {
    forall|i: int, j: int|
        0 <= i < j < entries.len() ==> name_before(
            (#[trigger] entries[i]).name,
            (#[trigger] entries[j]).name,
        )
}

/// No two entries share a name.
pub open spec fn names_distinct(entries: Seq<EntrySpec>) -> bool {
    forall|i: int, j: int|
        0 <= i < j < entries.len() ==> (#[trigger] entries[i]).name != (#[trigger] entries[j]).name
}

proof fn lemma_insertion_point(sorted: Seq<EntrySpec>, name: Seq<u8>)
    ensures
        0 <= insertion_point(sorted, name) <= sorted.len(),
        forall|i: int|
            0 <= i < insertion_point(sorted, name) ==> !name_before(
                name,
                (#[trigger] sorted[i]).name,
            ),
        insertion_point(sorted, name) < sorted.len() ==> name_before(
            name,
            sorted[insertion_point(sorted, name)].name,
        ),
    decreases sorted.len(),
{
    if sorted.len() == 0 || name_before(name, sorted[0].name) {
    } else {
        let rest = sorted.drop_first();
        lemma_insertion_point(rest, name);
        assert forall|i: int| 0 <= i < insertion_point(sorted, name) implies !name_before(
            name,
            (#[trigger] sorted[i]).name,
        ) by {
            if i > 0 {
                assert(sorted[i] == rest[i - 1]);
            }
        }
    }
}

proof fn lemma_insertion_point_is(sorted: Seq<EntrySpec>, name: Seq<u8>, at: int)
    requires
        0 <= at <= sorted.len(),
        forall|i: int| 0 <= i < at ==> !name_before(name, (#[trigger] sorted[i]).name),
        at < sorted.len() ==> name_before(name, sorted[at].name),
    ensures
        insertion_point(sorted, name) == at,
{
    lemma_insertion_point(sorted, name);
    let found = insertion_point(sorted, name);
    if found < at {
        assert(!name_before(name, sorted[found].name));
    }
    if at < found {
        assert(!name_before(name, sorted[at].name));
    }
}

/// Sorting keeps every entry, as often as it was given, and puts the names
/// in ascending order.
pub proof fn lemma_sorted_by_name(entries: Seq<EntrySpec>)
    ensures
        names_ascending(sorted_by_name(entries)),
        sorted_by_name(entries).to_multiset() == entries.to_multiset(),
        sorted_by_name(entries).len() == entries.len(),
        names_distinct(entries) ==> names_strictly_ascending(sorted_by_name(entries)),
    decreases entries.len(),
{
    let sorted = sorted_by_name(entries);
    if entries.len() > 0 {
        let last = entries.last();
        let front = sorted_by_name(entries.drop_last());
        let at = insertion_point(front, last.name);
        lemma_sorted_by_name(entries.drop_last());
        lemma_insertion_point(front, last.name);
        assert(names_ascending(sorted)) by {
            assert forall|i: int, j: int| 0 <= i < j < sorted.len() implies !name_before(
                (#[trigger] sorted[j]).name,
                (#[trigger] sorted[i]).name,
            ) by {
                if j == at {
                    assert(sorted[i] == front[i]);
                } else if i == at {
                    assert(sorted[j] == front[j - 1]);
                    assert(!name_before(front[j - 1].name, front[at].name)) by {
                        if j - 1 > at {
                            assert(!name_before(front[j - 1].name, front[at].name));
                        } else {
                            if name_before(front[at].name, front[at].name) {
                                lemma_name_before_asymmetric(front[at].name, front[at].name);
                            }
                        }
                    }
                    lemma_name_before_then_not_after(last.name, front[at].name, front[j - 1].name);
                    lemma_name_before_asymmetric(last.name, front[j - 1].name);
                } else {
                    let i0 = if i < at {
                        i
                    } else {
                        i - 1
                    };
                    let j0 = if j < at {
                        j
                    } else {
                        j - 1
                    };
                    assert(sorted[i] == front[i0] && sorted[j] == front[j0]);
                    assert(!name_before(front[j0].name, front[i0].name));
                }
            }
        }
        assert(sorted.to_multiset() == entries.to_multiset()) by {
            vstd::seq_lib::to_multiset_insert(front, at, last);
            vstd::seq_lib::to_multiset_build(entries.drop_last(), last);
            assert(entries.drop_last().push(last) =~= entries);
        }
        if names_distinct(entries) {
            assert(names_distinct(entries.drop_last())) by {
                assert forall|i: int, j: int| 0 <= i < j < entries.drop_last().len() implies (
                #[trigger] entries.drop_last()[i]).name != (#[trigger] entries.drop_last()[j]).name by {
                    assert(entries[i].name != entries[j].name);
                }
            }
            assert(names_distinct(sorted)) by {
                lemma_names_distinct_permuted(entries, sorted);
            }
            assert forall|i: int, j: int| 0 <= i < j < sorted.len() implies name_before(
                (#[trigger] sorted[i]).name,
                (#[trigger] sorted[j]).name,
            ) by {
                if !name_before(sorted[i].name, sorted[j].name) {
                    lemma_name_order_total(sorted[i].name, sorted[j].name);
                }
            }
        }
    }
}

/// A rearrangement of entries with distinct names has distinct names.
pub proof fn lemma_names_distinct_permuted(given: Seq<EntrySpec>, other: Seq<EntrySpec>)
    requires
        names_distinct(given),
        other.to_multiset() == given.to_multiset(),
    ensures
        names_distinct(other),
{
    broadcast use vstd::multiset::group_multiset_axioms;

    assert forall|i: int, j: int| 0 <= i < j < other.len() implies (#[trigger] other[i]).name != (
    #[trigger] other[j]).name by {
        if other[i].name == other[j].name {
            let first = other[i];
            let second = other[j];
            other.to_multiset_ensures();
            given.to_multiset_ensures();
            assert(other.contains(first));
            assert(other.contains(second));
            assert(other.to_multiset().count(first) > 0);
            assert(other.to_multiset().count(second) > 0);
            assert(given.to_multiset().count(first) > 0);
            assert(given.to_multiset().count(second) > 0);
            assert(given.contains(first));
            assert(given.contains(second));
            let p = choose|p: int| 0 <= p < given.len() && given[p] == first;
            let q = choose|q: int| 0 <= q < given.len() && given[q] == second;
            if p != q {
                assert(given[p].name == given[q].name);
            } else {
                // one entry stands twice in `other`, but once in `given`
                assert(first == second);
                let without = other.remove(j);
                assert(without[i] == first);
                assert(without.contains(first));
                without.to_multiset_ensures();
                assert(without.to_multiset() =~= other.to_multiset().remove(second));
                assert(without.to_multiset().count(first) > 0);
                assert(other.to_multiset().count(first) >= 2);
                let rest = given.remove(p);
                rest.to_multiset_ensures();
                assert(rest.to_multiset() =~= given.to_multiset().remove(first));
                assert(rest.to_multiset().count(first) >= 1);
                assert(rest.contains(first));
                let r = choose|r: int| 0 <= r < rest.len() && rest[r] == first;
                let r0 = if r < p {
                    r
                } else {
                    r + 1
                };
                assert(given[r0] == first);
                assert(given[r0].name == given[p].name);
            }
        }
    }
}

/// Two strictly ascending sequences of the same entries are the same
/// sequence.
pub proof fn lemma_ascending_unique(x: Seq<EntrySpec>, y: Seq<EntrySpec>)
    requires
        names_strictly_ascending(x),
        names_strictly_ascending(y),
        x.to_multiset() == y.to_multiset(),
    ensures
        x == y,
    decreases x.len(),
{
    broadcast use vstd::multiset::group_multiset_axioms;

    x.to_multiset_ensures();
    y.to_multiset_ensures();
    if x.len() == 0 {
        assert(x =~= y);
    } else {
        assert(y.len() > 0);
        assert(x.contains(x[0]));
        assert(y.contains(y[0]));
        assert(x.to_multiset().count(x[0]) > 0);
        assert(y.to_multiset().count(y[0]) > 0);
        assert(y.to_multiset().count(x[0]) > 0);
        assert(x.to_multiset().count(y[0]) > 0);
        assert(x.contains(y[0]));
        assert(y.contains(x[0]));
        let i = choose|i: int| 0 <= i < x.len() && x[i] == y[0];
        let j = choose|j: int| 0 <= j < y.len() && y[j] == x[0];
        if i > 0 && j > 0 {
            assert(name_before(x[0].name, x[i].name));
            assert(name_before(y[0].name, y[j].name));
            lemma_name_before_asymmetric(x[0].name, y[0].name);
        }
        assert(x[0] == y[0]);
        assert(x.drop_first() =~= x.remove(0));
        assert(y.drop_first() =~= y.remove(0));
        assert(x.drop_first().to_multiset() =~= y.drop_first().to_multiset());
        assert(names_strictly_ascending(x.drop_first())) by {
            assert forall|a: int, b: int| 0 <= a < b < x.drop_first().len() implies name_before(
                (#[trigger] x.drop_first()[a]).name,
                (#[trigger] x.drop_first()[b]).name,
            ) by {
                assert(name_before(x[a + 1].name, x[b + 1].name));
            }
        }
        assert(names_strictly_ascending(y.drop_first())) by {
            assert forall|a: int, b: int| 0 <= a < b < y.drop_first().len() implies name_before(
                (#[trigger] y.drop_first()[a]).name,
                (#[trigger] y.drop_first()[b]).name,
            ) by {
                assert(name_before(y[a + 1].name, y[b + 1].name));
            }
        }
        lemma_ascending_unique(x.drop_first(), y.drop_first());
        assert(x =~= seq![x[0]] + x.drop_first());
        assert(y =~= seq![y[0]] + y.drop_first());
    }
}

/// Entries with distinct names come out of the sort in one order, however
/// they were enumerated: strictly ascending by name. So the payload of
/// their tree does not depend on the order of enumeration.
pub proof fn lemma_sort_ignores_enumeration_order(first: Seq<EntrySpec>, second: Seq<EntrySpec>)
    requires
        names_distinct(first),
        first.to_multiset() == second.to_multiset(),
    ensures
        sorted_by_name(first) == sorted_by_name(second),
        names_strictly_ascending(sorted_by_name(first)),
        tree_payload(sorted_by_name(first)) == tree_payload(sorted_by_name(second)),
{
    lemma_names_distinct_permuted(first, second);
    lemma_sorted_by_name(first);
    lemma_sorted_by_name(second);
    lemma_ascending_unique(sorted_by_name(first), sorted_by_name(second));
}

/// Finds where an entry called `name` goes into `sorted`.
fn find_insertion_point(sorted: &Vec<TreeEntry>, name: &[u8]) -> (at: usize)
    ensures
        at == insertion_point(sorted.deep_view(), name@),
        at <= sorted@.len(),
{
    let mut at: usize = 0;
    while at < sorted.len() && !name_is_before(name, sorted[at].name.as_slice())
        invariant
            at <= sorted@.len(),
            forall|i: int|
                0 <= i < at ==> !name_before(name@, (#[trigger] sorted.deep_view()[i]).name),
        decreases sorted@.len() - at,
    {
        assert(sorted.deep_view()[at as int] == sorted@[at as int]@);
        at += 1;
    }
    proof {
        if at < sorted@.len() {
            assert(sorted.deep_view()[at as int] == sorted@[at as int]@);
        }
        lemma_insertion_point_is(sorted.deep_view(), name@, at as int);
    }
    at
}

/// Orders entries by name, byte by byte.
pub fn sort_entries(entries: &Vec<TreeEntry>) -> (sorted: Vec<TreeEntry>)
    ensures
        sorted.deep_view() == sorted_by_name(entries.deep_view()),
{
    let mut sorted: Vec<TreeEntry> = Vec::new();
    let ghost all = entries.deep_view();
    let mut i: usize = 0;
    assert(all.take(0) =~= Seq::<EntrySpec>::empty());
    assert(sorted.deep_view() =~= Seq::<EntrySpec>::empty());
    while i < entries.len()
        invariant
            i <= entries@.len(),
            all == entries.deep_view(),
            sorted.deep_view() == sorted_by_name(all.take(i as int)),
        decreases entries@.len() - i,
    {
        let entry = entries[i].duplicate();
        let at = find_insertion_point(&sorted, entry.name.as_slice());
        let ghost front = sorted.deep_view();
        sorted.insert(at, entry);
        proof {
            assert(all[i as int] == entry@);
            assert(all.take(i + 1).drop_last() =~= all.take(i as int));
            assert(all.take(i + 1).last() == entry@);
            assert(sorted.deep_view() =~= front.insert(at as int, entry@));
        }
        i += 1;
    }
    assert(all.take(i as int) =~= all);
    sorted
}

/// What holds of every entry given holds of every entry of the sorted
/// sequence.
pub proof fn lemma_sorted_keeps(entries: Seq<EntrySpec>, holds: spec_fn(EntrySpec) -> bool)
    requires
        forall|i: int| 0 <= i < entries.len() ==> holds(#[trigger] entries[i]),
    ensures
        forall|i: int|
            0 <= i < sorted_by_name(entries).len() ==> holds(#[trigger] sorted_by_name(entries)[i]),
{
    broadcast use vstd::multiset::group_multiset_axioms;

    let sorted = sorted_by_name(entries);
    lemma_sorted_by_name(entries);
    sorted.to_multiset_ensures();
    entries.to_multiset_ensures();
    assert forall|i: int| 0 <= i < sorted.len() implies holds(#[trigger] sorted[i]) by {
        assert(sorted.contains(sorted[i]));
        assert(sorted.to_multiset().count(sorted[i]) > 0);
        assert(entries.to_multiset().count(sorted[i]) > 0);
        assert(entries.contains(sorted[i]));
        let k = choose|k: int| 0 <= k < entries.len() && entries[k] == sorted[i];
        assert(holds(entries[k]));
    }
}

/// Writes the payload of a tree: the entries ordered by name.
pub fn serialize_tree(entries: &Vec<TreeEntry>) -> (payload: Vec<u8>)
    ensures
        payload@ == tree_payload(sorted_by_name(entries.deep_view())),
{
    let sorted = sort_entries(entries);
    serialize_entries(&sorted)
}

} // verus!
