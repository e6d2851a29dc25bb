//! What follows from the contracts of the map's operations, stated over
//! the map's view.

use vstd::prelude::*;
use vstd::wrapping::isize_specs::signed_crop;
use crate::counter::lemma_signed_crop_in_range;
use crate::node::lookup;

verus! {

/// The view of a map after the insertions `ops`, in order.
pub open spec fn after_inserts<A, B>(m: Map<A, B>, ops: Seq<(A, B)>) -> Map<A, B>
    decreases ops.len(),
{
    if ops.len() == 0 {
        m
    } else {
        after_inserts(m, ops.drop_last()).insert(ops.last().0, ops.last().1)
    }
}

/// The view of a map after `insert_if_absent(k, v)`.
pub open spec fn after_insert_if_absent<A, B>(m: Map<A, B>, k: A, v: B) -> Map<A, B> {
    if m.contains_key(k) {
        m
    } else {
        m.insert(k, v)
    }
}

/// After any sequence of insertions, a lookup of a key returns the value
/// of the last insertion under that key.
pub proof fn lemma_get_returns_latest_insert<A, B>(m: Map<A, B>, ops: Seq<(A, B)>, i: int)
    requires
        0 <= i < ops.len(),
        forall|j: int| i < j < ops.len() ==> ops[j].0 != ops[i].0,
    ensures
        lookup(after_inserts(m, ops), ops[i].0) == Some(ops[i].1),
    decreases ops.len(),
{
    if i < ops.len() - 1 {
        lemma_get_returns_latest_insert(m, ops.drop_last(), i);
    }
}

/// A key that no insertion names is looked up as before the insertions.
pub proof fn lemma_inserts_leave_other_keys<A, B>(m: Map<A, B>, ops: Seq<(A, B)>, k: A)
    requires
        forall|j: int| 0 <= j < ops.len() ==> ops[j].0 != k,
    ensures
        lookup(after_inserts(m, ops), k) == lookup(m, k),
    decreases ops.len(),
{
    if ops.len() > 0 {
        lemma_inserts_leave_other_keys(m, ops.drop_last(), k);
    }
}

/// After the insertion of distinct keys into an empty map, the map holds
/// as many entries as there were insertions, each key with its value.
pub proof fn lemma_distinct_inserts_are_all_held<A, B>(ops: Seq<(A, B)>)
    requires
        forall|i: int, j: int| 0 <= i < j < ops.len() ==> ops[i].0 != ops[j].0,
    ensures
        after_inserts(Map::<A, B>::empty(), ops).dom().finite(),
        after_inserts(Map::<A, B>::empty(), ops).len() == ops.len(),
        forall|i: int|
            0 <= i < ops.len() ==> lookup(
                after_inserts(Map::<A, B>::empty(), ops),
                #[trigger] ops[i].0,
            ) == Some(ops[i].1),
    decreases ops.len(),
{
    let empty = Map::<A, B>::empty();
    if ops.len() > 0 {
        let front = ops.drop_last();
        lemma_distinct_inserts_are_all_held(front);
        lemma_inserts_leave_other_keys(empty, front, ops.last().0);
        assert forall|i: int| 0 <= i < ops.len() implies lookup(
            after_inserts(empty, ops),
            #[trigger] ops[i].0,
        ) == Some(ops[i].1) by {
            lemma_get_returns_latest_insert(empty, ops, i);
        }
    }
}

/// `insert_if_absent` never replaces a value: of two calls under one key
/// the second changes nothing, and the map holds what it held for the key
/// before the first, or the value of the first.
pub proof fn lemma_insert_if_absent_keeps_first<A, B>(m: Map<A, B>, k: A, v1: B, v2: B)
    ensures
        after_insert_if_absent(after_insert_if_absent(m, k, v1), k, v2) == after_insert_if_absent(
            m,
            k,
            v1,
        ),
        lookup(after_insert_if_absent(m, k, v1), k) == if m.contains_key(k) {
            Some(m[k])
        } else {
            Some(v1)
        },
{
}

/// The size that a map with the view `m` reports: the number of its
/// entries as a signed word, or zero where that is negative.
pub open spec fn spec_size<A, B>(m: Map<A, B>) -> int {
    if signed_crop(m.len() as int) < 0 {
        0
    } else {
        signed_crop(m.len() as int) as int
    }
}

/// A map of no more entries than a signed word can count reports their
/// number as its size.
pub proof fn lemma_size_is_the_number_of_entries<A, B>(m: Map<A, B>)
    requires
        m.len() <= isize::MAX,
    ensures
        spec_size(m) == m.len(),
{
    lemma_signed_crop_in_range(m.len() as int);
}

/// After the insertion of distinct keys into an empty map, in whatever
/// order the threads that insert them take their turns, the size of the
/// map is the number of the keys.
pub proof fn lemma_size_of_distinct_inserts<A, B>(ops: Seq<(A, B)>)
    requires
        forall|i: int, j: int| 0 <= i < j < ops.len() ==> ops[i].0 != ops[j].0,
        ops.len() <= isize::MAX,
    ensures
        spec_size(after_inserts(Map::<A, B>::empty(), ops)) == ops.len(),
{
    lemma_distinct_inserts_are_all_held(ops);
    lemma_size_is_the_number_of_entries(after_inserts(Map::<A, B>::empty(), ops));
}

/// Of two calls of `insert_if_absent` under a key that the map does not
/// hold, whichever comes first, exactly one value is stored, that of the
/// first; the second call is handed that value; and the size of the map
/// is one more than it was.
pub proof fn lemma_one_of_two_insert_if_absent_wins<A, B>(m: Map<A, B>, k: A, v1: B, v2: B)
    requires
        m.dom().finite(),
        !m.contains_key(k),
        m.len() < isize::MAX,
    ensures
        ({
            let first = after_insert_if_absent(m, k, v1);
            let both = after_insert_if_absent(first, k, v2);
            &&& lookup(first, k) == Some(v1)
            &&& both == first
            &&& lookup(both, k) == Some(v1)
            &&& both.len() == m.len() + 1
            &&& spec_size(both) == spec_size(m) + 1
        }),
{
    let first = after_insert_if_absent(m, k, v1);
    lemma_size_is_the_number_of_entries(m);
    lemma_size_is_the_number_of_entries(first);
}

} // verus!
