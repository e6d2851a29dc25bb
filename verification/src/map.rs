//! The table: buckets indexed by spread hash, created on first use,
//! doubled bucket by bucket while lookups and updates go on, and counted
//! by the sharded counter.

use vstd::prelude::*;
use vstd::arithmetic::power2::is_pow2;
use vstd::wrapping::isize_specs::signed_crop;
use std::sync::Arc;
use crate::bin::{BaseNode, MIN_TREEIFY_CAPACITY, TREEIFY_THRESHOLD, UNTREEIFY_THRESHOLD};
use crate::control::{
    init_step, is_last_resizer, joinable, lemma_resize_word, presize_step, presize_target, resize_step,
    lemma_presize_target, resize_threshold, resize_word, spec_initial_capacity, spec_presize_capacity,
    spec_presize_target, spec_resize_threshold, spec_resizers_of, spec_stamp_of,
    spec_resize_word, spec_transfer_step, spec_transfer_stride, transfer_stride, InitStep, PresizeStep,
    ResizeStep, TransferCursor, TransferStep, CREATING,
};
use crate::counter::{lemma_wrapping_add_crop, resize_check_due, size_of_count, Counter};
use crate::key::{slot_hash, Key};
use crate::laws::spec_size;
use crate::node::{lookup, pointed, pointee};
use crate::sizing::{
    lemma_pow2_is_single_bit, lemma_single_bit_is_pow2, single_bit, spread, lemma_maximum_capacity, max_resizers, maximum_capacity, spec_resize_stamp,
};

verus! {

/// The index of the bucket for a spread hash in a table of length `n`, a
/// power of two: the low bits of the hash.
pub open spec fn spec_bucket_index(hash: u64, n: nat) -> int {
    (hash & ((n - 1) as u64)) as int
}

/// Returns the index of the bucket for a spread hash in a table of length
/// `n`.
pub fn bucket_index(hash: u64, n: usize) -> (i: usize)
    requires
        n >= 1,
    ensures
        i == spec_bucket_index(hash, n as nat),
        i < n,
{
    let m: u64 = (n - 1) as u64;
    assert(hash & m <= m) by (bit_vector);
    (hash & m) as usize
}

/// In a table of twice the length, a hash without the bit `n` keeps its
/// index, and one with it moves `n` buckets up.
proof fn lemma_split_index_bits(h: u64, n: u64)
    by (bit_vector)
    requires
        single_bit(n),
        n <= 0x4000_0000_0000_0000u64,
    ensures
        h & ((n - 1) as u64) < n,
        h & n == 0 ==> h & ((2 * n - 1) as u64) == h & ((n - 1) as u64),
        h & n != 0 ==> h & ((2 * n - 1) as u64) == (h & ((n - 1) as u64)) + n,
{
}

/// In a table of twice the length, a hash without the bit `n` keeps its
/// index, and one with it moves `n` buckets up.
proof fn lemma_split_index(h: u64, n: u64)
    requires
        single_bit(n),
        n <= maximum_capacity(),
    ensures
        h & ((n - 1) as u64) < n,
        h & n == 0 ==> h & ((2 * n - 1) as u64) == h & ((n - 1) as u64),
        h & n != 0 ==> h & ((2 * n - 1) as u64) == (h & ((n - 1) as u64)) + n,
{
    lemma_maximum_capacity();
    lemma_split_index_bits(h, n);
}

/// Whether every key of `bucket` belongs at index `i` of a table of
/// length `n`.
pub open spec fn covers<K: Key, V>(bucket: BaseNode<K, V>, i: int, n: nat) -> bool {
    forall|k: K::V| #[trigger]
        bucket.as_map().contains_key(k) ==> spec_bucket_index(slot_hash::<K>(k), n) == i
}

/// What a table and its next table hold under a key: the entry in the
/// key's bucket, or in the key's bucket of the next table where the
/// former has been moved.
pub open spec fn entry_in<K: Key, V>(
    table: Seq<BaseNode<K, V>>,
    next: Seq<BaseNode<K, V>>,
    k: K::V,
) -> Option<V> {
    if table.len() == 0 {
        None
    } else {
        let i = spec_bucket_index(slot_hash::<K>(k), table.len());
        if table[i].moved() {
            lookup(next[spec_bucket_index(slot_hash::<K>(k), next.len())].as_map(), k)
        } else {
            lookup(table[i].as_map(), k)
        }
    }
}

/// The entries of a table and its next table.
pub open spec fn entries_in<K: Key, V>(
    table: Seq<BaseNode<K, V>>,
    next: Seq<BaseNode<K, V>>,
) -> Map<K::V, V> {
    Map::new(
        |k: K::V| entry_in(table, next, k) is Some,
        |k: K::V| entry_in(table, next, k)->0,
    )
}

/// Whether a table of buckets, and the next table while the former is
/// being moved, are well formed: each bucket is, and holds only keys that
/// belong at its index; forwarding markers stand only in a table that is
/// being moved, and not in the next table; and the buckets of the next
/// table are empty until the bucket that they take over has been moved.
pub open spec fn tables_wf<K: Key, V>(
    table: Seq<BaseNode<K, V>>,
    next: Seq<BaseNode<K, V>>,
) -> bool {
    let n = table.len();
    let m = next.len();
    &&& n <= maximum_capacity()
    &&& n > 0 ==> is_pow2(n as int)
    &&& m > 0 ==> m == 2 * n && n < maximum_capacity()
    &&& forall|i: int|
        #![trigger table[i]]
        0 <= i < n ==> table[i].wf() && covers(table[i], i, n) && (table[i].moved() ==> m > 0)
    &&& forall|j: int|
        #![trigger next[j]]
        0 <= j < m ==> next[j].wf() && covers(next[j], j, m) && !next[j].moved()
    &&& forall|i: int|
        #![trigger table[i]]
        0 <= i < n && m > 0 && !table[i].moved() ==> next[i].vacant() && next[i + n].vacant()
}

/// The number of resizers at work among `rs`; the ones that have left
/// stand as `None`.
pub open spec fn working(rs: Seq<Option<TransferCursor>>) -> nat
    decreases rs.len(),
{
    if rs.len() == 0 {
        0
    } else {
        working(rs.drop_last()) + if rs.last() is Some {
            1nat
        } else {
            0nat
        }
    }
}

/// Whether one of the resizers is on its last pass.
pub open spec fn sweeping(rs: Seq<Option<TransferCursor>>) -> bool {
    exists|id: int| 0 <= id < rs.len() && (#[trigger] rs[id]) is Some && rs[id]->0.finishing
}

/// Whether a resizer's cursor fits the table: it holds buckets of the
/// table, and on the last pass every bucket above it has been moved.
pub open spec fn cursor_wf<K: Key, V>(c: TransferCursor, table: Seq<BaseNode<K, V>>) -> bool {
    &&& c.bound <= c.next <= table.len()
    &&& c.finishing ==> c.bound == 0 && forall|j: int|
        #![trigger table[j]]
        c.next <= j < table.len() ==> table[j].moved()
}

proof fn lemma_working_push(rs: Seq<Option<TransferCursor>>, c: Option<TransferCursor>)
    ensures
        working(rs.push(c)) == working(rs) + if c is Some {
            1nat
        } else {
            0nat
        },
{
    assert(rs.push(c).drop_last() =~= rs);
}

proof fn lemma_working_update(rs: Seq<Option<TransferCursor>>, id: int, c: Option<TransferCursor>)
    requires
        0 <= id < rs.len(),
    ensures
        working(rs.update(id, c)) == working(rs) - (if rs[id] is Some {
            1int
        } else {
            0int
        }) + if c is Some {
            1int
        } else {
            0int
        },
    decreases rs.len(),
{
    if id == rs.len() - 1 {
        assert(rs.update(id, c).drop_last() =~= rs.drop_last());
    } else {
        assert(rs.update(id, c).drop_last() =~= rs.drop_last().update(id, c));
        lemma_working_update(rs.drop_last(), id, c);
    }
}

/// Where one resizer is at work, it is the only one.
proof fn lemma_working_alone(rs: Seq<Option<TransferCursor>>, id: int, other: int)
    requires
        0 <= id < rs.len(),
        0 <= other < rs.len(),
        rs[id] is Some,
        other != id,
        working(rs) <= 1,
    ensures
        rs[other] is None,
        working(rs) == 1,
    decreases rs.len(),
{
    let front = rs.drop_last();
    if id == rs.len() - 1 {
        lemma_working_idle(front, other);
    } else if other == rs.len() - 1 {
        lemma_working_positive(front, id);
    } else {
        lemma_working_alone(front, id, other);
    }
}

/// A resizer at work counts.
proof fn lemma_working_positive(rs: Seq<Option<TransferCursor>>, id: int)
    requires
        0 <= id < rs.len(),
        rs[id] is Some,
    ensures
        working(rs) >= 1,
    decreases rs.len(),
{
    if id < rs.len() - 1 {
        lemma_working_positive(rs.drop_last(), id);
    }
}

/// Where none is at work, each has left.
proof fn lemma_working_idle(rs: Seq<Option<TransferCursor>>, id: int)
    requires
        0 <= id < rs.len(),
        working(rs) == 0,
    ensures
        rs[id] is None,
    decreases rs.len(),
{
    if id < rs.len() - 1 {
        lemma_working_idle(rs.drop_last(), id);
    }
}

/// Where each has left, none is at work.
proof fn lemma_working_none(rs: Seq<Option<TransferCursor>>)
    requires
        forall|id: int| 0 <= id < rs.len() ==> (#[trigger] rs[id]) is None,
    ensures
        working(rs) == 0,
    decreases rs.len(),
{
    if rs.len() > 0 {
        lemma_working_none(rs.drop_last());
    }
}

/// Whether a resizer is on its last pass after the resizer `id` has taken
/// a step.
proof fn lemma_sweeping_update(rs: Seq<Option<TransferCursor>>, id: int, c: Option<TransferCursor>)
    requires
        0 <= id < rs.len(),
        rs[id] is Some,
    ensures
        c is Some && c->0.finishing ==> sweeping(rs.update(id, c)),
        c is Some && c->0.finishing == rs[id]->0.finishing ==> sweeping(rs.update(id, c)) == sweeping(
            rs,
        ),
        !sweeping(rs) && (c is None || !c->0.finishing) ==> !sweeping(rs.update(id, c)),
{
    let after = rs.update(id, c);
    if c is Some && c->0.finishing {
        assert(after[id] is Some && after[id]->0.finishing);
    }
    if sweeping(rs) && c is Some && c->0.finishing == rs[id]->0.finishing {
        let w = choose|w: int| 0 <= w < rs.len() && (#[trigger] rs[w]) is Some && rs[w]->0.finishing;
        assert(after[w] is Some && after[w]->0.finishing);
    }
}

/// A hash map for many threads, as the one thread that holds it sees it.
/// Every operation is one step of the shared table: a lookup, an update
/// of one bucket, a step of one of the threads that move the table.
pub struct ConcurrentHashMap<K: Key, V> {
    table: Vec<BaseNode<K, V>>,
    next_table: Vec<BaseNode<K, V>>,
    counter: Counter,
    size_ctl: isize,
    transfer_index: isize,
    resizers: Vec<Option<TransferCursor>>,
    ncpu: usize,
    base_free: bool,
    cells_free: bool,
    probe: u64,
}

impl<K: Key, V> View for ConcurrentHashMap<K, V> {
    type V = Map<K::V, V>;

    closed spec fn view(&self) -> Map<K::V, V> {
        entries_in(self.table@, self.next_table@)
    }
}

/// Makes a table of `n` empty buckets.
fn new_tab<K: Key, V>(n: usize) -> (tab: Vec<BaseNode<K, V>>)
    ensures
        tab.len() == n,
        forall|i: int|
            #![trigger tab[i]]
            0 <= i < n ==> tab[i].wf() && tab[i].vacant() && !tab[i].moved() && tab[i].as_map()
                == Map::<K::V, V>::empty(),
{
    let mut tab: Vec<BaseNode<K, V>> = Vec::new();
    let mut i: usize = 0;
    while i < n
        invariant
            i <= n,
            tab.len() == i,
            forall|j: int|
                #![trigger tab[j]]
                0 <= j < i ==> tab[j].wf() && tab[j].vacant() && !tab[j].moved() && tab[j].as_map()
                    == Map::<K::V, V>::empty(),
        decreases n - i,
    {
        tab.push(BaseNode::new());
        i = i + 1;
    }
    tab
}

/// Whether going from the map `a` to the map `b` has left the buckets
/// alone but for moving them to a longer table. The bucket of a key that
/// is in a table of the same length as before has the size and the kind
/// that it had. A bucket that has been moved has parted with entries at
/// most, and is a tree exactly if it was one and still holds more than
/// `UNTREEIFY_THRESHOLD` entries.
pub open spec fn undisturbed<K: Key, V>(a: ConcurrentHashMap<K, V>, b: ConcurrentHashMap<K, V>) -> bool {
    forall|k: K::V|
        #![trigger b.home_capacity(k)]
        {
            &&& b.home_capacity(k) >= a.home_capacity(k)
            &&& b.home_capacity(k) == a.home_capacity(k) ==> b.bucket_size(k) == a.bucket_size(k)
            &&& b.bucket_size(k) <= a.bucket_size(k)
            &&& b.in_tree(k) == (a.in_tree(k) && b.bucket_size(k) > UNTREEIFY_THRESHOLD)
        }
}

/// Going on from an undisturbed map leaves it undisturbed.
pub proof fn lemma_undisturbed<K: Key, V>(
    a: ConcurrentHashMap<K, V>,
    b: ConcurrentHashMap<K, V>,
    c: ConcurrentHashMap<K, V>,
)
    requires
        undisturbed(a, b),
        undisturbed(b, c),
    ensures
        undisturbed(a, c),
{
    assert forall|k: K::V| #![trigger c.home_capacity(k)] {
        &&& c.home_capacity(k) >= a.home_capacity(k)
        &&& c.home_capacity(k) == a.home_capacity(k) ==> c.bucket_size(k) == a.bucket_size(k)
        &&& c.bucket_size(k) <= a.bucket_size(k)
        &&& c.in_tree(k) == (a.in_tree(k) && c.bucket_size(k) > UNTREEIFY_THRESHOLD)
    } by {
        let _ = b.home_capacity(k);
    }
}

/// A bucket that is a tree holds more than `UNTREEIFY_THRESHOLD` entries.
proof fn lemma_tree_is_large<K: Key, V>(a: ConcurrentHashMap<K, V>, k: K::V)
    requires
        tables_wf(a.table@, a.next_table@),
    ensures
        a.in_tree(k) ==> a.bucket_size(k) > UNTREEIFY_THRESHOLD,
{
    let n = a.table@.len();
    if n > 0 {
        lemma_pow2_is_single_bit(n as u64);
        lemma_split_index(slot_hash::<K>(k), n as u64);
        let i = spec_bucket_index(slot_hash::<K>(k), n);
        if a.table@[i].moved() {
            a.next_table@[spec_bucket_index(slot_hash::<K>(k), 2 * n)].lemma_len();
        } else {
            a.table@[i].lemma_len();
        }
    }
}

/// Maps with the same buckets are undisturbed.
proof fn lemma_same_buckets<K: Key, V>(a: ConcurrentHashMap<K, V>, b: ConcurrentHashMap<K, V>)
    requires
        tables_wf(a.table@, a.next_table@),
        forall|k: K::V|
            #![trigger b.home_capacity(k)]
            b.home_capacity(k) == a.home_capacity(k) && b.bucket_size(k) == a.bucket_size(k)
                && b.in_tree(k) == a.in_tree(k),
    ensures
        undisturbed(a, b),
{
    assert forall|k: K::V| #![trigger b.home_capacity(k)] {
        &&& b.home_capacity(k) >= a.home_capacity(k)
        &&& b.home_capacity(k) == a.home_capacity(k) ==> b.bucket_size(k) == a.bucket_size(k)
        &&& b.bucket_size(k) <= a.bucket_size(k)
        &&& b.in_tree(k) == (a.in_tree(k) && b.bucket_size(k) > UNTREEIFY_THRESHOLD)
    } by {
        lemma_tree_is_large(a, k);
        assert(b.home_capacity(k) == a.home_capacity(k));
    }
}

/// A map is undisturbed by nothing.
proof fn lemma_buckets_at_rest<K: Key, V>(a: ConcurrentHashMap<K, V>)
    requires
        tables_wf(a.table@, a.next_table@),
    ensures
        undisturbed(a, a),
{
    lemma_same_buckets(a, a);
}

/// Maps with the same tables have the same buckets.
proof fn lemma_same_tables<K: Key, V>(a: ConcurrentHashMap<K, V>, b: ConcurrentHashMap<K, V>)
    requires
        tables_wf(a.table@, a.next_table@),
        a.table@ == b.table@,
        a.next_table@ == b.next_table@,
    ensures
        undisturbed(a, b),
        a@ == b@,
{
    assert forall|k: K::V| #![trigger b.home_capacity(k)] b.home_capacity(k) == a.home_capacity(k)
        && b.bucket_size(k) == a.bucket_size(k) && b.in_tree(k) == a.in_tree(k) by {}
    lemma_same_buckets(a, b);
}

/// A map that has got its table is undisturbed: it held nothing.
proof fn lemma_table_created<K: Key, V>(a: ConcurrentHashMap<K, V>, b: ConcurrentHashMap<K, V>)
    requires
        a.table@.len() == 0,
        forall|k: K::V|
            #![trigger b.home_capacity(k)]
            b.home_capacity(k) >= 0 && b.bucket_size(k) == 0 && !b.in_tree(k),
    ensures
        undisturbed(a, b),
{
    assert forall|k: K::V| #![trigger b.home_capacity(k)] {
        &&& b.home_capacity(k) >= a.home_capacity(k)
        &&& b.home_capacity(k) == a.home_capacity(k) ==> b.bucket_size(k) == a.bucket_size(k)
        &&& b.bucket_size(k) <= a.bucket_size(k)
        &&& b.in_tree(k) == (a.in_tree(k) && b.bucket_size(k) > UNTREEIFY_THRESHOLD)
    } by {}
}

impl<K: Key, V> ConcurrentHashMap<K, V> {
    /// The length of the table; zero until the table is created.
    pub closed spec fn capacity(self) -> nat {
        self.table@.len()
    }

    /// Whether the table is being moved to one of twice the length.
    pub closed spec fn resizing(self) -> bool {
        self.next_table@.len() > 0
    }

    /// The number of buckets that no thread has claimed yet for the move.
    pub closed spec fn unclaimed(self) -> int {
        self.transfer_index as int
    }

    /// The control word.
    pub closed spec fn control(self) -> isize {
        self.size_ctl
    }

    /// The number of processors that the strides are cut for.
    pub closed spec fn parallelism(self) -> usize {
        self.ncpu
    }

    /// What the thread meets at the counter: whether the base value is
    /// free to take an update, whether the right to create the cells is
    /// free, and the thread's probe.
    pub closed spec fn contention(self) -> (bool, bool, u64) {
        (self.base_free, self.cells_free, self.probe)
    }

    /// The number of threads that have taken part in the move under way.
    pub closed spec fn resizer_slots(self) -> nat {
        self.resizers@.len()
    }

    /// Where the resizer `id` of the move under way stands; `None` once it
    /// has left.
    pub closed spec fn resizer(self, id: int) -> Option<TransferCursor> {
        if 0 <= id < self.resizers@.len() {
            self.resizers@[id]
        } else {
            None
        }
    }

    /// The number of resizers at work.
    pub closed spec fn resizers_at_work(self) -> nat {
        working(self.resizers@)
    }

    /// Whether a resizer is on its last pass.
    pub closed spec fn on_last_pass(self) -> bool {
        sweeping(self.resizers@)
    }

    /// Whether the bucket with index `i` holds the forwarding marker.
    pub closed spec fn forwarded(self, i: int) -> bool {
        0 <= i < self.table@.len() && self.table@[i].moved()
    }

    /// The length of the table in which the entry of `k` stands, or would
    /// stand: the next table where the bucket of `k` has been moved.
    pub closed spec fn home_capacity(self, k: K::V) -> nat {
        let n = self.table@.len();
        if n > 0 && self.table@[spec_bucket_index(slot_hash::<K>(k), n)].moved() {
            2 * n
        } else {
            n
        }
    }

    /// Whether the entry of `k` stands, or would stand, in a tree.
    pub closed spec fn in_tree(self, k: K::V) -> bool {
        let n = self.table@.len();
        let i = spec_bucket_index(slot_hash::<K>(k), n);
        n > 0 && if self.table@[i].moved() {
            self.next_table@[spec_bucket_index(slot_hash::<K>(k), 2 * n)].treeified()
        } else {
            self.table@[i].treeified()
        }
    }

    /// The number of entries in the bucket where the entry of `k` stands,
    /// or would stand.
    pub closed spec fn bucket_size(self, k: K::V) -> nat {
        let n = self.table@.len();
        let i = spec_bucket_index(slot_hash::<K>(k), n);
        if n == 0 {
            0
        } else if self.table@[i].moved() {
            self.next_table@[spec_bucket_index(slot_hash::<K>(k), 2 * n)].len()
        } else {
            self.table@[i].len()
        }
    }

    /// The tables are well formed, and the control word says what state
    /// they are in: while the table is moved, how many resizers are at
    /// work, and none once the last of them is on its last pass.
    spec fn structure_wf(self) -> bool {
        let n = self.table@.len();
        let m = self.next_table@.len();
        let rs = self.resizers@;
        &&& tables_wf(self.table@, self.next_table@)
        &&& self.ncpu >= 1
        &&& n == 0 ==> m == 0 && 0 <= self.size_ctl <= maximum_capacity() && (self.size_ctl == 0
            || is_pow2(self.size_ctl as int))
        &&& n > 0 && m == 0 ==> self.size_ctl == spec_resize_threshold(n as usize)
        &&& m == 0 ==> rs.len() == 0
        &&& m > 0 ==> {
            &&& 0 <= self.transfer_index <= n
            &&& working(rs) >= 1
            &&& forall|id: int|
                0 <= id < rs.len() && (#[trigger] rs[id]) is Some ==> cursor_wf(
                    rs[id]->0,
                    self.table@,
                )
            &&& if sweeping(rs) {
                working(rs) == 1 && self.size_ctl == spec_resize_word(n as isize, 0)
            } else {
                working(rs) < max_resizers() && self.size_ctl == spec_resize_word(
                    n as isize,
                    working(rs) as int,
                )
            }
        }
    }

    /// Whether the table needs no resize: the count does not exceed the
    /// threshold, or the table has the largest capacity, or it is being
    /// moved.
    pub open spec fn settled(self) -> bool {
        ||| self.resizing()
        ||| self.capacity() >= maximum_capacity()
        ||| self.capacity() > 0 && signed_crop(self@.len() as int) <= spec_resize_threshold(
            self.capacity() as usize,
        )
    }

    /// Whether the insertion of the key `k` makes the table grow: the key
    /// is new, and either the count then exceeds the threshold of a table
    /// that can grow, or the key's chain then reaches `TREEIFY_THRESHOLD`
    /// entries in a table too small for trees.
    pub open spec fn grows_on_insert(self, k: K::V) -> bool {
        &&& !self@.contains_key(k)
        &&& {
            ||| self.capacity() < maximum_capacity() && signed_crop((self@.len() + 1) as int)
                > spec_resize_threshold(self.capacity() as usize)
            ||| self.capacity() < MIN_TREEIFY_CAPACITY && !self.in_tree(k) && self.bucket_size(k)
                + 1 >= TREEIFY_THRESHOLD
        }
    }

    /// What an insertion under the key `k` makes of the table of the map
    /// `before`. A map without a table gets one of the initial capacity. A
    /// table that is not being moved is not being moved afterwards: it has
    /// its length where the insertion does not make it grow, and at least
    /// twice its length where it does. After a new entry the table needs
    /// no resize. The key's bucket, where it stands in a table of the same
    /// length as the insertion found it, has one entry more for a new key;
    /// where the table has grown since, it has parted with entries at
    /// most. It is a tree exactly if it was one or became one by the
    /// insertion, and still holds more than `UNTREEIFY_THRESHOLD` entries.
    pub open spec fn shaped_by_insert(self, before: Self, k: K::V) -> bool {
        let fresh = !before@.contains_key(k);
        &&& self.parallelism() == before.parallelism()
        &&& self.contention() == before.contention()
        &&& self.capacity() >= before.capacity()
        &&& self.capacity() >= 1
        &&& !before.resizing() ==> !self.resizing()
        &&& before.capacity() == 0 ==> self.capacity() == spec_initial_capacity(before.control())
        &&& !before.resizing() && before.capacity() > 0 ==> if before.grows_on_insert(k) {
            self.capacity() >= 2 * before.capacity()
        } else {
            self.capacity() == before.capacity()
        }
        &&& fresh ==> self.settled()
        &&& self.home_capacity(k) >= before.put_home(k)
        &&& self.home_capacity(k) == before.put_home(k) ==> self.bucket_size(k) == before.put_size(k)
        &&& 1 <= self.bucket_size(k) <= before.put_size(k)
        &&& self.in_tree(k) == (before.put_tree(k) && self.bucket_size(k) > UNTREEIFY_THRESHOLD)
    }

    /// The length of the table in which an insertion under the key `k`
    /// finds the key's bucket: the initial capacity where the table is yet
    /// to be created.
    pub open spec fn put_home(self, k: K::V) -> nat {
        if self.capacity() == 0 {
            spec_initial_capacity(self.control()) as nat
        } else {
            self.home_capacity(k)
        }
    }

    /// The number of entries that the bucket of the key `k` holds once `k`
    /// has been inserted.
    pub open spec fn put_size(self, k: K::V) -> nat {
        self.bucket_size(k) + if self@.contains_key(k) {
            0nat
        } else {
            1nat
        }
    }

    /// Whether the bucket of the key `k` is a tree once `k` has been
    /// inserted: it was one, or the new entry is its `TREEIFY_THRESHOLD`th
    /// or a later one in a table of at least `MIN_TREEIFY_CAPACITY`
    /// buckets.
    pub open spec fn put_tree(self, k: K::V) -> bool {
        self.in_tree(k) || (!self@.contains_key(k) && self.put_size(k) >= TREEIFY_THRESHOLD
            && self.put_home(k) >= MIN_TREEIFY_CAPACITY)
    }

    /// The map is well formed: its tables are, the control word says what
    /// state they are in, and the counter holds the number of entries.
    pub closed spec fn wf(self) -> bool {
        &&& self.structure_wf()
        &&& self@.dom().finite()
        &&& self.counter.total() == signed_crop(self@.len() as int)
    }

    /// What the control word of a well-formed map says: without a table,
    /// the capacity to create it with, or zero; with a table at rest, the
    /// count at which to resize, three quarters of its length; while the
    /// table is moved, the stamp of its length and the number of resizers
    /// at work, which is zero once the last of them is on its last pass.
    pub proof fn lemma_control(self)
        requires
            self.wf(),
        ensures
            self.capacity() <= maximum_capacity(),
            self.capacity() > 0 ==> is_pow2(self.capacity() as int),
            self.capacity() == 0 ==> !self.resizing() && 0 <= self.control() <= maximum_capacity()
                && (self.control() == 0 || is_pow2(self.control() as int)),
            self.capacity() > 0 && !self.resizing() ==> self.control() == spec_resize_threshold(
                self.capacity() as usize,
            ),
            !self.resizing() ==> self.resizer_slots() == 0,
            self.resizing() ==> self.capacity() < maximum_capacity() && 0 <= self.unclaimed()
                <= self.capacity() && self.resizers_at_work() >= 1,
            self.resizing() && self.on_last_pass() ==> self.resizers_at_work() == 1
                && self.control() == spec_resize_word(self.capacity() as isize, 0),
            self.resizing() && !self.on_last_pass() ==> self.resizers_at_work() < max_resizers()
                && self.control() == spec_resize_word(
                self.capacity() as isize,
                self.resizers_at_work() as int,
            ),
            self.resizing() ==> self.control() < -1 && spec_stamp_of(self.control())
                == spec_resize_stamp(self.capacity() as isize) && spec_resizers_of(self.control())
                == if self.on_last_pass() {
                0
            } else {
                self.resizers_at_work() as int
            },
            self.resizing() ==> isize::MIN < spec_resize_word(self.capacity() as isize, 0)
                && spec_resize_word(self.capacity() as isize, 1) < -1,
            self.capacity() == 0 ==> self@ == Map::<K::V, V>::empty(),
            self.parallelism() >= 1,
            forall|i: int| self.forwarded(i) ==> self.resizing(),
            self@.dom().finite(),
    {
        assert forall|i: int| self.forwarded(i) implies self.resizing() by {}
        if self.resizing() {
            lemma_resize_word(self.capacity() as isize, 1);
            lemma_resize_word(self.capacity() as isize, 0);
            if !self.on_last_pass() {
                lemma_resize_word(self.capacity() as isize, self.resizers_at_work() as int);
            }
        }
    }

    /// The entry of every key of a map that is not being moved stands in
    /// the table.
    pub proof fn lemma_home(self, k: K::V)
        requires
            self.wf(),
            !self.resizing(),
        ensures
            self.home_capacity(k) == self.capacity(),
    {
        let n = self.table@.len();
        if n > 0 {
            lemma_pow2_is_single_bit(n as u64);
            lemma_split_index(slot_hash::<K>(k), n as u64);
        }
    }

    /// Keys of equal spread hash share one bucket.
    pub proof fn lemma_same_hash_same_bucket(self, a: K::V, b: K::V)
        requires
            slot_hash::<K>(a) == slot_hash::<K>(b),
        ensures
            self.home_capacity(a) == self.home_capacity(b),
            self.bucket_size(a) == self.bucket_size(b),
            self.in_tree(a) == self.in_tree(b),
    {
    }

    /// The bucket of a key holds every entry of the map whose key has the
    /// same spread hash.
    pub proof fn lemma_bucket_holds(self, k: K::V, s: Set<K::V>)
        requires
            self.wf(),
            s.finite(),
            forall|x: K::V|
                s.contains(x) ==> self@.contains_key(x) && slot_hash::<K>(x) == slot_hash::<K>(k),
        ensures
            self.bucket_size(k) >= s.len(),
    {
        let n = self.table@.len();
        if n > 0 {
            lemma_pow2_is_single_bit(n as u64);
            lemma_split_index(slot_hash::<K>(k), n as u64);
            let i = spec_bucket_index(slot_hash::<K>(k), n);
            let b = if self.table@[i].moved() {
                self.next_table@[spec_bucket_index(slot_hash::<K>(k), 2 * n)]
            } else {
                self.table@[i]
            };
            b.lemma_len();
            assert(s.subset_of(b.as_map().dom())) by {
                assert forall|x: K::V| s.contains(x) implies b.as_map().dom().contains(x) by {
                    assert(entry_in(self.table@, self.next_table@, x) is Some);
                }
            }
            vstd::set_lib::lemma_len_subset(s, b.as_map().dom());
        } else {
            assert(self@ =~= Map::<K::V, V>::empty());
            assert(s =~= Set::<K::V>::empty());
        }
    }

    /// A bucket of more than `UNTREEIFY_THRESHOLD` entries is behind every
    /// tree: an entry stands in a chain wherever its bucket holds that
    /// many or fewer.
    pub proof fn lemma_trees_are_large(self, k: K::V)
        requires
            self.wf(),
        ensures
            self.in_tree(k) ==> self.bucket_size(k) > UNTREEIFY_THRESHOLD,
            self@.contains_key(k) ==> self.bucket_size(k) >= 1,
            self.bucket_size(k) <= self@.len(),
    {
        let n = self.table@.len();
        if n > 0 {
            lemma_pow2_is_single_bit(n as u64);
            lemma_split_index(slot_hash::<K>(k), n as u64);
            let i = spec_bucket_index(slot_hash::<K>(k), n);
            let b = if self.table@[i].moved() {
                self.next_table@[spec_bucket_index(slot_hash::<K>(k), 2 * n)]
            } else {
                self.table@[i]
            };
            b.lemma_len();
            assert(b.as_map().dom().subset_of(self@.dom())) by {
                assert forall|x: K::V| b.as_map().dom().contains(x) implies self@.dom().contains(
                    x,
                ) by {
                    lemma_split_index(slot_hash::<K>(x), n as u64);
                }
            }
            vstd::set_lib::lemma_len_subset(b.as_map().dom(), self@.dom());
        }
    }

    /// A map without a table and without entries.
    pub fn new() -> (map: Self)
        ensures
            map.wf(),
            map@ == Map::<K::V, V>::empty(),
            map.capacity() == 0,
            !map.resizing(),
            map.control() == 0,
            map.parallelism() == 1,
    {
        let map = ConcurrentHashMap {
            table: Vec::new(),
            next_table: Vec::new(),
            counter: Counter::new(),
            size_ctl: 0,
            transfer_index: 0,
            resizers: Vec::new(),
            ncpu: 1,
            base_free: true,
            cells_free: true,
            probe: 0,
        };
        assert(map@ =~= Map::<K::V, V>::empty());
        map
    }

    /// A map without a table that will create it large enough for
    /// `capacity` elements.
    pub fn with_capacity(capacity: usize) -> (map: Self)
        ensures
            map.wf(),
            map@ == Map::<K::V, V>::empty(),
            map.capacity() == 0,
            !map.resizing(),
            map.control() == spec_presize_target(capacity),
            map.parallelism() == 1,
    {
        let map = ConcurrentHashMap {
            table: Vec::new(),
            next_table: Vec::new(),
            counter: Counter::new(),
            size_ctl: presize_target(capacity) as isize,
            transfer_index: 0,
            resizers: Vec::new(),
            ncpu: 1,
            base_free: true,
            cells_free: true,
            probe: 0,
        };
        assert(map@ =~= Map::<K::V, V>::empty());
        map
    }

    /// Sets the number of processors that the strides of a move are cut
    /// for; zero counts as one.
    pub fn set_parallelism(&mut self, ncpu: usize)
        requires
            old(self).wf(),
        ensures
            final(self).wf(),
            final(self)@ == old(self)@,
            final(self).capacity() == old(self).capacity(),
            final(self).resizing() == old(self).resizing(),
            final(self).unclaimed() == old(self).unclaimed(),
            final(self).control() == old(self).control(),
            final(self).resizers_at_work() == old(self).resizers_at_work(),
            final(self).resizer_slots() == old(self).resizer_slots(),
            forall|id: int| final(self).resizer(id) == old(self).resizer(id),
            undisturbed(*old(self), *final(self)),
            final(self).parallelism() == if ncpu == 0 {
                1
            } else {
                ncpu
            },
    {
        self.ncpu = if ncpu == 0 {
            1
        } else {
            ncpu
        };
        proof {
            lemma_same_tables(*old(self), *self);
        }
    }

    /// Sets what the thread meets at the counter from now on: whether the
    /// base value is free to take an update, whether the right to create
    /// the cells is free, and the thread's probe.
    pub fn set_contention(&mut self, base_free: bool, cells_free: bool, probe: u64)
        requires
            old(self).wf(),
        ensures
            final(self).wf(),
            final(self)@ == old(self)@,
            final(self).capacity() == old(self).capacity(),
            final(self).resizing() == old(self).resizing(),
            final(self).unclaimed() == old(self).unclaimed(),
            final(self).control() == old(self).control(),
            final(self).resizers_at_work() == old(self).resizers_at_work(),
            final(self).resizer_slots() == old(self).resizer_slots(),
            forall|id: int| final(self).resizer(id) == old(self).resizer(id),
            forall|i: int| final(self).forwarded(i) == old(self).forwarded(i),
            undisturbed(*old(self), *final(self)),
            final(self).parallelism() == old(self).parallelism(),
            final(self).contention() == (base_free, cells_free, probe),
    {
        self.base_free = base_free;
        self.cells_free = cells_free;
        self.probe = probe;
        proof {
            lemma_same_tables(*old(self), *self);
        }
    }

    /// The length of the table; zero until the table is created.
    pub fn table_len(&self) -> (n: usize)
        ensures
            n == self.capacity(),
    {
        self.table.len()
    }

    /// The control word.
    pub fn size_ctl(&self) -> (sc: isize)
        ensures
            sc == self.control(),
    {
        self.size_ctl
    }

    /// The number of buckets that no thread has claimed yet for the move.
    pub fn transfer_index(&self) -> (index: isize)
        ensures
            index == self.unclaimed(),
    {
        self.transfer_index
    }

    /// Whether the table is being moved to one of twice the length.
    pub fn is_resizing(&self) -> (b: bool)
        ensures
            b == self.resizing(),
    {
        self.next_table.len() > 0
    }

    /// Whether the bucket with index `i` holds the forwarding marker.
    pub fn is_forwarded(&self, i: usize) -> (b: bool)
        ensures
            b == self.forwarded(i as int),
    {
        i < self.table.len() && self.table[i].is_moved()
    }

    /// Whether the entry of `key` stands, or would stand, in a tree.
    pub fn is_in_tree(&self, key: &K) -> (b: bool)
        requires
            self.wf(),
        ensures
            b == self.in_tree(key@),
    {
        let hash = spread(key.hash_code());
        let n = self.table.len();
        if n == 0 {
            return false;
        }
        let i = bucket_index(hash, n);
        if self.table[i].is_moved() {
            self.next_table[bucket_index(hash, self.next_table.len())].is_tree()
        } else {
            self.table[i].is_tree()
        }
    }

    /// The sum of the counter.
    pub fn sum_count(&self) -> (sum: isize)
        requires
            self.wf(),
        ensures
            sum == signed_crop(self@.len() as int),
    {
        self.counter.sum_count()
    }

    /// The number of entries: the sum of the counter, or zero where the
    /// sum is negative.
    pub fn size(&self) -> (n: usize)
        requires
            self.wf(),
        ensures
            n == spec_size(self@),
            self@.len() <= isize::MAX ==> n == self@.len(),
    {
        proof {
            if self@.len() <= isize::MAX {
                crate::counter::lemma_signed_crop_in_range(self@.len() as int);
            }
        }
        size_of_count(self.counter.sum_count())
    }

    /// Looks `key` up: in its bucket, or in its bucket of the next table
    /// where the former has been moved. Returns the value of its entry.
    pub fn get(&self, key: &K) -> (r: Option<Arc<V>>)
        requires
            self.wf(),
        ensures
            pointee(r) == lookup(self@, key@),
    {
        let hash = spread(key.hash_code());
        let n = self.table.len();
        if n == 0 {
            return None;
        }
        let i = bucket_index(hash, n);
        let bucket = &self.table[i];
        if bucket.is_moved() {
            let j = bucket_index(hash, self.next_table.len());
            self.next_table[j].find(hash, key)
        } else {
            bucket.find(hash, key)
        }
    }

    /// Moves the bucket with index `i` to the next table, unless it has
    /// been moved: its entries are parted by the bit that tells its index
    /// from the one `n` buckets up, the two parts take their places in
    /// the next table, and the bucket gets the forwarding marker.
    fn transfer_bucket(&mut self, i: usize)
        requires
            old(self).structure_wf(),
            old(self).resizing(),
            i < old(self).capacity(),
        ensures
            final(self).structure_wf(),
            final(self)@ == old(self)@,
            undisturbed(*old(self), *final(self)),
            final(self).table@.len() == old(self).table@.len(),
            final(self).next_table@.len() == old(self).next_table@.len(),
            final(self).size_ctl == old(self).size_ctl,
            final(self).transfer_index == old(self).transfer_index,
            final(self).counter == old(self).counter,
            final(self).ncpu == old(self).ncpu,
            final(self).contention() == old(self).contention(),
            final(self).resizers == old(self).resizers,
            final(self).table@[i as int].moved(),
            forall|j: int|
                #![trigger final(self).table@[j]]
                0 <= j < old(self).table@.len() && old(self).table@[j].moved()
                    ==> final(self).table@[j].moved(),
    {
        if self.table[i].is_moved() {
            proof {
                lemma_buckets_at_rest(*self);
            }
            return ;
        }
        let n = self.table.len();
        let ghost table0 = self.table@;
        let ghost next0 = self.next_table@;
        let mut taken = BaseNode::forwarding();
        core::mem::swap(&mut self.table[i], &mut taken);
        let (lo, hi) = taken.split(n as u64);
        self.next_table[i] = lo;
        self.next_table[i + n] = hi;
        proof {
            let table1 = self.table@;
            let next1 = self.next_table@;
            let b = table0[i as int];
            lemma_pow2_is_single_bit(n as u64);
            assert forall|k: K::V| #[trigger] b.as_map().contains_key(k) implies {
                let h = slot_hash::<K>(k);
                &&& h & (n as u64) == 0 ==> spec_bucket_index(h, 2 * n as nat) == i
                &&& h & (n as u64) != 0 ==> spec_bucket_index(h, 2 * n as nat) == i + n
            } by {
                lemma_split_index(slot_hash::<K>(k), n as u64);
            }
            assert forall|k: K::V| entry_in(table1, next1, k) == entry_in(table0, next0, k) by {
                let h = slot_hash::<K>(k);
                lemma_split_index(h, n as u64);
                let s = spec_bucket_index(h, n as nat);
            }
            assert forall|j: int| #![trigger table1[j]] 0 <= j < n implies table1[j].wf() && covers(
                table1[j],
                j,
                n as nat,
            ) && (table1[j].moved() ==> next1.len() > 0) && (!table1[j].moved() ==> next1[j].vacant()
                && next1[j + n].vacant()) && (table0[j].moved() ==> table1[j].moved()) by {}
            assert forall|j: int| #![trigger next1[j]] 0 <= j < next1.len() implies next1[j].wf()
                && covers(next1[j], j, next1.len()) && !next1[j].moved() by {}
            assert forall|k: K::V| #![trigger self.home_capacity(k)] {
                &&& self.home_capacity(k) >= old(self).home_capacity(k)
                &&& self.home_capacity(k) == old(self).home_capacity(k) ==> self.bucket_size(k)
                    == old(self).bucket_size(k)
                &&& self.bucket_size(k) <= old(self).bucket_size(k)
                &&& self.in_tree(k) == (old(self).in_tree(k) && self.bucket_size(k)
                    > UNTREEIFY_THRESHOLD)
            } by {
                let h = slot_hash::<K>(k);
                lemma_split_index(h, n as u64);
                let s = spec_bucket_index(h, n as nat);
                lemma_tree_is_large(*old(self), k);
            }
            assert forall|id: int|
                0 <= id < self.resizers@.len() && (#[trigger] self.resizers@[id]) is Some implies cursor_wf(
                self.resizers@[id]->0,
                table1,
            ) by {}
        }
    }

    /// Starts the move to a table of twice the length: records the
    /// resize and its first resizer in the control word, creates the next
    /// table, and sets the transfer cursor above the last bucket.
    fn start_transfer(&mut self, word: isize)
        requires
            old(self).wf(),
            !old(self).resizing(),
            0 < old(self).capacity() < maximum_capacity(),
            word == spec_resize_word(old(self).capacity() as isize, 1),
        ensures
            final(self).wf(),
            final(self).resizing(),
            final(self)@ == old(self)@,
            undisturbed(*old(self), *final(self)),
            final(self).capacity() == old(self).capacity(),
            final(self).unclaimed() == old(self).capacity(),
            final(self).parallelism() == old(self).parallelism(),
            final(self).contention() == old(self).contention(),
            final(self).control() == word,
            final(self).resizer_slots() == 1,
            final(self).resizers_at_work() == 1,
            !final(self).on_last_pass(),
            final(self).resizer(0) == Some(
                TransferCursor { next: 0, bound: 0, finishing: false },
            ),
            forall|i: int| !final(self).forwarded(i),
    {
        let n = self.table.len();
        let ghost table0 = self.table@;
        let ghost next0 = self.next_table@;
        self.size_ctl = word;
        self.next_table = new_tab(n + n);
        self.transfer_index = n as isize;
        let mut resizers: Vec<Option<TransferCursor>> = Vec::new();
        resizers.push(Some(TransferCursor::start()));
        self.resizers = resizers;
        proof {
            let next1 = self.next_table@;
            lemma_working_push(Seq::empty(), Some(TransferCursor { next: 0, bound: 0, finishing: false }));
            assert forall|k: K::V| entry_in(table0, next1, k) == entry_in(table0, next0, k) by {
                let s = spec_bucket_index(slot_hash::<K>(k), n as nat);
                lemma_pow2_is_single_bit(n as u64);
                lemma_split_index(slot_hash::<K>(k), n as u64);
            }
            assert(entries_in(table0, next1) =~= entries_in(table0, next0));
            assert forall|j: int| #![trigger next1[j]] 0 <= j < next1.len() implies next1[j].wf()
                && covers(next1[j], j, next1.len()) && !next1[j].moved() by {}
            assert forall|k: K::V| #![trigger self.home_capacity(k)] self.home_capacity(k) == old(self).home_capacity(k) && self.bucket_size(k) == old(self).bucket_size(k) && self.in_tree(k)
                == old(self).in_tree(k) by {
                let s = spec_bucket_index(slot_hash::<K>(k), n as nat);
                lemma_pow2_is_single_bit(n as u64);
                lemma_split_index(slot_hash::<K>(k), n as u64);
            }
            lemma_same_buckets(*old(self), *self);
        }
    }

    /// What one step of the resizer `id` makes of the map `before`, and
    /// whether the resizer is at work after it: the step is the one that
    /// `spec_transfer_step` gives for the resizer's cursor and the
    /// transfer cursor. A bucket is moved. A claim lowers the transfer
    /// cursor and hands the buckets down to it to the resizer. A resizer
    /// that leaves is taken off the control word; the one that was alone
    /// on it starts its last pass, the others are done. The commit makes
    /// the next table the table and sets the control word to its
    /// threshold.
    pub open spec fn stepped_from(self, before: Self, id: int, at_work: bool) -> bool {
        let c = before.resizer(id)->0;
        let n = before.capacity();
        let stride = spec_transfer_stride(n as usize, before.parallelism());
        let (c2, step) = spec_transfer_step(c, before.unclaimed() as isize, stride);
        &&& step !is Commit ==> {
            &&& self.resizing()
            &&& self.capacity() == n
            &&& self.resizer_slots() == before.resizer_slots()
            &&& forall|other: int| other != id ==> self.resizer(other) == before.resizer(other)
            &&& forall|i: int| before.forwarded(i) ==> self.forwarded(i)
        }
        &&& match step {
            TransferStep::Bucket(i) => {
                &&& at_work
                &&& self.resizer(id) == Some(c2)
                &&& self.forwarded(i as int)
                &&& self.unclaimed() == before.unclaimed()
                &&& self.control() == before.control()
                &&& self.resizers_at_work() == before.resizers_at_work()
            },
            TransferStep::Claim { from, to } => {
                &&& at_work
                &&& self.resizer(id) == Some(
                    TransferCursor { next: from as usize, bound: to as usize, finishing: c.finishing },
                )
                &&& self.unclaimed() == to
                &&& self.control() == before.control()
                &&& self.resizers_at_work() == before.resizers_at_work()
            },
            TransferStep::Leave => {
                &&& self.unclaimed() == before.unclaimed()
                &&& self.control() == before.control() - 1
                &&& if before.control() == spec_resize_word(n as isize, 1) {
                    &&& at_work
                    &&& self.resizer(id) == Some(
                        TransferCursor { next: n as usize, bound: 0, finishing: true },
                    )
                    &&& self.resizers_at_work() == 1
                } else {
                    &&& !at_work
                    &&& self.resizer(id) is None
                    &&& self.resizers_at_work() == before.resizers_at_work() - 1
                }
            },
            TransferStep::Commit => {
                &&& !at_work
                &&& !self.resizing()
                &&& self.capacity() == 2 * n
                &&& self.control() == spec_resize_threshold((2 * n) as usize)
            },
        }
    }

    /// Takes one step of the move under way as its resizer `id`: moves
    /// the highest bucket that the resizer holds, or claims the highest
    /// stride that is left, or leaves, or, on the last pass, publishes
    /// the next table. Says whether the resizer is at work after the
    /// step.
    pub fn step_resize(&mut self, id: usize) -> (at_work: bool)
        requires
            old(self).wf(),
        ensures
            final(self).wf(),
            final(self)@ == old(self)@,
            undisturbed(*old(self), *final(self)),
            final(self).parallelism() == old(self).parallelism(),
            final(self).contention() == old(self).contention(),
            old(self).resizer(id as int) is None ==> !at_work && *final(self) == *old(self),
            old(self).resizer(id as int) is Some ==> final(self).stepped_from(
                *old(self),
                id as int,
                at_work,
            ),
    {
        if id >= self.resizers.len() {
            proof {
                lemma_buckets_at_rest(*self);
            }
            return false;
        }
        let mut cursor = match self.resizers[id] {
            Some(c) => c,
            None => {
                proof {
                    lemma_buckets_at_rest(*self);
                }
                return false;
            },
        };
        let n = self.table.len();
        let stride = transfer_stride(n, self.ncpu);
        let ghost rs0 = self.resizers@;
        proof {
            lemma_working_positive(rs0, id as int);
            self.lemma_control();
        }
        match cursor.step(self.transfer_index, stride) {
            TransferStep::Bucket(i) => {
                self.transfer_bucket(i);
                let ghost moved = *self;
                self.resizers[id] = Some(cursor);
                proof {
                    let rs1 = self.resizers@;
                    lemma_same_tables(moved, *self);
                    lemma_undisturbed(*old(self), moved, *self);
                    lemma_working_update(rs0, id as int, Some(cursor));
                    lemma_sweeping_update(rs0, id as int, Some(cursor));
                    assert forall|w: int| 0 <= w < rs1.len() && (#[trigger] rs1[w]) is Some implies cursor_wf(
                        rs1[w]->0,
                        self.table@,
                    ) by {}
                }
                true
            },
            TransferStep::Claim { from, to } => {
                self.transfer_index = to;
                cursor.claimed(from, to);
                self.resizers[id] = Some(cursor);
                proof {
                    let rs1 = self.resizers@;
                    lemma_working_update(rs0, id as int, Some(cursor));
                    lemma_sweeping_update(rs0, id as int, Some(cursor));
                    assert forall|w: int| 0 <= w < rs1.len() && (#[trigger] rs1[w]) is Some implies cursor_wf(
                        rs1[w]->0,
                        self.table@,
                    ) by {}
                    lemma_same_tables(*old(self), *self);
                }
                true
            },
            TransferStep::Leave => {
                let sc = self.size_ctl;
                proof {
                    // a resizer on its last pass does not come here
                    assert(!sweeping(rs0)) by {
                        if sweeping(rs0) {
                            let w = choose|w: int|
                                0 <= w < rs0.len() && (#[trigger] rs0[w]) is Some && rs0[w]->0.finishing;
                            if w != id {
                                lemma_working_alone(rs0, id as int, w);
                            }
                        }
                    }
                }
                self.size_ctl = sc - 1;
                let last = is_last_resizer(sc, n);
                if last {
                    cursor.finish(n);
                    self.resizers[id] = Some(cursor);
                } else {
                    self.resizers[id] = None;
                }
                proof {
                    let rs1 = self.resizers@;
                    lemma_same_tables(*old(self), *self);
                    if last {
                        lemma_working_update(rs0, id as int, Some(cursor));
                        lemma_sweeping_update(rs0, id as int, Some(cursor));
                    } else {
                        lemma_working_update(rs0, id as int, None);
                        lemma_sweeping_update(rs0, id as int, None);
                    }
                    assert forall|w: int| 0 <= w < rs1.len() && (#[trigger] rs1[w]) is Some implies cursor_wf(
                        rs1[w]->0,
                        self.table@,
                    ) by {}
                }
                last
            },
            TransferStep::Commit => {
                self.commit_transfer();
                false
            },
        }
    }

    /// Publishes the next table as the table, once every bucket has been
    /// moved, and sets the control word to the threshold of the new table.
    fn commit_transfer(&mut self)
        requires
            old(self).structure_wf(),
            old(self).resizing(),
            forall|j: int|
                #![trigger old(self).table@[j]]
                0 <= j < old(self).table@.len() ==> old(self).table@[j].moved(),
        ensures
            final(self).structure_wf(),
            final(self)@ == old(self)@,
            undisturbed(*old(self), *final(self)),
            !final(self).resizing(),
            final(self).capacity() == 2 * old(self).capacity(),
            final(self).size_ctl == spec_resize_threshold((2 * old(self).capacity()) as usize),
            final(self).counter == old(self).counter,
            final(self).ncpu == old(self).ncpu,
            final(self).contention() == old(self).contention(),
    {
        let n = self.table.len();
        let ghost table0 = self.table@;
        let ghost next0 = self.next_table@;
        proof {
            lemma_pow2_is_single_bit(n as u64);
            lemma_maximum_capacity();
            crate::sizing::lemma_single_bit_gap(n as u64, maximum_capacity() as u64);
            assert(single_bit((2 * n) as u64)) by (bit_vector)
                requires
                    single_bit(n as u64),
                    n <= 0x2000_0000_0000_0000u64,
            ;
            lemma_single_bit_is_pow2((2 * n) as u64);
        }
        core::mem::swap(&mut self.table, &mut self.next_table);
        self.next_table = Vec::new();
        self.resizers = Vec::new();
        self.size_ctl = resize_threshold(n + n);
        proof {
            let table1 = self.table@;
            let next1 = self.next_table@;
            assert forall|k: K::V| entry_in(table1, next1, k) == entry_in(table0, next0, k) by {
                lemma_split_index(slot_hash::<K>(k), n as u64);
                let s = spec_bucket_index(slot_hash::<K>(k), n as nat);
                assert(table0[s].moved());
            }
            assert forall|j: int| #![trigger table1[j]] 0 <= j < table1.len() implies table1[j].wf()
                && covers(table1[j], j, table1.len()) && !table1[j].moved() by {}
            let before = *old(self);
            let after = *self;
            assert forall|k: K::V| #![trigger after.home_capacity(k)] after.home_capacity(k)
                == before.home_capacity(k) && after.bucket_size(k) == before.bucket_size(k)
                && after.in_tree(k) == before.in_tree(k) by {
                lemma_split_index(slot_hash::<K>(k), n as u64);
                let t = spec_bucket_index(slot_hash::<K>(k), (2 * n) as nat);
            }
            lemma_same_buckets(before, after);
        }
    }

    /// Works as the resizer `id` until it has left or has published the
    /// next table.
    fn run_resizer(&mut self, id: usize)
        requires
            old(self).wf(),
            old(self).resizing(),
            old(self).resizer(id as int) is Some,
        ensures
            final(self).wf(),
            final(self)@ == old(self)@,
            undisturbed(*old(self), *final(self)),
            final(self).parallelism() == old(self).parallelism(),
            final(self).contention() == old(self).contention(),
            !final(self).resizing() ==> final(self).capacity() == 2 * old(self).capacity(),
            final(self).resizing() ==> {
                &&& final(self).capacity() == old(self).capacity()
                &&& final(self).unclaimed() == 0
                &&& final(self).resizer(id as int) is None
                &&& final(self).resizer_slots() == old(self).resizer_slots()
                &&& final(self).resizers_at_work() == old(self).resizers_at_work() - 1
                &&& forall|other: int|
                    other != id ==> final(self).resizer(other) == old(self).resizer(other)
                &&& forall|i: int| old(self).forwarded(i) ==> final(self).forwarded(i)
            },
            old(self).resizers_at_work() == 1 ==> !final(self).resizing(),
    {
        proof {
            lemma_buckets_at_rest(*self);
        }
        loop
            invariant
                self.wf(),
                self.resizing(),
                self@ == old(self)@,
                undisturbed(*old(self), *self),
                self.parallelism() == old(self).parallelism(),
                self.contention() == old(self).contention(),
                self.capacity() == old(self).capacity(),
                self.resizer(id as int) is Some,
                self.resizer_slots() == old(self).resizer_slots(),
                self.resizers_at_work() == old(self).resizers_at_work(),
                forall|other: int| other != id ==> self.resizer(other) == old(self).resizer(other),
                forall|i: int| old(self).forwarded(i) ==> self.forwarded(i),
            decreases
                    (if self.resizer(id as int)->0.finishing {
                        0int
                    } else {
                        1int
                    }),
                    self.unclaimed(),
                    self.resizer(id as int)->0.next - self.resizer(id as int)->0.bound,
        {
            let ghost before = *self;
            proof {
                before.lemma_control();
                before.lemma_cursor(id as int);
            }
            let at_work = self.step_resize(id);
            proof {
                lemma_undisturbed(*old(self), before, *self);
            }
            if !at_work {
                return ;
            }
        }
    }

    /// Where a resizer stands fits the table, and the resizer counts among
    /// those at work.
    pub proof fn lemma_cursor(self, id: int)
        requires
            self.wf(),
            self.resizer(id) is Some,
        ensures
            self.resizing(),
            self.resizers_at_work() >= 1,
            self.resizer(id)->0.bound <= self.resizer(id)->0.next <= self.capacity(),
            self.resizer(id)->0.finishing ==> self.on_last_pass() && self.resizer(id)->0.bound == 0
                && forall|i: int| self.resizer(id)->0.next <= i < self.capacity() ==> self.forwarded(i),
    {
        lemma_working_positive(self.resizers@, id);
    }

    /// Starts the move to a table of twice the length, if there is a
    /// table, it is not being moved, and it can grow. Says whether it did;
    /// the caller is then the resizer 0 of the move.
    pub fn begin_resize(&mut self) -> (started: bool)
        requires
            old(self).wf(),
        ensures
            final(self).wf(),
            final(self)@ == old(self)@,
            undisturbed(*old(self), *final(self)),
            final(self).capacity() == old(self).capacity(),
            final(self).parallelism() == old(self).parallelism(),
            final(self).contention() == old(self).contention(),
            started == (!old(self).resizing() && 0 < old(self).capacity() < maximum_capacity()),
            started ==> {
                &&& final(self).resizing()
                &&& final(self).unclaimed() == old(self).capacity()
                &&& final(self).control() == spec_resize_word(old(self).capacity() as isize, 1)
                &&& final(self).resizer_slots() == 1
                &&& final(self).resizers_at_work() == 1
                &&& final(self).resizer(0) == Some(
                    TransferCursor { next: 0, bound: 0, finishing: false },
                )
                &&& forall|i: int| !final(self).forwarded(i)
            },
            !started ==> *final(self) == *old(self),
    {
        let n = self.table.len();
        if self.next_table.len() > 0 || n == 0 || n >= maximum_capacity() {
            proof {
                lemma_buckets_at_rest(*self);
            }
            return false;
        }
        self.start_transfer(resize_word(n as isize));
        true
    }

    /// Joins the move under way as one more resizer, if it can still be
    /// helped: the control word has the stamp of the table, resizers are
    /// at work and there is room for one more, and buckets are left to
    /// claim. Returns the number under which the caller is then a resizer
    /// of the move.
    pub fn join_resize(&mut self) -> (id: Option<usize>)
        requires
            old(self).wf(),
        ensures
            final(self).wf(),
            final(self)@ == old(self)@,
            undisturbed(*old(self), *final(self)),
            final(self).capacity() == old(self).capacity(),
            final(self).resizing() == old(self).resizing(),
            final(self).unclaimed() == old(self).unclaimed(),
            final(self).parallelism() == old(self).parallelism(),
            final(self).contention() == old(self).contention(),
            forall|i: int| final(self).forwarded(i) == old(self).forwarded(i),
            id is Some <==> old(self).resizing() && joinable(
                old(self).control(),
                old(self).capacity() as usize,
                true,
                old(self).unclaimed() as isize,
            ),
            id matches Some(i) ==> {
                &&& i == old(self).resizer_slots()
                &&& final(self).resizer_slots() == old(self).resizer_slots() + 1
                &&& final(self).resizers_at_work() == old(self).resizers_at_work() + 1
                &&& final(self).control() == old(self).control() + 1
                &&& final(self).resizer(i as int) == Some(
                    TransferCursor { next: 0, bound: 0, finishing: false },
                )
                &&& forall|other: int|
                    other != i ==> final(self).resizer(other) == old(self).resizer(other)
            },
            id is None ==> *final(self) == *old(self),
    {
        proof {
            lemma_buckets_at_rest(*self);
        }
        let n = self.table.len();
        if self.next_table.len() == 0 {
            return None;
        }
        let ghost rs0 = self.resizers@;
        proof {
            self.lemma_control();
        }
        match resize_step(isize::MAX, self.size_ctl, n, true, self.transfer_index) {
            ResizeStep::Join { from: _, to } => {
                self.size_ctl = to;
                let id = self.resizers.len();
                self.resizers.push(Some(TransferCursor::start()));
                proof {
                    let rs1 = self.resizers@;
                    let fresh = TransferCursor { next: 0, bound: 0, finishing: false };
                    lemma_working_push(rs0, Some(fresh));
                    lemma_resize_word(n as isize, working(rs0) as int + 1);
                    assert(!sweeping(rs1)) by {
                        if sweeping(rs1) {
                            let w = choose|w: int|
                                0 <= w < rs1.len() && (#[trigger] rs1[w]) is Some
                                    && rs1[w]->0.finishing;
                        }
                    }
                    assert forall|w: int| 0 <= w < rs1.len() && (#[trigger] rs1[w]) is Some implies cursor_wf(
                        rs1[w]->0,
                        self.table@,
                    ) by {}
                    assert forall|k: K::V| #![trigger self.home_capacity(k)] self.home_capacity(k)
                        == old(self).home_capacity(k) && self.bucket_size(k) == old(self).bucket_size(
                        k,
                    ) && self.in_tree(k) == old(self).in_tree(k) by {}
            lemma_same_buckets(*old(self), *self);
                }
                Some(id)
            },
            _ => None,
        }
    }

    /// Helps the move under way: joins it, if it can still be helped, and
    /// works as a resizer until nothing is left to claim.
    fn help_transfer(&mut self)
        requires
            old(self).wf(),
            old(self).resizing(),
        ensures
            final(self).wf(),
            final(self)@ == old(self)@,
            undisturbed(*old(self), *final(self)),
            final(self).parallelism() == old(self).parallelism(),
            final(self).contention() == old(self).contention(),
            !final(self).resizing() ==> final(self).capacity() == 2 * old(self).capacity(),
            final(self).resizing() ==> final(self).capacity() == old(self).capacity() && forall|
                i: int,
            | old(self).forwarded(i) ==> final(self).forwarded(i),
            final(self).resizing() && joinable(
                old(self).control(),
                old(self).capacity() as usize,
                true,
                old(self).unclaimed() as isize,
            ) ==> final(self).unclaimed() == 0,
            final(self).resizing() ==> final(self).unclaimed() <= old(self).unclaimed(),
    {
        let ghost before = *self;
        match self.join_resize() {
            Some(id) => {
                let ghost joined = *self;
                self.run_resizer(id);
                proof {
                    lemma_undisturbed(before, joined, *self);
                }
            },
            None => {},
        }
    }

    /// Carries the move under way to its end: every resizer that is at
    /// work works until it has left, and the last of them publishes the
    /// next table.
    pub fn finish_resize(&mut self)
        requires
            old(self).wf(),
        ensures
            final(self).wf(),
            final(self)@ == old(self)@,
            undisturbed(*old(self), *final(self)),
            final(self).parallelism() == old(self).parallelism(),
            final(self).contention() == old(self).contention(),
            !final(self).resizing(),
            final(self).capacity() == if old(self).resizing() {
                2 * old(self).capacity()
            } else {
                old(self).capacity()
            },
    {
        proof {
            lemma_buckets_at_rest(*self);
        }
        let count = self.resizers.len();
        let mut id: usize = 0;
        while id < count && self.next_table.len() > 0
            invariant
                self.wf(),
                self@ == old(self)@,
                undisturbed(*old(self), *self),
                self.parallelism() == old(self).parallelism(),
                self.contention() == old(self).contention(),
                id <= count,
                self.resizing() ==> old(self).resizing() && self.capacity() == old(self).capacity()
                    && self.resizer_slots() == count && forall|done: int|
                    0 <= done < id ==> self.resizer(done) is None,
                !self.resizing() ==> self.capacity() == if old(self).resizing() {
                    2 * old(self).capacity()
                } else {
                    old(self).capacity()
                },
            decreases count - id,
        {
            let ghost before = *self;
            if self.resizers[id].is_some() {
                self.run_resizer(id);
                proof {
                    lemma_undisturbed(*old(self), before, *self);
                }
            }
            id = id + 1;
        }
        proof {
            if self.resizing() {
                assert forall|w: int| 0 <= w < self.resizers@.len() implies (
                #[trigger] self.resizers@[w]) is None by {
                    assert(self.resizer(w) is None);
                }
                lemma_working_none(self.resizers@);
            }
        }
    }

    /// Installs a new table of `capacity` empty buckets in place of the
    /// table that is not there yet.
    fn create_table(&mut self, capacity: usize, threshold: isize)
        requires
            old(self).wf(),
            old(self).capacity() == 0,
            1 <= capacity <= maximum_capacity(),
            is_pow2(capacity as int),
            threshold == spec_resize_threshold(capacity),
        ensures
            final(self).wf(),
            final(self)@ == old(self)@,
            final(self).capacity() == capacity,
            final(self).parallelism() == old(self).parallelism(),
            final(self).contention() == old(self).contention(),
            !final(self).resizing(),
            forall|k: K::V|
                #![trigger final(self).home_capacity(k)]
                final(self).home_capacity(k) == capacity && final(self).bucket_size(k) == 0
                    && !final(self).in_tree(k),
    {
        self.size_ctl = CREATING;
        self.table = new_tab(capacity);
        self.size_ctl = threshold;
        proof {
            let table1 = self.table@;
            assert forall|j: int| #![trigger table1[j]] 0 <= j < table1.len() implies table1[j].wf()
                && covers(table1[j], j, table1.len()) && !table1[j].moved() by {}
            assert(self@ =~= old(self)@) by {
                assert forall|k: K::V| entry_in(table1, self.next_table@, k) is None by {
                    lemma_pow2_is_single_bit(capacity as u64);
                    lemma_split_index(slot_hash::<K>(k), capacity as u64);
                }
            }
            assert forall|k: K::V| #![trigger self.home_capacity(k)] self.home_capacity(k) == capacity
                && self.bucket_size(k) == 0 && !self.in_tree(k) by {
                lemma_pow2_is_single_bit(capacity as u64);
                lemma_split_index(slot_hash::<K>(k), capacity as u64);
                let s = spec_bucket_index(slot_hash::<K>(k), capacity as nat);
                table1[s].lemma_len();
            }
        }
    }

    /// Makes sure that the table is there: a map without one creates it
    /// with the requested capacity, or the default one, and sets the
    /// control word to its resize threshold.
    fn init_table(&mut self)
        requires
            old(self).wf(),
        ensures
            final(self).wf(),
            final(self)@ == old(self)@,
            final(self).capacity() > 0,
            final(self).parallelism() == old(self).parallelism(),
            final(self).contention() == old(self).contention(),
            old(self).capacity() > 0 ==> *final(self) == *old(self),
            old(self).capacity() == 0 ==> final(self).capacity() == spec_initial_capacity(
                old(self).control(),
            ) && !final(self).resizing(),
            undisturbed(*old(self), *final(self)),
    {
        match init_step(self.table.len() > 0, self.size_ctl) {
            InitStep::Done => {
                proof {
                    lemma_buckets_at_rest(*self);
                }
            },
            InitStep::Wait => {},
            InitStep::Create { from: _, capacity, threshold } => {
                self.create_table(capacity, threshold);
                proof {
                    lemma_table_created(*old(self), *self);
                }
            },
        }
    }

    /// Adds `x` to the counter. Where the check is due, the table is then
    /// resized for as long as the count exceeds the threshold: a move that
    /// is under way is joined, and a new one is started and carried to its
    /// end.
    fn add_count(&mut self, x: isize, check: isize)
        requires
            old(self).structure_wf(),
            old(self)@.dom().finite(),
            old(self).counter.total() == signed_crop(old(self)@.len() - x),
            old(self).capacity() > 0,
        ensures
            final(self).wf(),
            final(self)@ == old(self)@,
            undisturbed(*old(self), *final(self)),
            final(self).capacity() >= old(self).capacity(),
            final(self).parallelism() == old(self).parallelism(),
            final(self).contention() == old(self).contention(),
            check > 1 ==> final(self).settled(),
            !old(self).resizing() ==> !final(self).resizing(),
            !old(self).resizing() && (check < 0 || old(self).capacity() >= maximum_capacity()
                || signed_crop(old(self)@.len() as int) <= spec_resize_threshold(
                old(self).capacity() as usize,
            )) ==> final(self).table@ == old(self).table@ && final(self).size_ctl == old(self).size_ctl,
            !old(self).resizing() && check > 1 && old(self).capacity() < maximum_capacity()
                && signed_crop(old(self)@.len() as int) > spec_resize_threshold(
                old(self).capacity() as usize,
            ) ==> final(self).capacity() >= 2 * old(self).capacity(),
    {
        proof {
            lemma_wrapping_add_crop(self@.len() - x, x);
        }
        let path = self.counter.add_count(x, self.base_free, self.cells_free, self.probe, self.ncpu);
        proof {
            lemma_same_tables(*old(self), *self);
        }
        if !resize_check_due(check, path) {
            return ;
        }
        loop
            invariant
                check >= 0,
                self.wf(),
                self@ == old(self)@,
                undisturbed(*old(self), *self),
                self.capacity() >= old(self).capacity(),
                self.parallelism() == old(self).parallelism(),
                self.contention() == old(self).contention(),
                self.capacity() > 0,
                !old(self).resizing() ==> !self.resizing(),
                self.capacity() == old(self).capacity() && !old(self).resizing() ==> self.table@
                    == old(self).table@ && self.size_ctl == old(self).size_ctl,
                self.capacity() > old(self).capacity() ==> self.capacity() >= 2 * old(self).capacity(),
                !old(self).resizing() && (old(self).capacity() >= maximum_capacity() || signed_crop(
                    old(self)@.len() as int,
                ) <= spec_resize_threshold(old(self).capacity() as usize)) ==> self.table@ == old(self).table@ && self.size_ctl == old(self).size_ctl,
            decreases maximum_capacity() - self.table.len(), self.transfer_index,
        {
            let ghost before = *self;
            let s = self.counter.sum_count();
            proof {
                before.lemma_control();
            }
            match resize_step(
                s,
                self.size_ctl,
                self.table.len(),
                self.next_table.len() > 0,
                self.transfer_index,
            ) {
                ResizeStep::Stay => {
                    return ;
                },
                ResizeStep::Start { from: _, to } => {
                    self.start_transfer(to);
                    let ghost started = *self;
                    self.run_resizer(0);
                    proof {
                        lemma_undisturbed(before, started, *self);
                        lemma_undisturbed(*old(self), before, *self);
                    }
                },
                ResizeStep::Join { from: _, to: _ } => {
                    self.help_transfer();
                    proof {
                        lemma_undisturbed(*old(self), before, *self);
                    }
                },
            }
        }
    }

    /// Makes room for `size` elements ahead of their insertion: a table
    /// that is not there yet is created large enough, and one that is
    /// there is doubled until its threshold reaches the table size for
    /// `size`, or it has the largest capacity. Does nothing while the
    /// table is being moved.
    pub fn try_presize(&mut self, size: usize)
        requires
            old(self).wf(),
        ensures
            final(self).wf(),
            final(self)@ == old(self)@,
            undisturbed(*old(self), *final(self)),
            final(self).parallelism() == old(self).parallelism(),
            final(self).contention() == old(self).contention(),
            final(self).capacity() >= old(self).capacity(),
            !old(self).resizing() ==> !final(self).resizing() && final(self).capacity()
                >= spec_presize_target(size),
            old(self).resizing() ==> *final(self) == *old(self),
            old(self).settled() ==> final(self).settled(),
            old(self).capacity() == 0 ==> final(self).capacity() == spec_presize_capacity(
                size,
                old(self).control(),
            ),
            old(self).capacity() > 0 && !old(self).resizing() ==> final(self).capacity()
                >= maximum_capacity() || spec_resize_threshold(final(self).capacity() as usize)
                >= spec_presize_target(size),
            old(self).capacity() > 0 && final(self).capacity() > old(self).capacity()
                ==> spec_resize_threshold((final(self).capacity() / 2) as usize)
                < spec_presize_target(size),
    {
        let ghost c = spec_presize_target(size);
        proof {
            lemma_buckets_at_rest(*self);
            lemma_presize_target(size);
        }
        loop
            invariant
                self.wf(),
                old(self).capacity() == 0 ==> self.capacity() == 0,
                old(self).capacity() == 0 ==> self.control() == old(self).control(),
                old(self).capacity() > 0 && self.capacity() > old(self).capacity()
                    ==> spec_resize_threshold((self.capacity() / 2) as usize) < c,
                self@ == old(self)@,
                undisturbed(*old(self), *self),
                self.parallelism() == old(self).parallelism(),
                self.contention() == old(self).contention(),
                self.capacity() >= old(self).capacity(),
                old(self).resizing() ==> *self == *old(self),
                old(self).settled() ==> self.settled(),
                c == spec_presize_target(size),
                1 <= c <= maximum_capacity(),
                is_pow2(c as int),
                !old(self).resizing() ==> !self.resizing(),
            decreases maximum_capacity() - self.table.len(),
        {
            let ghost before = *self;
            proof {
                before.lemma_control();
            }
            match presize_step(size, self.size_ctl, self.table.len()) {
                PresizeStep::Done => {
                    return ;
                },
                PresizeStep::Create { from: _, capacity, threshold } => {
                    self.create_table(capacity, threshold);
                    proof {
                        lemma_table_created(*old(self), *self);
                    }
                    return ;
                },
                PresizeStep::Grow { from: _, to } => {
                    self.start_transfer(to);
                    let ghost started = *self;
                    self.run_resizer(0);
                    proof {
                        lemma_undisturbed(before, started, *self);
                        lemma_undisturbed(*old(self), before, *self);
                    }
                },
            }
        }
    }

    /// Stores `value` under `key` in the key's bucket: in the table, or in
    /// the next table where the bucket has been moved. Returns the value
    /// that the bucket held for the key, whether its chain reached the
    /// threshold in a table too small for trees, and the length of the
    /// table that holds the bucket.
    fn put_entry(&mut self, hash: u64, key: K, value: Arc<V>, only_if_absent: bool) -> (r: (
        Option<Arc<V>>,
        bool,
        usize,
    ))
        requires
            old(self).wf(),
            old(self).capacity() > 0,
            hash == slot_hash::<K>(key@),
        ensures
            final(self).structure_wf(),
            final(self)@.dom().finite(),
            pointee(r.0) == lookup(old(self)@, key@),
            final(self)@ == if only_if_absent && old(self)@.contains_key(key@) {
                old(self)@
            } else {
                old(self)@.insert(key@, pointed(value))
            },
            final(self).counter == old(self).counter,
            final(self).size_ctl == old(self).size_ctl,
            final(self).transfer_index == old(self).transfer_index,
            final(self).ncpu == old(self).ncpu,
            final(self).contention() == old(self).contention(),
            final(self).resizers == old(self).resizers,
            final(self).table@.len() == old(self).table@.len(),
            final(self).next_table@.len() == old(self).next_table@.len(),
            r.2 == old(self).home_capacity(key@),
            r.2 == final(self).home_capacity(key@),
            1 <= r.2 <= maximum_capacity(),
            final(self).bucket_size(key@) == old(self).bucket_size(key@) + if old(self)@.contains_key(key@) {
                0nat
            } else {
                1nat
            },
            final(self).in_tree(key@) == (old(self).in_tree(key@) || (!old(self)@.contains_key(key@)
                && final(self).bucket_size(key@) >= TREEIFY_THRESHOLD && r.2
                >= MIN_TREEIFY_CAPACITY)),
            r.1 == (!old(self).in_tree(key@) && !old(self)@.contains_key(key@) && final(self).bucket_size(key@) >= TREEIFY_THRESHOLD && r.2 < MIN_TREEIFY_CAPACITY),
    {
        let n = self.table.len();
        let i = bucket_index(hash, n);
        let ghost m2 = *self;
        let ghost k0 = key@;
        let ghost goal = if only_if_absent && m2@.contains_key(key@) {
            m2@
        } else {
            m2@.insert(key@, pointed(value))
        };
        proof {
            lemma_maximum_capacity();
            lemma_pow2_is_single_bit(n as u64);
            lemma_split_index(slot_hash::<K>(k0), n as u64);
        }
        let prev: Option<Arc<V>>;
        let crowded: bool;
        let home: usize;
        if self.table[i].is_moved() {
            proof {
                crate::sizing::lemma_single_bit_gap(n as u64, maximum_capacity() as u64);
            }
            home = self.next_table.len();
            let j = bucket_index(hash, home);
            let r = self.next_table[j].put(hash, key, value, only_if_absent, home);
            prev = r.0;
            crowded = r.1;
            proof {
                assert forall|k: K::V|
                    lookup(goal, k) == if m2.table@[spec_bucket_index(slot_hash::<K>(k), n as nat)].moved()
                        && spec_bucket_index(slot_hash::<K>(k), home as nat) == j {
                        lookup(self.next_table@[j as int].as_map(), k)
                    } else {
                        entry_in(m2.table@, m2.next_table@, k)
                    } by {
                    lemma_split_index(slot_hash::<K>(k), n as u64);
                }
                lemma_next_bucket_replaced(m2.table@, m2.next_table@, self.next_table@, j as int, goal);
            }
        } else {
            home = n;
            let r = self.table[i].put(hash, key, value, only_if_absent, n);
            prev = r.0;
            crowded = r.1;
            proof {
                assert forall|k: K::V|
                    lookup(goal, k) == if spec_bucket_index(slot_hash::<K>(k), n as nat) == i {
                        lookup(self.table@[i as int].as_map(), k)
                    } else {
                        entry_in(m2.table@, m2.next_table@, k)
                    } by {
                    lemma_split_index(slot_hash::<K>(k), n as u64);
                }
                lemma_table_bucket_replaced(m2.table@, m2.next_table@, self.table@, i as int, goal);
                assert forall|w: int|
                    0 <= w < self.resizers@.len() && (#[trigger] self.resizers@[w]) is Some implies cursor_wf(
                    self.resizers@[w]->0,
                    self.table@,
                ) by {
                    assert forall|l: int| 0 <= l < n implies (#[trigger] self.table@[l]).moved()
                        == m2.table@[l].moved() by {}
                }
            }
        }
        (prev, crowded, home)
    }

    /// Stores `value` under `key`, or leaves the entry of `key` as it is
    /// where `only_if_absent` is set and there is one. Returns the value
    /// that the map held for the key.
    fn insert_(&mut self, key: K, value: V, only_if_absent: bool) -> (prev: Option<Arc<V>>)
        requires
            old(self).wf(),
        ensures
            final(self).wf(),
            pointee(prev) == lookup(old(self)@, key@),
            final(self)@ == if only_if_absent && old(self)@.contains_key(key@) {
                old(self)@
            } else {
                old(self)@.insert(key@, value)
            },
            final(self).shaped_by_insert(*old(self), key@),
    {
        let hash = spread(key.hash_code());
        let value = Arc::new(value);
        let ghost m0 = *self;
        let ghost k0 = key@;
        proof {
            m0.lemma_control();
            lemma_maximum_capacity();
            crate::counter::lemma_signed_crop_in_range(1);
        }
        self.init_table();
        let ghost m1 = *self;
        if self.table[bucket_index(hash, self.table.len())].is_moved() {
            self.help_transfer();
        }
        let ghost m2 = *self;
        proof {
            m1.lemma_control();
            m2.lemma_control();
            m2.lemma_trees_are_large(k0);
            lemma_tree_is_large(m0, k0);
            if !m1.resizing() {
                m1.lemma_home(k0);
            }
            if !m2.resizing() {
                m2.lemma_home(k0);
            }
            assert(m2.home_capacity(k0) == m0.put_home(k0));
        }
        let (prev, crowded, home) = self.put_entry(hash, key, value, only_if_absent);
        let ghost m3 = *self;
        if prev.is_none() {
            self.add_count(1, 2);
        }
        let ghost m4 = *self;
        proof {
            if prev.is_some() {
                lemma_buckets_at_rest(m3);
            }
        }
        if crowded {
            proof {
                lemma_presize_target((home + home) as usize);
            }
            self.try_presize(home + home);
        } else {
            proof {
                lemma_buckets_at_rest(m4);
            }
        }
        proof {
            lemma_undisturbed(m3, m4, *self);
            self.lemma_trees_are_large(k0);
        }
        prev
    }

    /// Stores `value` under `key` and returns the value that the map held
    /// for the key. A new entry makes its bucket a tree where the bucket
    /// reaches `TREEIFY_THRESHOLD` entries in a table of at least
    /// `MIN_TREEIFY_CAPACITY` buckets, and has the table resized once the
    /// count is at the threshold.
    pub fn insert(&mut self, key: K, value: V) -> (prev: Option<Arc<V>>)
        requires
            old(self).wf(),
        ensures
            final(self).wf(),
            pointee(prev) == lookup(old(self)@, key@),
            final(self)@ == old(self)@.insert(key@, value),
            final(self).shaped_by_insert(*old(self), key@),
    {
        self.insert_(key, value, false)
    }

    /// Stores `value` under `key` unless the map holds an entry for the
    /// key, and returns the value of that entry.
    pub fn insert_if_absent(&mut self, key: K, value: V) -> (existing: Option<Arc<V>>)
        requires
            old(self).wf(),
        ensures
            final(self).wf(),
            pointee(existing) == lookup(old(self)@, key@),
            final(self)@ == if old(self)@.contains_key(key@) {
                old(self)@
            } else {
                old(self)@.insert(key@, value)
            },
            final(self).shaped_by_insert(*old(self), key@),
    {
        self.insert_(key, value, true)
    }

    /// Takes the entry of `key` out of the map and returns the value that
    /// it held. A tree that is left with `UNTREEIFY_THRESHOLD` entries or
    /// fewer becomes a chain again.
    pub fn remove(&mut self, key: &K) -> (prev: Option<Arc<V>>)
        requires
            old(self).wf(),
        ensures
            final(self).wf(),
            pointee(prev) == lookup(old(self)@, key@),
            final(self)@ == old(self)@.remove(key@),
            final(self).parallelism() == old(self).parallelism(),
            final(self).contention() == old(self).contention(),
            final(self).capacity() >= old(self).capacity(),
            !old(self).resizing() ==> !final(self).resizing() && final(self).capacity() == old(self).capacity(),
            final(self).home_capacity(key@) >= old(self).home_capacity(key@),
            final(self).home_capacity(key@) == old(self).home_capacity(key@) ==> final(self).bucket_size(key@) == old(self).bucket_size(key@) - if old(self)@.contains_key(key@) {
                1int
            } else {
                0int
            },
            final(self).bucket_size(key@) <= old(self).bucket_size(key@) - if old(self)@.contains_key(key@) {
                1int
            } else {
                0int
            },
            final(self).in_tree(key@) == (old(self).in_tree(key@) && final(self).bucket_size(key@)
                > UNTREEIFY_THRESHOLD),
    {
        let hash = spread(key.hash_code());
        proof {
            self.lemma_control();
            lemma_tree_is_large(*self, key@);
        }
        if self.table.len() == 0 {
            return None;
        }
        let ghost m0 = *self;
        if self.table[bucket_index(hash, self.table.len())].is_moved() {
            self.help_transfer();
        }
        let ghost m2 = *self;
        let n = self.table.len();
        let i = bucket_index(hash, n);
        let ghost goal = m0@.remove(key@);
        proof {
            lemma_pow2_is_single_bit(n as u64);
            lemma_split_index(slot_hash::<K>(key@), n as u64);
            m2.lemma_control();
            if !m2.resizing() {
                m2.lemma_home(key@);
            }
            assert(m2.home_capacity(key@) == m0.home_capacity(key@));
        }
        let prev: Option<Arc<V>>;
        if self.table[i].is_moved() {
            let m = self.next_table.len();
            let j = bucket_index(hash, m);
            prev = self.next_table[j].remove(hash, key);
            proof {
                assert forall|k: K::V|
                    lookup(goal, k) == if m2.table@[spec_bucket_index(slot_hash::<K>(k), n as nat)].moved()
                        && spec_bucket_index(slot_hash::<K>(k), m as nat) == j {
                        lookup(self.next_table@[j as int].as_map(), k)
                    } else {
                        entry_in(m2.table@, m2.next_table@, k)
                    } by {
                    lemma_split_index(slot_hash::<K>(k), n as u64);
                }
                lemma_next_bucket_replaced(m2.table@, m2.next_table@, self.next_table@, j as int, goal);
            }
        } else {
            prev = self.table[i].remove(hash, key);
            proof {
                assert forall|k: K::V|
                    lookup(goal, k) == if spec_bucket_index(slot_hash::<K>(k), n as nat) == i {
                        lookup(self.table@[i as int].as_map(), k)
                    } else {
                        entry_in(m2.table@, m2.next_table@, k)
                    } by {
                    lemma_split_index(slot_hash::<K>(k), n as u64);
                }
                lemma_table_bucket_replaced(m2.table@, m2.next_table@, self.table@, i as int, goal);
                assert forall|w: int|
                    0 <= w < self.resizers@.len() && (#[trigger] self.resizers@[w]) is Some implies cursor_wf(
                    self.resizers@[w]->0,
                    self.table@,
                ) by {
                    assert forall|l: int| 0 <= l < n implies (#[trigger] self.table@[l]).moved()
                        == m2.table@[l].moved() by {}
                }
            }
        }
        let ghost m3 = *self;
        if prev.is_some() {
            self.add_count(-1, -1);
        } else {
            proof {
                lemma_buckets_at_rest(m3);
            }
        }
        proof {
            assert(self.home_capacity(key@) >= m3.home_capacity(key@));
        }
        prev
    }
}

/// What becomes of a table when one of its buckets that have not been
/// moved is replaced.
proof fn lemma_table_bucket_replaced<K: Key, V>(
    table0: Seq<BaseNode<K, V>>,
    next0: Seq<BaseNode<K, V>>,
    table1: Seq<BaseNode<K, V>>,
    i: int,
    goal: Map<K::V, V>,
)
    requires
        tables_wf(table0, next0),
        0 <= i < table0.len(),
        table1.len() == table0.len(),
        forall|l: int| 0 <= l < table0.len() && l != i ==> #[trigger] table1[l] == table0[l],
        !table0[i].moved(),
        !table1[i].moved(),
        table1[i].wf(),
        forall|k: K::V|
            #[trigger] table1[i].as_map().contains_key(k) ==> table0[i].as_map().contains_key(k)
                || spec_bucket_index(slot_hash::<K>(k), table0.len()) == i,
        forall|k: K::V|
            lookup(goal, k) == if spec_bucket_index(slot_hash::<K>(k), table0.len()) == i {
                lookup(table1[i].as_map(), k)
            } else {
                entry_in(table0, next0, k)
            },
    ensures
        tables_wf(table1, next0),
        entries_in(table1, next0) == goal,
{
    let n = table0.len();
    lemma_pow2_is_single_bit(n as u64);
    assert forall|l: int| #![trigger table1[l]] 0 <= l < n implies table1[l].wf() && covers(
        table1[l],
        l,
        n,
    ) && (table1[l].moved() ==> next0.len() > 0) && (next0.len() > 0 && !table1[l].moved()
        ==> next0[l].vacant() && next0[l + n].vacant()) by {}
    let now = entries_in(table1, next0);
    assert forall|k: K::V|
        #![trigger now.dom().contains(k)]
        #![trigger goal.dom().contains(k)]
        now.dom().contains(k) == goal.dom().contains(k) && (goal.dom().contains(k) ==> now[k]
            == goal[k]) by {
        lemma_split_index(slot_hash::<K>(k), n as u64);
        assert(entry_in(table1, next0, k) == lookup(goal, k));
    }
}

/// What becomes of a table that is being moved when a bucket of the
/// next table, which takes over from a bucket that has been moved, is
/// replaced.
proof fn lemma_next_bucket_replaced<K: Key, V>(
    table0: Seq<BaseNode<K, V>>,
    next0: Seq<BaseNode<K, V>>,
    next1: Seq<BaseNode<K, V>>,
    j: int,
    goal: Map<K::V, V>,
)
    requires
        tables_wf(table0, next0),
        0 <= j < next0.len(),
        next1.len() == next0.len(),
        forall|l: int| 0 <= l < next0.len() && l != j ==> #[trigger] next1[l] == next0[l],
        table0[if j < table0.len() {
            j
        } else {
            j - table0.len()
        }].moved(),
        !next1[j].moved(),
        next1[j].wf(),
        forall|k: K::V|
            #[trigger] next1[j].as_map().contains_key(k) ==> next0[j].as_map().contains_key(k)
                || spec_bucket_index(slot_hash::<K>(k), next0.len()) == j,
        forall|k: K::V|
            lookup(goal, k) == if table0[spec_bucket_index(slot_hash::<K>(k), table0.len())].moved()
                && spec_bucket_index(slot_hash::<K>(k), next0.len()) == j {
                lookup(next1[j].as_map(), k)
            } else {
                entry_in(table0, next0, k)
            },
    ensures
        tables_wf(table0, next1),
        entries_in(table0, next1) == goal,
{
    let n = table0.len();
    lemma_pow2_is_single_bit(n as u64);
    assert forall|l: int| #![trigger next1[l]] 0 <= l < next1.len() implies next1[l].wf() && covers(
        next1[l],
        l,
        next1.len(),
    ) && !next1[l].moved() by {}
    assert forall|l: int| #![trigger table0[l]] 0 <= l < n && !table0[l].moved() implies next1[l].vacant()
        && next1[l + n].vacant() by {}
    let now = entries_in(table0, next1);
    assert forall|k: K::V|
        #![trigger now.dom().contains(k)]
        #![trigger goal.dom().contains(k)]
        now.dom().contains(k) == goal.dom().contains(k) && (goal.dom().contains(k) ==> now[k]
            == goal[k]) by {
        lemma_split_index(slot_hash::<K>(k), n as u64);
        assert(entry_in(table0, next1, k) == lookup(goal, k));
    }
}

} // verus!
