//! The resize controller: the control word, the thresholds, and the
//! decisions of the threads that create a table or move one.
//!
//! The control word is zero or a requested capacity while there is no
//! table, `-1` while the table is being created, the element count above
//! which to resize while the table is in use, and while a resize runs the
//! generation stamp in its upper sixteen bits and one more than the
//! number of resizing threads in the bits below.

use vstd::prelude::*;
use vstd::arithmetic::power2::is_pow2;
use crate::sizing::{
    lemma_leading_zeros_bounds, lemma_maximum_capacity, lemma_table_size_for_least, max_resizers,
    maximum_capacity, resize_stamp, spec_resize_stamp, spec_stamp_unit, spec_table_size_for, stamp_unit,
    table_size_for, DEFAULT_CAPACITY,
};

verus! {

/// The least number of buckets that a thread claims at a time.
pub const MIN_TRANSFER_STRIDE: usize = 16;

/// The control word while the table is being created.
pub const CREATING: isize = -1;

/// The element count above which a table of length `n` is resized: three
/// quarters of `n`, rounded up.
pub open spec fn spec_resize_threshold(n: usize) -> int {
    n - n / 4
}

/// Returns the element count above which a table of length `n` is
/// resized.
pub fn resize_threshold(n: usize) -> (t: isize)
    requires
        n <= maximum_capacity(),
    ensures
        t == spec_resize_threshold(n),
        0 <= t <= n,
        4 * t >= 3 * n,
        4 * t < 3 * n + 4,
{
    proof {
        lemma_maximum_capacity();
    }
    (n - n / 4) as isize
}

/// The capacity of the table that is created under the control word `sc`:
/// the table size for the requested capacity, or the default capacity
/// where none was requested.
pub open spec fn spec_initial_capacity(sc: isize) -> usize {
    if sc > 0 {
        spec_table_size_for(sc as usize)
    } else {
        DEFAULT_CAPACITY
    }
}

/// Returns the capacity of the table to create under the control word
/// `sc`.
pub fn initial_capacity(sc: isize) -> (n: usize)
    ensures
        n == spec_initial_capacity(sc),
        is_pow2(n as int),
        1 <= n <= maximum_capacity(),
        sc > 0 && is_pow2(sc as int) && sc <= maximum_capacity() ==> n == sc,
{
    proof {
        lemma_maximum_capacity();
        assert(crate::sizing::single_bit(16u64)) by (bit_vector);
        crate::sizing::lemma_single_bit_is_pow2(16u64);
        if sc > 0 && is_pow2(sc as int) && sc <= maximum_capacity() {
            crate::sizing::lemma_table_size_for_pow2(sc as usize);
        }
    }
    if sc > 0 {
        table_size_for(sc as usize)
    } else {
        DEFAULT_CAPACITY
    }
}

/// The table size that holds `size` elements below the resize threshold:
/// the table size for one and a half times `size`, and the largest
/// capacity from half of it on.
pub open spec fn spec_presize_target(size: usize) -> usize {
    if size >= maximum_capacity() / 2 {
        maximum_capacity()
    } else {
        spec_table_size_for((size + size / 2 + 1) as usize)
    }
}

/// The presize target is a table size, and where it is not the largest one
/// it holds one and a half times `size`.
pub proof fn lemma_presize_target(size: usize)
    ensures
        is_pow2(spec_presize_target(size) as int),
        1 <= spec_presize_target(size) <= maximum_capacity(),
        size < maximum_capacity() / 2 ==> spec_presize_target(size) > size + size / 2,
{
    lemma_maximum_capacity();
    if size < maximum_capacity() / 2 {
        lemma_table_size_for_least((size + size / 2 + 1) as usize, maximum_capacity() as nat);
    }
}

/// Returns the table size that holds `size` elements below the resize
/// threshold.
pub fn presize_target(size: usize) -> (c: usize)
    ensures
        c == spec_presize_target(size),
        is_pow2(c as int),
        1 <= c <= maximum_capacity(),
        size < maximum_capacity() / 2 ==> c > size + size / 2,
{
    proof {
        lemma_maximum_capacity();
    }
    if size >= maximum_capacity() / 2 {
        maximum_capacity()
    } else {
        table_size_for(size + size / 2 + 1)
    }
}

/// The control word of a resize from a table of length `n` with
/// `resizers` threads at work: the stamp of `n` in the upper sixteen bits,
/// and one more than `resizers` below.
pub open spec fn spec_resize_word(n: isize, resizers: int) -> int {
    (spec_resize_stamp(n) - 0x1_0000) * spec_stamp_unit() + 1 + resizers
}

/// The control word as an unsigned number.
pub open spec fn unsigned_word(sc: isize) -> int {
    if sc < 0 {
        sc + usize::MAX + 1
    } else {
        sc as int
    }
}

/// The generation stamp in the upper sixteen bits of the control word.
pub open spec fn spec_stamp_of(sc: isize) -> int {
    unsigned_word(sc) / (spec_stamp_unit() as int)
}

/// The number of threads that the bits below the stamp record in the
/// control word of a resize.
pub open spec fn spec_resizers_of(sc: isize) -> int {
    unsigned_word(sc) % (spec_stamp_unit() as int) - 1
}

/// The stamp's weight is `2^16` on a machine with words of 32 bits and
/// `2^48` on one with words of 64 bits.
pub proof fn lemma_stamp_unit()
    ensures
        usize::BITS == 32 ==> spec_stamp_unit() == 0x1_0000 && isize::MIN == -0x8000_0000,
        usize::BITS == 64 ==> spec_stamp_unit() == 0x1_0000_0000_0000 && isize::MIN
            == -0x8000_0000_0000_0000,
        usize::BITS == 32 || usize::BITS == 64,
        isize::MIN == -0x8000 * spec_stamp_unit(),
        usize::MAX + 1 == 0x1_0000 * spec_stamp_unit(),
{
}

/// The control word of a resize is below `-1`, and holds the stamp and
/// the number of resizers.
pub proof fn lemma_resize_word(n: isize, resizers: int)
    requires
        0 <= resizers < max_resizers(),
    ensures
        isize::MIN < spec_resize_word(n, resizers) < -1,
        spec_stamp_of(spec_resize_word(n, resizers) as isize) == spec_resize_stamp(n),
        spec_resizers_of(spec_resize_word(n, resizers) as isize) == resizers,
{
    lemma_leading_zeros_bounds(n);
    lemma_stamp_unit();
    let s = spec_resize_stamp(n);
}

/// Returns the control word that starts a resize from a table of length
/// `n`: the stamp of `n`, and one resizer.
pub fn resize_word(n: isize) -> (sc: isize)
    ensures
        sc == spec_resize_word(n, 1),
        sc < -1,
{
    proof {
        lemma_resize_word(n, 1);
        lemma_stamp_unit();
    }
    let rs = resize_stamp(n);
    let unit = stamp_unit();
    if unit == 0x1_0000 {
        (rs - 0x1_0000) * 0x1_0000 + 2
    } else {
        (rs - 0x1_0000) * unit + 2
    }
}

/// Returns the generation stamp in the upper sixteen bits of the control
/// word.
pub fn stamp_of(sc: isize) -> (rs: isize)
    ensures
        rs == spec_stamp_of(sc),
{
    proof {
        lemma_stamp_unit();
    }
    let unit = stamp_unit();
    if sc < 0 {
        (sc - isize::MIN) / unit + 0x8000
    } else {
        sc / unit
    }
}

/// Returns the number of threads that the bits below the stamp record in
/// the control word of a resize.
pub fn resizers_of(sc: isize) -> (r: isize)
    ensures
        r == spec_resizers_of(sc),
{
    proof {
        lemma_stamp_unit();
    }
    let unit = stamp_unit();
    if sc < 0 {
        (sc - isize::MIN) % unit - 1
    } else {
        sc % unit - 1
    }
}

/// What a thread does about the table's size after it has changed the
/// count.
#[derive(Clone, Copy, Debug, PartialEq, Eq, Structural)]
pub enum ResizeStep {
    /// Nothing.
    Stay,
    /// Start a resize: swap the control word `from` for `to`, and on
    /// success create the next table and move buckets.
    Start { from: isize, to: isize },
    /// Join the resize that runs: swap the control word `from` for `to`,
    /// and on success move buckets.
    Join { from: isize, to: isize },
}

/// Whether a thread may join the resize that the control word `sc`
/// records: the stamp is that of the table's length `n`, the resize has
/// resizers left and room for one more, the next table is there, and
/// buckets are left to claim.
pub open spec fn joinable(sc: isize, n: usize, next_present: bool, transfer_index: isize) -> bool {
    &&& sc < 0
    &&& spec_stamp_of(sc) == spec_resize_stamp(n as isize)
    &&& 1 <= spec_resizers_of(sc)
    &&& spec_resizers_of(sc) + 1 < max_resizers()
    &&& next_present
    &&& transfer_index > 0
}

/// The step of a thread that sees the count `s`, the control word `sc`, a
/// table of length `n` (zero while there is none), and of the resize that
/// may run whether its next table is there and its transfer cursor.
pub open spec fn spec_resize_step(
    s: isize,
    sc: isize,
    n: usize,
    next_present: bool,
    transfer_index: isize,
) -> ResizeStep {
    if s <= sc || n == 0 || n >= maximum_capacity() {
        ResizeStep::Stay
    } else if sc < 0 {
        if joinable(sc, n, next_present, transfer_index) {
            ResizeStep::Join { from: sc, to: (sc + 1) as isize }
        } else {
            ResizeStep::Stay
        }
    } else {
        ResizeStep::Start { from: sc, to: spec_resize_word(n as isize, 1) as isize }
    }
}

/// Decides whether to start or join a resize: never while the count does
/// not exceed the threshold, without a table, or at the largest capacity;
/// a resize that runs is joined where `joinable`; else one is started.
pub fn resize_step(s: isize, sc: isize, n: usize, next_present: bool, transfer_index: isize) -> (step:
    ResizeStep)
    ensures
        step == spec_resize_step(s, sc, n, next_present, transfer_index),
        step matches ResizeStep::Join { from, to } ==> spec_stamp_of(to) == spec_stamp_of(from)
            && spec_resizers_of(to) == spec_resizers_of(from) + 1 && to < 0,
        step matches ResizeStep::Start { from, to } ==> spec_stamp_of(to) == spec_resize_stamp(
            n as isize,
        ) && spec_resizers_of(to) == 1 && to < -1 && from >= 0 && to == spec_resize_word(
            n as isize,
            1,
        ),
{
    proof {
        lemma_maximum_capacity();
        lemma_stamp_unit();
    }
    if s <= sc || n == 0 || n >= maximum_capacity() {
        ResizeStep::Stay
    } else if sc < 0 {
        let resizers = resizers_of(sc);
        if stamp_of(sc) == resize_stamp(n as isize) && 1 <= resizers && resizers + 1
            < max_resizers() && next_present && transfer_index > 0 {
            ResizeStep::Join { from: sc, to: sc + 1 }
        } else {
            ResizeStep::Stay
        }
    } else {
        proof {
            lemma_resize_word(n as isize, 1);
        }
        ResizeStep::Start { from: sc, to: resize_word(n as isize) }
    }
}

/// Whether the thread that found the control word `sc` and took itself off
/// it was the last resizer of the resize from a table of length `n`.
pub fn is_last_resizer(sc: isize, n: usize) -> (b: bool)
    requires
        1 <= n <= maximum_capacity(),
    ensures
        b == (sc == spec_resize_word(n as isize, 1)),
{
    proof {
        lemma_maximum_capacity();
    }
    sc == resize_word(n as isize)
}

/// What a thread does to have a table.
#[derive(Clone, Copy, Debug, PartialEq, Eq, Structural)]
pub enum InitStep {
    /// The table is there.
    Done,
    /// Another thread creates it: wait and look again.
    Wait,
    /// Swap the control word `from` for `CREATING`; on success create a
    /// table of `capacity` buckets, publish it, and set the control word
    /// to `threshold`.
    Create { from: isize, capacity: usize, threshold: isize },
}

/// The step of a thread that needs the table and sees whether it is there
/// and the control word `sc`.
pub open spec fn spec_init_step(table_present: bool, sc: isize) -> InitStep {
    if table_present {
        InitStep::Done
    } else if sc < 0 {
        InitStep::Wait
    } else {
        InitStep::Create {
            from: sc,
            capacity: spec_initial_capacity(sc),
            threshold: spec_resize_threshold(spec_initial_capacity(sc)) as isize,
        }
    }
}

/// Decides how to come by the table: it is there, or another thread is
/// at work on it, or it is to be created with the initial capacity.
pub fn init_step(table_present: bool, sc: isize) -> (step: InitStep)
    ensures
        step == spec_init_step(table_present, sc),
        step matches InitStep::Create { from, capacity, threshold } ==> is_pow2(capacity as int)
            && 1 <= capacity <= maximum_capacity(),
{
    if table_present {
        InitStep::Done
    } else if sc < 0 {
        InitStep::Wait
    } else {
        let capacity = initial_capacity(sc);
        InitStep::Create { from: sc, capacity, threshold: resize_threshold(capacity) }
    }
}

/// What a thread does to make room for a number of elements.
#[derive(Clone, Copy, Debug, PartialEq, Eq, Structural)]
pub enum PresizeStep {
    /// Nothing: there is room, no more can be had, or another thread is
    /// at work on the table.
    Done,
    /// There is no table: swap the control word `from` for `CREATING`; on
    /// success create a table of `capacity` buckets and set the control
    /// word to `threshold`.
    Create { from: isize, capacity: usize, threshold: isize },
    /// Swap the control word `from` for `to`; on success create the next
    /// table and move the buckets, then look again.
    Grow { from: isize, to: isize },
}

/// The capacity of the table that is created to make room for `size`
/// elements under the control word `sc`: the larger of the initial
/// capacity that was requested and the presize target.
pub open spec fn spec_presize_capacity(size: usize, sc: isize) -> usize {
    if sc > 0 && spec_initial_capacity(sc) > spec_presize_target(size) {
        spec_initial_capacity(sc)
    } else {
        spec_presize_target(size)
    }
}

/// The step of a thread that wants room for `size` elements and sees the
/// control word `sc` and a table of length `n` (zero while there is
/// none).
pub open spec fn spec_presize_step(size: usize, sc: isize, n: usize) -> PresizeStep {
    if sc < 0 {
        PresizeStep::Done
    } else if n == 0 {
        PresizeStep::Create {
            from: sc,
            capacity: spec_presize_capacity(size, sc),
            threshold: spec_resize_threshold(spec_presize_capacity(size, sc)) as isize,
        }
    } else if spec_presize_target(size) <= sc || n >= maximum_capacity() {
        PresizeStep::Done
    } else {
        PresizeStep::Grow { from: sc, to: spec_resize_word(n as isize, 1) as isize }
    }
}

/// Decides how to make room: a table that is not there is created with
/// the larger of the requested capacity and the presize target; one whose
/// threshold is below the target is resized, unless it has the largest
/// capacity.
pub fn presize_step(size: usize, sc: isize, n: usize) -> (step: PresizeStep)
    ensures
        step == spec_presize_step(size, sc, n),
        step matches PresizeStep::Create { from, capacity, threshold } ==> capacity
            >= spec_presize_target(size) && is_pow2(capacity as int) && 1 <= capacity
            <= maximum_capacity(),
        step matches PresizeStep::Grow { from, to } ==> to < -1 && from >= 0 && to
            == spec_resize_word(n as isize, 1),
{
    let target = presize_target(size);
    if sc < 0 {
        PresizeStep::Done
    } else if n == 0 {
        let requested = initial_capacity(sc);
        let capacity = if sc > 0 && requested > target {
            requested
        } else {
            target
        };
        PresizeStep::Create { from: sc, capacity, threshold: resize_threshold(capacity) }
    } else if (sc as usize) >= target || n >= maximum_capacity() {
        PresizeStep::Done
    } else {
        proof {
            lemma_maximum_capacity();
            lemma_resize_word(n as isize, 1);
        }
        PresizeStep::Grow { from: sc, to: resize_word(n as isize) }
    }
}

/// The number of buckets that a thread claims at a time from a table of
/// length `n` on a machine with `ncpu` processors: an eighth of the table
/// shared among the processors, and at least `MIN_TRANSFER_STRIDE`.
pub open spec fn spec_transfer_stride(n: usize, ncpu: usize) -> usize {
    let share: usize = if ncpu > 1 {
        (n / 8) / ncpu
    } else {
        n
    };
    if share < MIN_TRANSFER_STRIDE {
        MIN_TRANSFER_STRIDE
    } else {
        share
    }
}

/// Returns the number of buckets that a thread claims at a time.
pub fn transfer_stride(n: usize, ncpu: usize) -> (stride: usize)
    ensures
        stride == spec_transfer_stride(n, ncpu),
        stride >= MIN_TRANSFER_STRIDE,
{
    let share = if ncpu > 1 {
        (n / 8) / ncpu
    } else {
        n
    };
    if share < MIN_TRANSFER_STRIDE {
        MIN_TRANSFER_STRIDE
    } else {
        share
    }
}

/// The lower end of the stride that a thread claims below the transfer
/// cursor `next_index`.
pub open spec fn spec_claim_stride(next_index: isize, stride: usize) -> isize {
    if next_index > stride {
        (next_index - stride) as isize
    } else {
        0
    }
}

/// Returns the value to swap the transfer cursor `next_index` for: the
/// claim is of the buckets from the result up to `next_index`, the highest
/// that are left.
pub fn claim_stride(next_index: isize, stride: usize) -> (bound: isize)
    requires
        next_index > 0,
        stride >= 1,
    ensures
        bound == spec_claim_stride(next_index, stride),
        0 <= bound < next_index,
        next_index - bound <= stride,
{
    if next_index as usize > stride {
        (next_index as usize - stride) as isize
    } else {
        0
    }
}

/// Where a resizing thread stands: it holds the buckets from `bound` up to
/// `next`, and on its last pass, `finishing`, it looks at every bucket
/// again before the new table is published.
#[derive(Clone, Copy, Debug, PartialEq, Eq, Structural)]
pub struct TransferCursor {
    pub next: usize,
    pub bound: usize,
    pub finishing: bool,
}

/// What a resizing thread does next.
#[derive(Clone, Copy, Debug, PartialEq, Eq, Structural)]
pub enum TransferStep {
    /// Move the bucket with this index.
    Bucket(usize),
    /// Swap the transfer cursor `from` for `to`; on success the thread
    /// holds the buckets between them.
    Claim { from: isize, to: isize },
    /// Nothing is left to claim: take one off the resizers in the control
    /// word, and go on to the last pass if that made this thread the last.
    Leave,
    /// The last pass is done: publish the next table.
    Commit,
}

/// The step of a thread at `cursor` that sees the transfer cursor
/// `transfer_index`, and where it stands after it.
pub open spec fn spec_transfer_step(cursor: TransferCursor, transfer_index: isize, stride: usize) -> (
    TransferCursor,
    TransferStep,
) {
    if cursor.next > cursor.bound {
        (
            TransferCursor { next: (cursor.next - 1) as usize, ..cursor },
            TransferStep::Bucket((cursor.next - 1) as usize),
        )
    } else if cursor.finishing {
        (cursor, TransferStep::Commit)
    } else if transfer_index <= 0 {
        (cursor, TransferStep::Leave)
    } else {
        (
            cursor,
            TransferStep::Claim {
                from: transfer_index,
                to: spec_claim_stride(transfer_index, stride),
            },
        )
    }
}

impl TransferCursor {
    /// The cursor of a thread that holds no buckets yet.
    pub fn start() -> (c: Self)
        ensures
            c == (TransferCursor { next: 0, bound: 0, finishing: false }),
    {
        TransferCursor { next: 0, bound: 0, finishing: false }
    }

    /// Decides the next step: the highest bucket that the thread holds; on
    /// the last pass, the commit once none is left; else a claim below the
    /// transfer cursor, or leaving once the cursor is at zero.
    pub fn step(&mut self, transfer_index: isize, stride: usize) -> (step: TransferStep)
        requires
            stride >= 1,
        ensures
            (*final(self), step) == spec_transfer_step(*old(self), transfer_index, stride),
            step matches TransferStep::Bucket(i) ==> old(self).bound <= i < old(self).next,
            step matches TransferStep::Claim { from, to } ==> 0 <= to < from && from - to
                <= stride,
    {
        if self.next > self.bound {
            self.next = self.next - 1;
            TransferStep::Bucket(self.next)
        } else if self.finishing {
            TransferStep::Commit
        } else if transfer_index <= 0 {
            TransferStep::Leave
        } else {
            TransferStep::Claim { from: transfer_index, to: claim_stride(transfer_index, stride) }
        }
    }

    /// The cursor after the claim of the buckets from `to` up to `from`
    /// has succeeded.
    pub fn claimed(&mut self, from: isize, to: isize)
        requires
            0 <= to <= from,
        ensures
            *final(self) == (TransferCursor { next: from as usize, bound: to as usize, ..*old(self) }),
    {
        self.next = from as usize;
        self.bound = to as usize;
    }

    /// The cursor at the start of the last pass over a table of length
    /// `n`.
    pub fn finish(&mut self, n: usize)
        ensures
            *final(self) == (TransferCursor { next: n, bound: 0, finishing: true }),
    {
        self.next = n;
        self.bound = 0;
        self.finishing = true;
    }
}

} // verus!
