//! The element counter: a base count and a lazily created array of cells
//! among which contending threads spread their updates.

use vstd::prelude::*;
use vstd::arithmetic::power2::is_pow2;
use vstd::wrapping::isize_specs::{signed_crop, wrapping_add};
use crate::sizing::{spec_table_size_for, table_size_for};

verus! {

/// The number of values of a machine word.
pub open spec fn word_range() -> int {
    usize::MAX - usize::MIN + 1
}

/// The signed words are as many as the unsigned ones.
proof fn lemma_word_range()
    ensures
        word_range() == isize::MAX - isize::MIN + 1,
        word_range() == 2 * isize::MAX + 2,
        isize::MIN == -isize::MAX - 1,
{
}

/// Adding two signed words wraps by at most one word range.
proof fn lemma_wrapping_add(a: isize, x: isize) -> (k: int)
    ensures
        -1 <= k <= 1,
        wrapping_add(a, x) == a + x - k * word_range(),
{
    lemma_word_range();
    let r = word_range();
    let k: int = if a + x > isize::MAX {
        1
    } else if a + x < isize::MIN {
        -1
    } else {
        0
    };
    k
}

/// Two signed words that differ by a multiple of the word range are equal.
proof fn lemma_same_word(a: int, b: int, q: int)
    by (nonlinear_arith)
    requires
        isize::MIN <= a <= isize::MAX,
        isize::MIN <= b <= isize::MAX,
        isize::MAX - isize::MIN + 1 == usize::MAX - usize::MIN + 1,
        a - b == q * (usize::MAX - usize::MIN + 1),
    ensures
        a == b,
{
}

/// The signed word of `v` is in range and differs from `v` by a multiple
/// of the word range.
proof fn lemma_signed_crop(v: int) -> (q: int)
    ensures
        isize::MIN <= signed_crop(v) <= isize::MAX,
        signed_crop(v) == v - q * word_range(),
        isize::MIN <= v <= isize::MAX ==> signed_crop(v) == v,
{
    let r = word_range();
    lemma_word_range();
    vstd::arithmetic::div_mod::lemma_fundamental_div_mod(v, r);
    vstd::arithmetic::div_mod::lemma_mod_bound(v, r);
    assert(r * (v / r) == (v / r) * r) by (nonlinear_arith);
    let q = if (v % r) > isize::MAX {
        v / r + 1
    } else {
        v / r
    };
    assert((v / r + 1) * r == (v / r) * r + r) by (nonlinear_arith);
    if isize::MIN <= v <= isize::MAX {
        let c = signed_crop(v) as int;
        assert(c - v == (-q) * r) by (nonlinear_arith)
            requires
                c == v - q * r,
        ;
        lemma_same_word(c, v, -q);
    }
    q
}

/// A number in the range of signed words is its own signed word.
pub proof fn lemma_signed_crop_in_range(v: int)
    requires
        isize::MIN <= v <= isize::MAX,
    ensures
        signed_crop(v) == v,
{
    let _ = lemma_signed_crop(v);
}

/// Adding to the signed word of a number gives the signed word of the
/// sum.
pub proof fn lemma_wrapping_add_crop(v: int, d: isize)
    ensures
        wrapping_add(signed_crop(v), d) == signed_crop(v + d),
{
    let r = word_range();
    let q1 = lemma_signed_crop(v);
    let q2 = lemma_signed_crop(v + d);
    lemma_word_range();
    let c = signed_crop(v);
    let a = wrapping_add(c, d) as int;
    let k = lemma_wrapping_add(c, d);
    let b = signed_crop(v + d) as int;
    assert(a - b == (q2 - q1 - k) * r) by (nonlinear_arith)
        requires
            a == c + d - k * r,
            c == v - q1 * r,
            b == v + d - q2 * r,
    ;
    lemma_same_word(a, b, q2 - q1 - k);
}

/// The sum of the cells.
pub open spec fn cells_total(cells: Seq<isize>) -> int
    decreases cells.len(),
{
    if cells.len() == 0 {
        0
    } else {
        cells_total(cells.drop_last()) + cells.last()
    }
}

/// The count that a base value and cells stand for: their sum as a signed
/// word.
pub open spec fn spec_sum_count(base: isize, cells: Seq<isize>) -> isize {
    signed_crop(base + cells_total(cells))
}

/// Changing one cell by `d` changes the sum by `d`.
pub proof fn lemma_cells_total_update(cells: Seq<isize>, i: int, v: isize)
    requires
        0 <= i < cells.len(),
    ensures
        cells_total(cells.update(i, v)) == cells_total(cells) - cells[i] + v,
    decreases cells.len(),
{
    let after = cells.update(i, v);
    if i == cells.len() - 1 {
        assert(after.drop_last() =~= cells.drop_last());
    } else {
        assert(after.drop_last() =~= cells.drop_last().update(i, v));
        lemma_cells_total_update(cells.drop_last(), i, v);
    }
}

/// Adds up the base value and the cells, wrapping around.
pub fn sum_count(base: isize, cells: &Vec<isize>) -> (sum: isize)
    ensures
        sum == spec_sum_count(base, cells@),
{
    let mut sum = base;
    let mut i: usize = 0;
    proof {
        let _ = lemma_signed_crop(base as int);
    }
    while i < cells.len()
        invariant
            i <= cells.len(),
            sum == signed_crop(base + cells_total(cells@.take(i as int))),
        decreases cells.len() - i,
    {
        proof {
            let done = cells@.take(i as int);
            assert(cells@.take(i + 1).drop_last() =~= done);
            lemma_wrapping_add_crop(base + cells_total(done), cells[i as int]);
        }
        sum = sum.wrapping_add(cells[i]);
        i = i + 1;
    }
    assert(cells@.take(cells.len() as int) =~= cells@);
    sum
}

/// The size that a count stands for: the count, or zero where removals
/// that have been counted ahead of their insertions leave it negative.
pub fn size_of_count(sum: isize) -> (n: usize)
    ensures
        n == if sum < 0 {
            0
        } else {
            sum as int
        },
{
    if sum < 0 {
        0
    } else {
        sum as usize
    }
}

/// The cell that a thread with probe `h` updates among `n` cells.
pub open spec fn spec_cell_index(h: u64, n: usize) -> usize {
    (h & ((n - 1) as u64)) as usize
}

/// Returns the index of the cell that a thread with probe `h` updates
/// among `n` cells.
pub fn cell_index(h: u64, n: usize) -> (i: usize)
    requires
        n >= 1,
    ensures
        i == spec_cell_index(h, n),
        i < n,
{
    let m: u64 = (n - 1) as u64;
    assert(h & m <= m) by (bit_vector);
    (h & m) as usize
}

/// Where an update of the count goes.
#[derive(Clone, Copy, Debug, PartialEq, Eq, Structural)]
pub enum AddPath {
    /// To the base value.
    Base,
    /// To the cell with this index.
    Cell(usize),
    /// Into the first cell of a new array of this length.
    NewCells(usize),
}

/// The path of an update, given the number of cells (zero while there are
/// none), whether the base value was free to take the update, whether
/// the right to create the cells was free, the thread's probe, and the
/// number of processors.
pub open spec fn spec_add_path(
    cells: usize,
    base_free: bool,
    cells_free: bool,
    h: u64,
    ncpu: usize,
) -> AddPath {
    if cells > 0 {
        AddPath::Cell(spec_cell_index(h, cells))
    } else if base_free {
        AddPath::Base
    } else if cells_free {
        AddPath::NewCells(spec_table_size_for(ncpu))
    } else {
        AddPath::Base
    }
}

/// Chooses the path of an update: a cell once there are cells; else the
/// base value if it was free; else a new array of cells, as many as the
/// power of two that holds `ncpu`, if the right to create it was free; else
/// the base value after all.
pub fn add_path(cells: usize, base_free: bool, cells_free: bool, h: u64, ncpu: usize) -> (p:
    AddPath)
    ensures
        p == spec_add_path(cells, base_free, cells_free, h, ncpu),
        p matches AddPath::Cell(i) ==> i < cells,
        p matches AddPath::NewCells(n) ==> is_pow2(n as int) && n >= 1,
{
    if cells > 0 {
        AddPath::Cell(cell_index(h, cells))
    } else if base_free {
        AddPath::Base
    } else if cells_free {
        AddPath::NewCells(table_size_for(ncpu))
    } else {
        AddPath::Base
    }
}

/// The values of `n` new cells: `x` in the first, zero in the others.
pub open spec fn spec_new_cells(x: isize, n: nat) -> Seq<isize> {
    Seq::new(
        n,
        |i: int|
            if i == 0 {
                x
            } else {
                0isize
            },
    )
}

/// Makes the values of `n` new cells: `x` in the first, zero in the
/// others.
pub fn new_cells(x: isize, n: usize) -> (cells: Vec<isize>)
    requires
        n >= 1,
    ensures
        cells@ == spec_new_cells(x, n as nat),
        cells_total(cells@) == x,
{
    let mut cells: Vec<isize> = Vec::new();
    cells.push(x);
    assert(cells_total(cells@.drop_last()) == 0);
    let mut i: usize = 1;
    while i < n
        invariant
            1 <= i <= n,
            cells.len() == i,
            cells[0] == x,
            forall|j: int| 1 <= j < i ==> cells[j] == 0,
            cells_total(cells@) == x,
        decreases n - i,
    {
        let ghost before = cells@;
        cells.push(0);
        assert(cells@.drop_last() =~= before);
        i = i + 1;
    }
    cells
}

/// The base value and the cells after `x` has gone the way of `path`: to
/// the base value, to one cell, or into the first cell of a new array
/// beside the base value.
pub open spec fn spec_after_add(base: isize, cells: Seq<isize>, path: AddPath, x: isize) -> (
    isize,
    Seq<isize>,
) {
    match path {
        AddPath::Base => (wrapping_add(base, x), cells),
        AddPath::Cell(i) => (base, cells.update(i as int, wrapping_add(cells[i as int], x))),
        AddPath::NewCells(n) => (base, spec_new_cells(x, n as nat)),
    }
}

/// Whether the table's size is looked at after an update of the count
/// that went the way of `path`: never where `check` is negative, and
/// after an update of a cell only where `check` is above one.
pub open spec fn spec_resize_check_due(check: isize, path: AddPath) -> bool {
    match path {
        AddPath::Cell(_) => check > 1,
        _ => check >= 0,
    }
}

/// Decides whether to look at the table's size after an update of the
/// count.
pub fn resize_check_due(check: isize, path: AddPath) -> (due: bool)
    ensures
        due == spec_resize_check_due(check, path),
{
    match path {
        AddPath::Cell(_) => check > 1,
        _ => check >= 0,
    }
}

/// The counter of a table that one thread at a time updates.
pub struct Counter {
    base: isize,
    cells: Vec<isize>,
}

impl Counter {
    /// The base value.
    pub closed spec fn base(self) -> isize {
        self.base
    }

    /// The values of the cells; none until they are created.
    pub closed spec fn cells(self) -> Seq<isize> {
        self.cells@
    }

    /// The count: the base value and the cells summed up as a signed word.
    pub open spec fn total(self) -> isize {
        spec_sum_count(self.base(), self.cells())
    }

    /// The number of cells; zero until they are created.
    pub open spec fn cell_count(self) -> nat {
        self.cells().len()
    }

    /// A counter at zero, without cells.
    pub fn new() -> (c: Self)
        ensures
            c.base() == 0,
            c.cells() == Seq::<isize>::empty(),
            c.total() == 0,
    {
        proof {
            let _ = lemma_signed_crop(0);
        }
        let c = Counter { base: 0, cells: Vec::new() };
        c
    }

    /// The number of cells; zero until they are created.
    pub fn cell_len(&self) -> (n: usize)
        ensures
            n == self.cell_count(),
    {
        self.cells.len()
    }

    /// The count.
    pub fn sum_count(&self) -> (sum: isize)
        ensures
            sum == self.total(),
    {
        sum_count(self.base, &self.cells)
    }

    /// Adds `x` to the count: to the cell of the thread's probe `h` once
    /// there are cells, else to the base value if it was free to take the
    /// update, else as `full_add_count` does. Returns the way that the
    /// update went.
    pub fn add_count(&mut self, x: isize, base_free: bool, cells_free: bool, h: u64, ncpu: usize) -> (path:
        AddPath)
        ensures
            path == spec_add_path(
                old(self).cell_count() as usize,
                base_free,
                cells_free,
                h,
                ncpu,
            ),
            (final(self).base(), final(self).cells()) == spec_after_add(
                old(self).base(),
                old(self).cells(),
                path,
                x,
            ),
            final(self).total() == wrapping_add(old(self).total(), x),
    {
        if self.cells.len() == 0 && base_free {
            proof {
                lemma_wrapping_add_crop(self.base + cells_total(self.cells@), x);
                lemma_regroup(self.base, x, cells_total(self.cells@));
            }
            self.base = self.base.wrapping_add(x);
            AddPath::Base
        } else {
            self.full_add_count(x, cells_free, h, ncpu)
        }
    }

    /// Adds `x` to the count after the base value was found taken: to the
    /// cell of the thread's probe `h` once there are cells; else into the
    /// first cell of a new array of cells, if the right to create it was
    /// free; else to the base value after all. Returns the way that the
    /// update went.
    pub fn full_add_count(&mut self, x: isize, cells_free: bool, h: u64, ncpu: usize) -> (path:
        AddPath)
        ensures
            path == spec_add_path(old(self).cell_count() as usize, false, cells_free, h, ncpu),
            (final(self).base(), final(self).cells()) == spec_after_add(
                old(self).base(),
                old(self).cells(),
                path,
                x,
            ),
            final(self).total() == wrapping_add(old(self).total(), x),
    {
        proof {
            lemma_wrapping_add_crop(self.base + cells_total(self.cells@), x);
        }
        let path = add_path(self.cells.len(), false, cells_free, h, ncpu);
        match path {
            AddPath::Base => {
                proof {
                    lemma_regroup(self.base, x, cells_total(self.cells@));
                }
                self.base = self.base.wrapping_add(x);
            },
            AddPath::Cell(i) => {
                let v = self.cells[i].wrapping_add(x);
                proof {
                    lemma_cells_total_update(self.cells@, i as int, v);
                    lemma_regroup(
                        self.cells[i as int],
                        x,
                        self.base + cells_total(self.cells@) - self.cells[i as int],
                    );
                }
                self.cells.set(i, v);
            },
            AddPath::NewCells(n) => {
                self.cells = new_cells(x, n);
            },
        }
        path
    }
}

/// A wrapped sum inside a sum has the same signed word as the plain sum.
proof fn lemma_regroup(a: isize, x: isize, rest: int)
    ensures
        signed_crop(wrapping_add(a, x) + rest) == signed_crop(a + x + rest),
{
    let r = word_range();
    let w = wrapping_add(a, x) as int;
    let k = lemma_wrapping_add(a, x);
    lemma_word_range();
    let q1 = lemma_signed_crop(w + rest);
    let q2 = lemma_signed_crop(a + x + rest);
    let lhs = signed_crop(w + rest) as int;
    let rhs = signed_crop(a + x + rest) as int;
    assert(lhs - rhs == (q2 - q1 - k) * r) by (nonlinear_arith)
        requires
            lhs == w + rest - q1 * r,
            rhs == a + x + rest - q2 * r,
            w == a + x - k * r,
    ;
    lemma_same_word(lhs, rhs, q2 - q1 - k);
}

} // verus!
