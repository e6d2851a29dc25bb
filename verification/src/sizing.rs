//! Capacity limits and the arithmetic on table sizes and hashes.

use vstd::prelude::*;
use vstd::arithmetic::power2::is_pow2;

verus! {

/// The largest table capacity: a quarter of the number of values of a
/// machine word, so that the two bits above it are left to the control
/// word.
pub open spec fn spec_maximum_capacity() -> usize {
    ((usize::MAX + 1) / 4) as usize
}

/// Returns the largest table capacity.
#[verifier::when_used_as_spec(spec_maximum_capacity)]
pub fn maximum_capacity() -> (m: usize)
    ensures
        m == spec_maximum_capacity(),
        m >= 0x4000_0000,
{
    usize::MAX / 4 + 1
}

/// The largest capacity is a power of two, `2^30` on a machine with words
/// of 32 bits and `2^62` on one with words of 64 bits.
pub proof fn lemma_maximum_capacity()
    ensures
        is_pow2(maximum_capacity() as int),
        single_bit(maximum_capacity() as u64),
        usize::BITS == 32 ==> maximum_capacity() == 0x4000_0000,
        usize::BITS == 64 ==> maximum_capacity() == 0x4000_0000_0000_0000,
        usize::BITS == 32 || usize::BITS == 64,
        0x4000_0000 <= maximum_capacity() <= 0x4000_0000_0000_0000,
        2 * maximum_capacity() <= isize::MAX + 1,
{
    assert(single_bit(0x4000_0000u64)) by (bit_vector);
    assert(single_bit(0x4000_0000_0000_0000u64)) by (bit_vector);
    lemma_single_bit_is_pow2(maximum_capacity() as u64);
}

/// The capacity of a table that is created without a size request.
pub const DEFAULT_CAPACITY: usize = 16;

/// Whether the word `n` has exactly one bit set.
pub open spec fn single_bit(n: u64) -> bool {
    n != 0 && n & ((n - 1) as u64) == 0
}

/// The smallest power of two that is at least `c`.
pub open spec fn ceil_pow2(c: nat) -> nat
    decreases c,
{
    if c <= 1 {
        1
    } else {
        2 * ceil_pow2((c + 1) / 2)
    }
}

/// The table size chosen for a wanted capacity: the smallest power of two
/// that holds it, capped at the largest capacity.
pub open spec fn spec_table_size_for(c: usize) -> usize {
    if c > maximum_capacity() {
        maximum_capacity()
    } else {
        ceil_pow2(c as nat) as usize
    }
}

/// A word with one bit set is a power of two.
pub proof fn lemma_single_bit_is_pow2(n: u64)
    requires
        single_bit(n),
    ensures
        is_pow2(n as int),
    decreases n,
{
    reveal(is_pow2);
    if n != 1 {
        let h: u64 = n / 2;
        assert(n % 2 == 0 && single_bit(h) && h < n) by (bit_vector)
            requires
                single_bit(n),
                n != 1,
                h == n / 2,
        ;
        lemma_single_bit_is_pow2(h);
    }
}

/// A power of two that fits a word has one bit set.
pub proof fn lemma_pow2_is_single_bit(n: u64)
    requires
        is_pow2(n as int),
    ensures
        single_bit(n),
    decreases n,
{
    reveal(is_pow2);
    if n == 1 {
        assert(single_bit(1u64)) by (bit_vector);
    } else {
        let h: u64 = n / 2;
        lemma_pow2_is_single_bit(h);
        assert(single_bit(n)) by (bit_vector)
            requires
                single_bit(h),
                h == n / 2,
                n % 2 == 0,
        ;
    }
}

/// `ceil_pow2(c)` is a power of two, at least `c`, and below `2 * c`.
pub proof fn lemma_ceil_pow2_bounds(c: nat)
    ensures
        is_pow2(ceil_pow2(c) as int),
        ceil_pow2(c) >= c,
        ceil_pow2(c) >= 1,
        c >= 1 ==> ceil_pow2(c) < 2 * c,
    decreases c,
{
    reveal(is_pow2);
    if c > 1 {
        let m = (c + 1) / 2;
        lemma_ceil_pow2_bounds(m);
        let p = ceil_pow2(m);
        if m >= 2 && c % 2 == 1 {
            // p is even and at most c, which is odd
        }
    }
}

/// Of two words with one bit set, the smaller is at most half the larger.
pub proof fn lemma_single_bit_gap(p: u64, q: u64)
    by (bit_vector)
    requires
        single_bit(p),
        single_bit(q),
        p < q,
    ensures
        p <= q / 2,
{
}

/// No power of two lies strictly between `ceil_pow2(c) / 2` and
/// `ceil_pow2(c)`: every power of two that is at least `c` is at least
/// `ceil_pow2(c)`.
pub proof fn lemma_ceil_pow2_least(c: nat, p: nat)
    requires
        is_pow2(p as int),
        p >= c,
        c <= maximum_capacity(),
    ensures
        p >= ceil_pow2(c),
{
    lemma_maximum_capacity();
    lemma_ceil_pow2_bounds(c);
    let r = ceil_pow2(c);
    if p < r {
        lemma_pow2_is_single_bit(r as u64);
        lemma_pow2_is_single_bit(p as u64);
        lemma_single_bit_gap(p as u64, r as u64);
    }
}

/// The bits of `n` copied into every lower position.
pub open spec fn smear(n: u64) -> u64 {
    let n = n | (n >> 1);
    let n = n | (n >> 2);
    let n = n | (n >> 4);
    let n = n | (n >> 8);
    let n = n | (n >> 16);
    n | (n >> 32)
}

proof fn lemma_smear(c: u64, s: u64)
    by (bit_vector)
    requires
        1 <= c <= 0x4000_0000_0000_0000u64,
        s == smear((c - 1) as u64),
    ensures
        s < 0x4000_0000_0000_0000u64,
        single_bit((s + 1) as u64),
        s + 1 >= c,
        (s + 1) / 2 < c,
{
}

/// Returns the table size for the wanted capacity `c`: the smallest power
/// of two that is at least `c`, or the largest capacity where `c` is larger.
pub fn table_size_for(c: usize) -> (r: usize)
    ensures
        r == spec_table_size_for(c),
        is_pow2(r as int),
        1 <= r <= maximum_capacity(),
        c <= maximum_capacity() ==> c <= r,
        2 <= c <= maximum_capacity() ==> r < 2 * c,
{
    proof {
        lemma_ceil_pow2_bounds(c as nat);
        lemma_maximum_capacity();
    }
    if c > maximum_capacity() {
        return maximum_capacity();
    }
    if c == 0 {
        return 1;
    }
    let mut n: u64 = (c - 1) as u64;
    n |= n >> 1;
    n |= n >> 2;
    n |= n >> 4;
    n |= n >> 8;
    n |= n >> 16;
    n |= n >> 32;
    proof {
        lemma_smear(c as u64, n);
        let r: u64 = (n + 1) as u64;
        lemma_single_bit_is_pow2(r);
        // r and ceil_pow2(c) are powers of two in the same window
        let q = ceil_pow2(c as nat) as u64;
        lemma_pow2_is_single_bit(q);
        if r < q {
            lemma_single_bit_gap(r, q);
        } else if q < r {
            lemma_single_bit_gap(q, r);
        }
        if maximum_capacity() < r {
            lemma_single_bit_gap(maximum_capacity() as u64, r);
        }
    }
    (n + 1) as usize
}

/// The table size for a wanted capacity within the limit is a power of two,
/// holds the capacity, and no smaller power of two does.
pub proof fn lemma_table_size_for_least(c: usize, p: nat)
    requires
        c <= maximum_capacity(),
        is_pow2(p as int),
        p >= c,
    ensures
        is_pow2(spec_table_size_for(c) as int),
        c <= spec_table_size_for(c) <= p,
        spec_table_size_for(c) <= maximum_capacity(),
        spec_table_size_for(c) == ceil_pow2(c as nat),
{
    lemma_maximum_capacity();
    lemma_ceil_pow2_bounds(c as nat);
    lemma_ceil_pow2_least(c as nat, p);
    lemma_ceil_pow2_least(c as nat, maximum_capacity() as nat);
}

/// Sizing a table size again changes nothing.
pub proof fn lemma_table_size_for_idempotent(c: usize)
    ensures
        spec_table_size_for(spec_table_size_for(c)) == spec_table_size_for(c),
{
    lemma_maximum_capacity();
    let r = spec_table_size_for(c);
    if c <= maximum_capacity() {
        lemma_table_size_for_least(c, maximum_capacity() as nat);
    }
    lemma_table_size_for_least(r, r as nat);
}

/// A power of two within the limit is its own table size.
pub proof fn lemma_table_size_for_pow2(n: usize)
    requires
        is_pow2(n as int),
        n <= maximum_capacity(),
    ensures
        spec_table_size_for(n) == n,
{
    lemma_table_size_for_least(n, n as nat);
}

/// The bits that a spread hash may use: all but the top one.
pub const HASH_BITS: u64 = 0x7fff_ffff_ffff_ffff;

/// The reserved hash that marks a bucket whose entries have moved on.
pub const MOVED: u64 = 0xffff_ffff_ffff_ffff;

/// The reserved hash that marks the root of a tree bin.
pub const TREEBIN: u64 = 0xffff_ffff_ffff_fffe;

/// The reserved hash that marks a transient reservation.
pub const RESERVED: u64 = 0xffff_ffff_ffff_fffd;

/// The hash that indexes the table: the upper half of the key's hash folded
/// into the lower half, with the top bit cleared.
pub open spec fn spec_spread(h: u64) -> u64 {
    (h ^ (h >> 32)) & HASH_BITS
}

/// Folds the upper half of a key's hash into its lower half and clears the
/// top bit, so that the result is none of the reserved hashes.
#[verifier::when_used_as_spec(spec_spread)]
pub fn spread(h: u64) -> (r: u64)
    ensures
        r == spec_spread(h),
        r <= HASH_BITS,
        r != MOVED && r != TREEBIN && r != RESERVED,
{
    let r = (h ^ (h >> 32)) & HASH_BITS;
    assert(((h ^ (h >> 32)) & 0x7fff_ffff_ffff_ffffu64) <= 0x7fff_ffff_ffff_ffffu64)
        by (bit_vector);
    r
}

/// The number of binary digits of `n`.
pub open spec fn bit_length(n: nat) -> nat
    decreases n,
{
    if n == 0 {
        0
    } else {
        1 + bit_length(n / 2)
    }
}

/// The number of zero bits above the highest one bit of `i` in a word of
/// 32 bits in two's complement: 32 less the number of binary digits. A
/// word of more digits, which only a machine with words of 64 bits has,
/// goes on downwards from 64, so that no two numbers of digits share a
/// count: 63 for 33 digits, down to 33 for 63 digits.
pub open spec fn spec_number_of_leading_zeros(i: isize) -> int {
    if i < 0 {
        0
    } else if bit_length(i as nat) <= 32 {
        32 - bit_length(i as nat)
    } else {
        96 - bit_length(i as nat)
    }
}

/// The count of leading zeros is below 64, and that of a positive number
/// that a word of 32 bits holds lies from 1 to 31.
pub proof fn lemma_leading_zeros_bounds(i: isize)
    ensures
        0 <= spec_number_of_leading_zeros(i) <= 63,
        i >= 0 ==> bit_length(i as nat) <= 63,
        0 < i <= i32::MAX ==> 1 <= spec_number_of_leading_zeros(i) <= 31
            && spec_number_of_leading_zeros(i) == 32 - bit_length(i as nat),
        i == 0 ==> spec_number_of_leading_zeros(i) == 32,
{
    vstd::arithmetic::power2::lemma2_to64();
    vstd::arithmetic::power2::lemma2_to64_rest();
    if i > 0 {
        lemma_bit_length_bound(i as nat, (isize::BITS - 1) as nat);
        if i <= i32::MAX {
            lemma_bit_length_bound(i as nat, 31);
        }
    }
}

/// A number below `2^k` has at most `k` binary digits.
proof fn lemma_bit_length_bound(n: nat, k: nat)
    requires
        n < vstd::arithmetic::power2::pow2(k),
    ensures
        bit_length(n) <= k,
    decreases n,
{
    if n > 0 {
        if k == 0 {
            vstd::arithmetic::power2::lemma2_to64();
        } else {
            vstd::arithmetic::power2::lemma_pow2_unfold(k);
            lemma_bit_length_bound(n / 2, (k - 1) as nat);
        }
    }
}

/// The halving search for the highest one bit of `x`.
spec fn leading_zeros_search(x: u64) -> u64 {
    let n0: u64 = if x >> 32 == 0 { 33u64 } else { 1u64 };
    let x0: u64 = if x >> 32 == 0 { x << 32 } else { x };
    let n1: u64 = if x0 >> 48 == 0 { (n0 + 16) as u64 } else { n0 };
    let x1: u64 = if x0 >> 48 == 0 { x0 << 16 } else { x0 };
    let n2: u64 = if x1 >> 56 == 0 { (n1 + 8) as u64 } else { n1 };
    let x2: u64 = if x1 >> 56 == 0 { x1 << 8 } else { x1 };
    let n3: u64 = if x2 >> 60 == 0 { (n2 + 4) as u64 } else { n2 };
    let x3: u64 = if x2 >> 60 == 0 { x2 << 4 } else { x2 };
    let n4: u64 = if x3 >> 62 == 0 { (n3 + 2) as u64 } else { n3 };
    let x4: u64 = if x3 >> 62 == 0 { x3 << 2 } else { x3 };
    (n4 - (x4 >> 63)) as u64
}

proof fn lemma_leading_zeros_search(x: u64, n: u64)
    by (bit_vector)
    requires
        x != 0,
        n == leading_zeros_search(x),
    ensures
        n <= 63,
        x >> ((63 - n) as u64) == 1,
{
}

/// A word whose bits above position `k` are zero and whose bit `k` is one
/// has `k + 1` binary digits.
proof fn lemma_bit_length_of_top_bit(x: u64, k: u64)
    requires
        k < 64,
        x >> k == 1,
    ensures
        bit_length(x as nat) == k + 1,
    decreases k,
{
    if k == 0 {
        assert(x == 1) by (bit_vector)
            requires
                x >> 0u64 == 1,
        ;
        assert(bit_length(1) == 1 + bit_length(0));
    } else {
        let h: u64 = x / 2;
        let j: u64 = (k - 1) as u64;
        assert(h >> j == 1 && x != 0) by (bit_vector)
            requires
                x >> k == 1,
                0 < k < 64,
                h == x / 2,
                j == k - 1,
        ;
        lemma_bit_length_of_top_bit(h, j);
    }
}

/// Returns the number of zero bits above the highest one bit of `i` in a
/// word of 32 bits, and 32 where `i` is zero.
pub fn number_of_leading_zeros(i: isize) -> (n: isize)
    ensures
        n == spec_number_of_leading_zeros(i),
        0 <= n <= 63,
        0 <= i <= i32::MAX ==> n == 32 - bit_length(i as nat),
        0 < i <= i32::MAX ==> 1 <= n <= 31,
        i == 0 ==> n == 32,
        i < 0 ==> n == 0,
{
    proof {
        lemma_leading_zeros_bounds(i);
    }
    if i < 0 {
        return 0;
    }
    if i == 0 {
        return 32;
    }
    let x0: u64 = i as u64;
    let mut x: u64 = x0;
    let mut n: u64 = 1;
    if x >> 32 == 0 {
        n += 32;
        x <<= 32;
    }
    if x >> 48 == 0 {
        n += 16;
        x <<= 16;
    }
    if x >> 56 == 0 {
        n += 8;
        x <<= 8;
    }
    if x >> 60 == 0 {
        n += 4;
        x <<= 4;
    }
    if x >> 62 == 0 {
        n += 2;
        x <<= 2;
    }
    proof {
        assert(x >> 63 <= 1) by (bit_vector);
        lemma_leading_zeros_search(x0, leading_zeros_search(x0));
    }
    n -= x >> 63;
    proof {
        lemma_bit_length_of_top_bit(x0, (63 - n) as u64);
    }
    // n counts within 64 bits
    if n >= 32 {
        (n - 32) as isize
    } else {
        (n + 32) as isize
    }
}

/// The number of bits of the control word that hold the generation stamp.
pub const RESIZE_STAMP_BITS: u32 = 16;

/// The weight of the generation stamp in the control word: the stamp
/// stands in the upper sixteen bits of the word.
pub open spec fn spec_stamp_unit() -> isize {
    ((usize::MAX + 1) / 0x1_0000) as isize
}

/// Returns the weight of the generation stamp in the control word.
#[verifier::when_used_as_spec(spec_stamp_unit)]
pub fn stamp_unit() -> (u: isize)
    ensures
        u == spec_stamp_unit(),
        u >= 0x1_0000,
{
    isize::MAX / 0x8000 + 1
}

/// The largest number of threads that can take part in one resize: what
/// the bits of the control word below the stamp can count.
pub open spec fn spec_max_resizers() -> isize {
    (spec_stamp_unit() - 1) as isize
}

/// Returns the largest number of threads that can take part in one resize.
#[verifier::when_used_as_spec(spec_max_resizers)]
pub fn max_resizers() -> (m: isize)
    ensures
        m == spec_max_resizers(),
        m >= 0xffff,
{
    stamp_unit() - 1
}

/// The generation stamp of a resize that starts from a table of length
/// `n`: the leading zeros of `n`, tagged with the top bit of the stamp
/// field.
pub open spec fn spec_resize_stamp(n: isize) -> int {
    spec_number_of_leading_zeros(n) + 0x8000
}

/// Returns the generation stamp for resizing a table of length `n`.
pub fn resize_stamp(n: isize) -> (rs: isize)
    ensures
        rs == spec_resize_stamp(n),
        0x8000 <= rs <= 0x803f,
{
    let z: i64 = number_of_leading_zeros(n) as i64;
    assert(z | 0x8000i64 == z + 0x8000) by (bit_vector)
        requires
            0 <= z <= 63,
    ;
    (z | 0x8000) as isize
}

/// Tables of different power-of-two lengths have different stamps.
pub proof fn lemma_resize_stamp_distinct(n: isize, m: isize)
    requires
        is_pow2(n as int),
        is_pow2(m as int),
        n != m,
    ensures
        spec_resize_stamp(n) != spec_resize_stamp(m),
{
    assert(n > 0 && m > 0) by {
        reveal(is_pow2);
    }
    lemma_leading_zeros_bounds(n);
    lemma_leading_zeros_bounds(m);
    lemma_bit_length_of_pow2(n as nat);
    lemma_bit_length_of_pow2(m as nat);
}

/// A power of two is determined by the number of its binary digits.
proof fn lemma_bit_length_of_pow2(n: nat)
    requires
        is_pow2(n as int),
    ensures
        n == vstd::arithmetic::power2::pow2((bit_length(n) - 1) as nat),
        bit_length(n) >= 1,
    decreases n,
{
    reveal(is_pow2);
    vstd::arithmetic::power2::lemma2_to64();
    if n == 1 {
        assert(bit_length(1) == 1 + bit_length(0));
    } else {
        lemma_bit_length_of_pow2(n / 2);
        vstd::arithmetic::power2::lemma_pow2_unfold((bit_length(n) - 1) as nat);
    }
}

} // verus!
