//! Text keys: strings hashed and ordered by their bytes.

use vstd::prelude::*;
use vstd::utf8::{encode_utf8, encode_utf8_decode_utf8};
use vstd::wrapping::u64_specs::{wrapping_add, wrapping_mul};
use crate::key::{Key, KeyOrder};

verus! {

/// The order of byte strings: by the first byte in which they differ, a
/// proper prefix first.
pub open spec fn bytes_before(a: Seq<u8>, b: Seq<u8>) -> bool
    decreases a.len(),
{
    if b.len() == 0 {
        false
    } else if a.len() == 0 {
        true
    } else if a[0] != b[0] {
        a[0] < b[0]
    } else {
        bytes_before(a.drop_first(), b.drop_first())
    }
}

/// The hash of a byte string: each byte added to 31 times the hash of the
/// bytes before it, in 64-bit words.
pub open spec fn bytes_hash(s: Seq<u8>) -> u64
    decreases s.len(),
{
    if s.len() == 0 {
        0
    } else {
        wrapping_add(wrapping_mul(bytes_hash(s.drop_last()), 31), s.last() as u64)
    }
}

/// Byte strings with the same first byte stand as their rests do.
proof fn lemma_same_first(a: Seq<u8>, b: Seq<u8>)
    requires
        a.len() > 0,
        b.len() > 0,
        a[0] == b[0],
    ensures
        bytes_before(a, b) == bytes_before(a.drop_first(), b.drop_first()),
        (a == b) == (a.drop_first() == b.drop_first()),
{
    if a.drop_first() == b.drop_first() {
        assert(a =~= seq![a[0]] + a.drop_first());
        assert(b =~= seq![b[0]] + b.drop_first());
    }
}

/// `bytes_before` is irreflexive, transitive and total.
pub proof fn lemma_bytes_before_is_strict_total_order(a: Seq<u8>, b: Seq<u8>, c: Seq<u8>)
    ensures
        !bytes_before(a, a),
        bytes_before(a, b) && bytes_before(b, c) ==> bytes_before(a, c),
        a == b || bytes_before(a, b) || bytes_before(b, a),
    decreases a.len(),
{
    if a.len() > 0 {
        lemma_bytes_before_is_strict_total_order(a.drop_first(), a.drop_first(), a.drop_first());
        if b.len() > 0 {
            if a[0] == b[0] {
                lemma_same_first(a, b);
            }
            if c.len() > 0 {
                lemma_bytes_before_is_strict_total_order(
                    a.drop_first(),
                    b.drop_first(),
                    c.drop_first(),
                );
            } else {
                lemma_bytes_before_is_strict_total_order(
                    a.drop_first(),
                    b.drop_first(),
                    b.drop_first(),
                );
            }
        }
    } else if b.len() == 0 {
    }
}

/// Compares two byte strings.
pub fn compare_bytes(a: &[u8], b: &[u8]) -> (o: KeyOrder)
    ensures
        o == KeyOrder::Less <==> bytes_before(a@, b@),
        o == KeyOrder::Equal <==> a@ == b@,
        o == KeyOrder::Greater <==> bytes_before(b@, a@),
{
    proof {
        lemma_bytes_before_is_strict_total_order(a@, b@, a@);
        lemma_bytes_before_is_strict_total_order(b@, b@, b@);
    }
    let mut i: usize = 0;
    assert(a@.skip(0) =~= a@ && b@.skip(0) =~= b@);
    while i < a.len() && i < b.len()
        invariant
            i <= a.len(),
            i <= b.len(),
            bytes_before(a@, b@) == bytes_before(a@.skip(i as int), b@.skip(i as int)),
            bytes_before(b@, a@) == bytes_before(b@.skip(i as int), a@.skip(i as int)),
            (a@ == b@) == (a@.skip(i as int) == b@.skip(i as int)),
        decreases a.len() - i,
    {
        let ghost x = a@.skip(i as int);
        let ghost y = b@.skip(i as int);
        proof {
            assert(x.drop_first() =~= a@.skip(i + 1));
            assert(y.drop_first() =~= b@.skip(i + 1));
            lemma_bytes_before_is_strict_total_order(x, y, x);
            lemma_bytes_before_is_strict_total_order(y, y, y);
            if x[0] == y[0] {
                lemma_same_first(x, y);
                lemma_same_first(y, x);
            }
        }
        if a[i] < b[i] {
            return KeyOrder::Less;
        }
        if a[i] > b[i] {
            return KeyOrder::Greater;
        }
        i = i + 1;
    }
    proof {
        let x = a@.skip(i as int);
        let y = b@.skip(i as int);
        lemma_bytes_before_is_strict_total_order(x, y, x);
        lemma_bytes_before_is_strict_total_order(y, y, y);
    }
    if a.len() < b.len() {
        KeyOrder::Less
    } else if a.len() > b.len() {
        KeyOrder::Greater
    } else {
        KeyOrder::Equal
    }
}

/// Hashes a byte string.
pub fn hash_bytes(s: &[u8]) -> (h: u64)
    ensures
        h == bytes_hash(s@),
{
    let mut h: u64 = 0;
    let mut i: usize = 0;
    while i < s.len()
        invariant
            i <= s.len(),
            h == bytes_hash(s@.take(i as int)),
        decreases s.len() - i,
    {
        proof {
            assert(s@.take(i + 1).drop_last() =~= s@.take(i as int));
        }
        h = h.wrapping_mul(31).wrapping_add(s[i] as u64);
        i = i + 1;
    }
    assert(s@.take(s.len() as int) =~= s@);
    h
}

impl Key for String {
    open spec fn hash_of(k: Seq<char>) -> u64 {
        bytes_hash(encode_utf8(k))
    }

    open spec fn precedes(a: Seq<char>, b: Seq<char>) -> bool {
        bytes_before(encode_utf8(a), encode_utf8(b))
    }

    proof fn lemma_precedes_is_strict_total_order(a: Seq<char>, b: Seq<char>, c: Seq<char>) {
        lemma_bytes_before_is_strict_total_order(encode_utf8(a), encode_utf8(b), encode_utf8(c));
        encode_utf8_decode_utf8(a);
        encode_utf8_decode_utf8(b);
    }

    fn hash_code(&self) -> (h: u64) {
        hash_bytes(self.as_str().as_bytes())
    }

    fn duplicate(&self) -> (r: String) {
        self.clone()
    }

    fn compare(&self, other: &String) -> (o: KeyOrder) {
        proof {
            encode_utf8_decode_utf8(self@);
            encode_utf8_decode_utf8(other@);
        }
        compare_bytes(self.as_str().as_bytes(), other.as_str().as_bytes())
    }
}

} // verus!
