//! Keys: a hash and a strict total order on each key's model.

use vstd::prelude::*;
use crate::sizing::spread;

verus! {

/// How one key stands to another in the order of a tree bin.
#[derive(Clone, Copy, Debug, PartialEq, Eq, Structural)]
pub enum KeyOrder {
    Less,
    Equal,
    Greater,
}

/// A key of the table. Two keys are the same entry exactly when their
/// models (`@`) are equal; the hash and the order are functions of the
/// model.
pub trait Key: View + Sized {
    /// The hash of a key, before it is spread.
    spec fn hash_of(k: Self::V) -> u64;

    /// A strict total order on keys, used to break ties between equal
    /// hashes.
    spec fn precedes(a: Self::V, b: Self::V) -> bool;

    /// `precedes` is irreflexive, transitive and total.
    proof fn lemma_precedes_is_strict_total_order(a: Self::V, b: Self::V, c: Self::V)
        ensures
            !Self::precedes(a, a),
            Self::precedes(a, b) && Self::precedes(b, c) ==> Self::precedes(a, c),
            a == b || Self::precedes(a, b) || Self::precedes(b, a),
    ;

    /// Returns the key's hash.
    fn hash_code(&self) -> (h: u64)
        ensures
            h == Self::hash_of(self@),
    ;

    /// Returns a second key with the same model.
    fn duplicate(&self) -> (r: Self)
        ensures
            r@ == self@,
    ;

    /// Compares two keys in the tie-break order.
    fn compare(&self, other: &Self) -> (o: KeyOrder)
        ensures
            o == KeyOrder::Less <==> Self::precedes(self@, other@),
            o == KeyOrder::Equal <==> self@ == other@,
            o == KeyOrder::Greater <==> Self::precedes(other@, self@),
    ;
}

impl Key for u64 {
    open spec fn hash_of(k: u64) -> u64 {
        k
    }

    open spec fn precedes(a: u64, b: u64) -> bool {
        a < b
    }

    proof fn lemma_precedes_is_strict_total_order(a: u64, b: u64, c: u64) {
    }

    fn hash_code(&self) -> (h: u64) {
        *self
    }

    fn duplicate(&self) -> (r: u64) {
        *self
    }

    fn compare(&self, other: &u64) -> (o: KeyOrder) {
        if *self < *other {
            KeyOrder::Less
        } else if *self == *other {
            KeyOrder::Equal
        } else {
            KeyOrder::Greater
        }
    }
}

/// The spread hash under which the key with model `k` is stored.
pub open spec fn slot_hash<K: Key>(k: K::V) -> u64 {
    spread(K::hash_of(k))
}

/// The order of a tree bin: by spread hash, then by the keys' own order.
pub open spec fn before<K: Key>(a: K::V, b: K::V) -> bool {
    slot_hash::<K>(a) < slot_hash::<K>(b) || (slot_hash::<K>(a) == slot_hash::<K>(b)
        && K::precedes(a, b))
}

/// `before` is a strict total order.
pub proof fn lemma_before_is_strict_total_order<K: Key>()
    ensures
        forall|a: K::V| !#[trigger] before::<K>(a, a),
        forall|a: K::V, b: K::V, c: K::V|
            #[trigger] before::<K>(a, b) && #[trigger] before::<K>(b, c) ==> before::<K>(a, c),
        forall|a: K::V, b: K::V|
            a == b || #[trigger] before::<K>(a, b) || before::<K>(b, a),
        forall|a: K::V, b: K::V| #[trigger] before::<K>(a, b) ==> !before::<K>(b, a),
{
    assert forall|a: K::V| !#[trigger] before::<K>(a, a) by {
        K::lemma_precedes_is_strict_total_order(a, a, a);
    }
    assert forall|a: K::V, b: K::V, c: K::V| #[trigger]
        before::<K>(a, b) && #[trigger] before::<K>(b, c) implies before::<K>(a, c) by {
        K::lemma_precedes_is_strict_total_order(a, b, c);
    }
    assert forall|a: K::V, b: K::V|
        a == b || #[trigger] before::<K>(a, b) || before::<K>(b, a) by {
        K::lemma_precedes_is_strict_total_order(a, b, a);
    }
    assert forall|a: K::V, b: K::V| #[trigger] before::<K>(a, b) implies !before::<K>(b, a) by {
        K::lemma_precedes_is_strict_total_order(a, b, a);
        K::lemma_precedes_is_strict_total_order(a, a, a);
    }
}

/// Compares the entry `(hash, key)` with the entry `(other_hash, other)`:
/// first by hash, then by key.
pub fn compare_entries<K: Key>(hash: u64, key: &K, other_hash: u64, other: &K) -> (o: KeyOrder)
    requires
        hash == slot_hash::<K>(key@),
        other_hash == slot_hash::<K>(other@),
    ensures
        o == KeyOrder::Less <==> before::<K>(key@, other@),
        o == KeyOrder::Equal <==> key@ == other@,
        o == KeyOrder::Greater <==> before::<K>(other@, key@),
{
    proof {
        lemma_before_is_strict_total_order::<K>();
    }
    if hash < other_hash {
        KeyOrder::Less
    } else if hash > other_hash {
        KeyOrder::Greater
    } else {
        key.compare(other)
    }
}

} // verus!
