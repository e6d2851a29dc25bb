//! Chain bins: singly linked lists of entries.

use vstd::prelude::*;
use std::sync::Arc;
use crate::key::{slot_hash, Key, KeyOrder};

verus! {

/// `Arc::clone`: the result is a pointer to the value that the argument
/// points to, so the two are equal.
#[verifier::external_body]
pub(crate) fn share<V>(value: &Arc<V>) -> (r: Arc<V>)
    ensures
        r == *value,
{
    Arc::clone(value)
}

/// The value behind a shared pointer.
pub open spec fn pointed<V>(a: Arc<V>) -> V {
    *a
}

/// The value behind an optional shared pointer.
pub open spec fn pointee<V>(r: Option<Arc<V>>) -> Option<V> {
    match r {
        Some(a) => Some(*a),
        None => None,
    }
}

/// What a map holds under a key, if anything.
pub open spec fn lookup<A, B>(m: Map<A, B>, k: A) -> Option<B> {
    if m.contains_key(k) {
        Some(m[k])
    } else {
        None
    }
}

/// One entry of a chain: its spread hash, its key, its value and the rest
/// of the chain.
pub struct Node<K: Key, V> {
    hash: u64,
    key: K,
    value: Arc<V>,
    next: Option<Box<Node<K, V>>>,
}

/// The entries of a chain that may be empty.
pub open spec fn chain_map<K: Key, V>(chain: Option<Box<Node<K, V>>>) -> Map<K::V, V>
    decreases chain,
{
    match chain {
        None => Map::empty(),
        Some(node) => node.as_map(),
    }
}

/// The number of nodes of a chain that may be empty.
pub open spec fn chain_len<K: Key, V>(chain: Option<Box<Node<K, V>>>) -> nat
    decreases chain,
{
    match chain {
        None => 0,
        Some(node) => node.len(),
    }
}

/// Whether every node of a chain that may be empty is well formed.
pub open spec fn chain_wf<K: Key, V>(chain: Option<Box<Node<K, V>>>) -> bool
    decreases chain,
{
    match chain {
        None => true,
        Some(node) => node.wf(),
    }
}

/// The entries of `m` whose spread hash has none of the bits of `bit`.
pub open spec fn low_part<K: Key, V>(m: Map<K::V, V>, bit: u64) -> Map<K::V, V> {
    Map::new(|k: K::V| m.contains_key(k) && slot_hash::<K>(k) & bit == 0, |k: K::V| m[k])
}

/// The entries of `m` whose spread hash has a bit of `bit`.
pub open spec fn high_part<K: Key, V>(m: Map<K::V, V>, bit: u64) -> Map<K::V, V> {
    Map::new(|k: K::V| m.contains_key(k) && slot_hash::<K>(k) & bit != 0, |k: K::V| m[k])
}

impl<K: Key, V> Node<K, V> {
    /// The entries of the chain that starts at this node.
    pub closed spec fn as_map(self) -> Map<K::V, V>
        decreases self,
    {
        chain_map(self.next).insert(self.key@, *self.value)
    }

    /// The number of nodes of the chain that starts at this node.
    pub closed spec fn len(self) -> nat
        decreases self,
    {
        1 + chain_len(self.next)
    }

    /// Every node carries the spread hash of its key, and no key occurs
    /// twice.
    pub closed spec fn wf(self) -> bool
        decreases self,
    {
        &&& self.hash == slot_hash::<K>(self.key@)
        &&& !chain_map(self.next).contains_key(self.key@)
        &&& chain_wf(self.next)
    }

    /// A well-formed chain holds as many entries as it has nodes.
    pub proof fn lemma_len(self)
        requires
            self.wf(),
        ensures
            self.as_map().dom().finite(),
            self.as_map().len() == self.len(),
            self.len() >= 1,
        decreases self,
    {
        match self.next {
            None => {},
            Some(node) => {
                node.lemma_len();
            },
        }
    }

    /// A chain of one entry.
    pub fn new(hash: u64, key: K, value: Arc<V>) -> (node: Self)
        requires
            hash == slot_hash::<K>(key@),
        ensures
            node.wf(),
            node.as_map() == Map::<K::V, V>::empty().insert(key@, *value),
            node.len() == 1,
    {
        Node { hash, key, value, next: None }
    }

    /// Looks `key` up in the chain.
    pub fn find(&self, hash: u64, key: &K) -> (r: Option<Arc<V>>)
        requires
            self.wf(),
            hash == slot_hash::<K>(key@),
        ensures
            pointee(r) == lookup(self.as_map(), key@),
    {
        let mut cur = self;
        loop
            invariant
                cur.wf(),
                lookup(cur.as_map(), key@) == lookup(self.as_map(), key@),
                hash == slot_hash::<K>(key@),
            decreases cur,
        {
            if cur.hash == hash && cur.key.compare(key) == KeyOrder::Equal {
                return Some(share(&cur.value));
            }
            match &cur.next {
                None => {
                    return None;
                },
                Some(node) => {
                    cur = &**node;
                },
            }
        }
    }

    /// Stores `value` under `key`: in place of the value that the chain
    /// holds for it, unless `only_if_absent`, or in a new node at the end.
    /// Returns the value that the chain held.
    pub fn put(&mut self, hash: u64, key: K, value: Arc<V>, only_if_absent: bool) -> (prev: Option<
        Arc<V>,
    >)
        requires
            old(self).wf(),
            hash == slot_hash::<K>(key@),
        ensures
            final(self).wf(),
            pointee(prev) == lookup(old(self).as_map(), key@),
            final(self).as_map() == if only_if_absent && old(self).as_map().contains_key(key@) {
                old(self).as_map()
            } else {
                old(self).as_map().insert(key@, *value)
            },
            final(self).len() == old(self).len() + if old(self).as_map().contains_key(key@) {
                0nat
            } else {
                1nat
            },
        decreases *old(self),
    {
        if self.hash == hash && self.key.compare(&key) == KeyOrder::Equal {
            if only_if_absent {
                Some(share(&self.value))
            } else {
                let mut v = value;
                core::mem::swap(&mut self.value, &mut v);
                Some(v)
            }
        } else {
            match self.next.take() {
                None => {
                    let ghost k = key@;
                    let tail = Node { hash, key, value, next: None };
                    assert(tail.wf() && tail.len() == 1 && tail.as_map() =~= Map::<K::V, V>::empty().insert(k, *value));
                    self.next = Some(Box::new(tail));
                    None
                },
                Some(mut rest) => {
                    let prev = rest.put(hash, key, value, only_if_absent);
                    self.next = Some(rest);
                    prev
                },
            }
        }
    }

    /// Puts an entry in front of a chain that does not hold its key.
    pub fn push_front(rest: Option<Box<Node<K, V>>>, hash: u64, key: K, value: Arc<V>) -> (node:
        Self)
        requires
            chain_wf(rest),
            hash == slot_hash::<K>(key@),
            !chain_map(rest).contains_key(key@),
        ensures
            node.wf(),
            node.as_map() == chain_map(rest).insert(key@, *value),
            node.len() == chain_len(rest) + 1,
    {
        Node { hash, key, value, next: rest }
    }

    /// Takes the first entry off the chain.
    pub fn pop_front(self) -> (r: (u64, K, Arc<V>, Option<Box<Node<K, V>>>))
        requires
            self.wf(),
        ensures
            r.0 == slot_hash::<K>(r.1@),
            chain_wf(r.3),
            !chain_map(r.3).contains_key(r.1@),
            self.as_map() == chain_map(r.3).insert(r.1@, *r.2),
            self.len() == chain_len(r.3) + 1,
    {
        (self.hash, self.key, self.value, self.next)
    }

    /// Whether the chain has at least `limit` nodes.
    pub fn reaches(&self, limit: usize) -> (b: bool)
        requires
            self.wf(),
        ensures
            b == (self.len() >= limit),
    {
        let mut cur = self;
        let mut seen: usize = 1;
        loop
            invariant
                cur.wf(),
                1 <= seen <= limit || seen == 1,
                self.len() == cur.len() + seen - 1,
            decreases cur,
        {
            if seen >= limit {
                return true;
            }
            match &cur.next {
                None => {
                    return false;
                },
                Some(node) => {
                    cur = &**node;
                    seen = seen + 1;
                },
            }
        }
    }

    /// Copies the chain.
    pub fn duplicate(&self) -> (r: Self)
        requires
            self.wf(),
        ensures
            r.wf(),
            r.as_map() == self.as_map(),
            r.len() == self.len(),
        decreases self,
    {
        let next = match &self.next {
            None => None,
            Some(node) => Some(Box::new(node.duplicate())),
        };
        Node { hash: self.hash, key: self.key.duplicate(), value: share(&self.value), next }
    }

    /// Takes the entry of `key` out of a chain that may be empty, and
    /// returns the value that it held.
    pub fn remove_from(chain: &mut Option<Box<Node<K, V>>>, hash: u64, key: &K) -> (prev: Option<
        Arc<V>,
    >)
        requires
            chain_wf(*old(chain)),
            hash == slot_hash::<K>(key@),
        ensures
            chain_wf(*final(chain)),
            pointee(prev) == lookup(chain_map(*old(chain)), key@),
            chain_map(*final(chain)) == chain_map(*old(chain)).remove(key@),
            chain_len(*final(chain)) == chain_len(*old(chain)) - if chain_map(
                *old(chain),
            ).contains_key(key@) {
                1int
            } else {
                0int
            },
        decreases *old(chain),
    {
        match chain.take() {
            None => {
                None
            },
            Some(node) => {
                let Node { hash: h, key: k, value: v, next } = *node;
                if h == hash && k.compare(key) == KeyOrder::Equal {
                    *chain = next;
                    Some(v)
                } else {
                    let mut rest = next;
                    let prev = Self::remove_from(&mut rest, hash, key);
                    let kept = Node { hash: h, key: k, value: v, next: rest };
                    *chain = Some(Box::new(kept));
                    prev
                }
            },
        }
    }

    /// Parts a chain that may be empty by the bits of `bit` in each
    /// entry's spread hash: the entries without them, and those with one.
    pub fn split(chain: Option<Box<Node<K, V>>>, bit: u64) -> (r: (
        Option<Box<Node<K, V>>>,
        Option<Box<Node<K, V>>>,
    ))
        requires
            chain_wf(chain),
        ensures
            chain_wf(r.0),
            chain_wf(r.1),
            chain_map(r.0) == low_part::<K, V>(chain_map(chain), bit),
            chain_map(r.1) == high_part::<K, V>(chain_map(chain), bit),
            chain_len(r.0) + chain_len(r.1) == chain_len(chain),
        decreases chain,
    {
        match chain {
            None => {
                (None, None)
            },
            Some(node) => {
                let Node { hash: h, key: k, value: v, next } = *node;
                let (lo, hi) = Self::split(next, bit);
                if h & bit == 0 {
                    let head = Node { hash: h, key: k, value: v, next: lo };
                    (Some(Box::new(head)), hi)
                } else {
                    let head = Node { hash: h, key: k, value: v, next: hi };
                    (lo, Some(Box::new(head)))
                }
            },
        }
    }
}

} // verus!
