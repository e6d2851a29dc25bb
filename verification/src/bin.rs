//! Buckets and what they hold: nothing, a chain, a tree, or the marker
//! that their entries have moved to the next table.

use vstd::prelude::*;
use std::sync::Arc;
use crate::key::{slot_hash, Key};
use crate::node::{chain_len, chain_map, chain_wf, high_part, lookup, low_part, pointed, pointee, Node};
use crate::tree::TreeBin;

verus! {

/// The chain length from which a bin is turned into a tree.
pub const TREEIFY_THRESHOLD: usize = 8;

/// The number of entries down to which a tree is turned back into a chain.
pub const UNTREEIFY_THRESHOLD: usize = 6;

/// The smallest table capacity at which bins are turned into trees. In a
/// smaller table a crowded bin asks for a larger table instead.
pub const MIN_TREEIFY_CAPACITY: usize = 64;

/// Whether a bucket is published anew after a `put`: always but where
/// the entry was there and was to be left as it is.
pub fn stores(present: bool, only_if_absent: bool) -> (b: bool)
    ensures
        b == !(present && only_if_absent),
{
    !(present && only_if_absent)
}

/// What a bucket that is not empty holds.
pub enum NodeEnums<K: Key, V> {
    /// The head of a chain.
    Node(Box<Node<K, V>>),
    /// The entries of this bucket are in the next table.
    ForwardingNode,
    /// A tree.
    TreeBin(TreeBin<K, V>),
}

impl<K: Key, V> NodeEnums<K, V> {
    /// Whether this is the marker of a bucket whose entries have moved.
    pub fn is_moved(&self) -> (b: bool)
        ensures
            b == (*self is ForwardingNode),
    {
        match self {
            NodeEnums::ForwardingNode => true,
            _ => false,
        }
    }
}

/// One bucket of a table.
pub struct BaseNode<K: Key, V> {
    node: Option<NodeEnums<K, V>>,
}

impl<K: Key, V> BaseNode<K, V> {
    /// The entries that the bucket itself holds. A bucket whose entries
    /// have moved holds none.
    pub closed spec fn as_map(self) -> Map<K::V, V> {
        match self.node {
            None => Map::empty(),
            Some(NodeEnums::Node(chain)) => chain.as_map(),
            Some(NodeEnums::ForwardingNode) => Map::empty(),
            Some(NodeEnums::TreeBin(tree)) => tree.as_map(),
        }
    }

    /// The number of nodes in the bucket.
    pub closed spec fn len(self) -> nat {
        match self.node {
            None => 0,
            Some(NodeEnums::Node(chain)) => chain.len(),
            Some(NodeEnums::ForwardingNode) => 0,
            Some(NodeEnums::TreeBin(tree)) => tree.len(),
        }
    }

    /// Whether the bucket holds the forwarding marker.
    pub closed spec fn moved(self) -> bool {
        self.node == Some(NodeEnums::<K, V>::ForwardingNode)
    }

    /// Whether the bucket holds nothing, not even the forwarding marker.
    pub closed spec fn vacant(self) -> bool {
        self.node is None
    }

    /// Whether the bucket holds a tree.
    pub closed spec fn treeified(self) -> bool {
        self.node is Some && self.node->0 is TreeBin
    }

    /// What the bucket holds is well formed, and a tree has more entries
    /// than `UNTREEIFY_THRESHOLD`.
    pub closed spec fn wf(self) -> bool {
        match self.node {
            None => true,
            Some(NodeEnums::Node(chain)) => chain.wf(),
            Some(NodeEnums::ForwardingNode) => true,
            Some(NodeEnums::TreeBin(tree)) => tree.wf() && tree.len() > UNTREEIFY_THRESHOLD,
        }
    }

    /// A well-formed bucket holds as many entries as it has nodes; an
    /// empty or forwarded one holds none, a tree more than
    /// `UNTREEIFY_THRESHOLD`.
    pub proof fn lemma_len(self)
        requires
            self.wf(),
        ensures
            self.as_map().dom().finite(),
            self.as_map().len() == self.len(),
            self.moved() ==> self.as_map() == Map::<K::V, V>::empty(),
            self.moved() ==> !self.treeified(),
            self.treeified() ==> self.len() > UNTREEIFY_THRESHOLD,
            self.vacant() <==> !self.moved() && self.len() == 0,
    {
        match self.node {
            None => {},
            Some(NodeEnums::Node(chain)) => {
                chain.lemma_len();
            },
            Some(NodeEnums::ForwardingNode) => {},
            Some(NodeEnums::TreeBin(tree)) => {
                tree.lemma_len();
            },
        }
    }

    /// An empty bucket.
    pub fn new() -> (b: Self)
        ensures
            b.wf(),
            b.vacant(),
            !b.moved(),
            !b.treeified(),
            b.len() == 0,
            b.as_map() == Map::<K::V, V>::empty(),
    {
        BaseNode { node: None }
    }

    /// A bucket that holds the forwarding marker.
    pub fn forwarding() -> (b: Self)
        ensures
            b.wf(),
            b.moved(),
            b.as_map() == Map::<K::V, V>::empty(),
    {
        BaseNode { node: Some(NodeEnums::ForwardingNode) }
    }

    /// Whether the entries of the bucket have moved to the next table.
    pub fn is_moved(&self) -> (b: bool)
        ensures
            b == self.moved(),
    {
        match &self.node {
            None => false,
            Some(content) => content.is_moved(),
        }
    }

    /// Whether the bucket holds nothing, not even the forwarding marker.
    pub fn is_empty(&self) -> (b: bool)
        ensures
            b == self.vacant(),
    {
        self.node.is_none()
    }

    /// Whether the bucket holds a tree.
    pub fn is_tree(&self) -> (b: bool)
        ensures
            b == self.treeified(),
    {
        match &self.node {
            Some(NodeEnums::TreeBin(_)) => true,
            _ => false,
        }
    }

    /// Looks `key` up among the entries that the bucket itself holds: a
    /// chain is walked, a tree is searched in order.
    pub fn find(&self, hash: u64, key: &K) -> (r: Option<Arc<V>>)
        requires
            self.wf(),
            hash == slot_hash::<K>(key@),
        ensures
            pointee(r) == lookup(self.as_map(), key@),
    {
        match &self.node {
            None => None,
            Some(NodeEnums::Node(chain)) => chain.find(hash, key),
            Some(NodeEnums::ForwardingNode) => None,
            Some(NodeEnums::TreeBin(tree)) => tree.find(hash, key),
        }
    }

    /// Stores `value` under `key` in a bucket whose entries have not moved:
    /// in place of the value held for the key, unless `only_if_absent`, or
    /// as a new entry. A chain that reaches `TREEIFY_THRESHOLD` by the new
    /// entry becomes a tree where `capacity`, the length of the table, is
    /// at least `MIN_TREEIFY_CAPACITY`. Returns the value held before, and
    /// whether the chain reached the threshold in a table too small for
    /// trees.
    pub fn put(
        &mut self,
        hash: u64,
        key: K,
        value: Arc<V>,
        only_if_absent: bool,
        capacity: usize,
    ) -> (r: (Option<Arc<V>>, bool))
        requires
            old(self).wf(),
            !old(self).moved(),
            hash == slot_hash::<K>(key@),
        ensures
            final(self).wf(),
            !final(self).moved(),
            pointee(r.0) == lookup(old(self).as_map(), key@),
            final(self).as_map() == if only_if_absent && old(self).as_map().contains_key(key@) {
                old(self).as_map()
            } else {
                old(self).as_map().insert(key@, pointed(value))
            },
            final(self).len() == old(self).len() + if old(self).as_map().contains_key(key@) {
                0nat
            } else {
                1nat
            },
            final(self).treeified() == (old(self).treeified() || (!old(self).as_map().contains_key(key@)
                && final(self).len() >= TREEIFY_THRESHOLD && capacity >= MIN_TREEIFY_CAPACITY)),
            r.1 == (!old(self).treeified() && !old(self).as_map().contains_key(key@)
                && final(self).len() >= TREEIFY_THRESHOLD && capacity < MIN_TREEIFY_CAPACITY),
    {
        match self.node.take() {
            None => {
                let chain = Node::new(hash, key, value);
                self.node = Some(NodeEnums::Node(Box::new(chain)));
                (None, false)
            },
            Some(NodeEnums::Node(mut chain)) => {
                let prev = chain.put(hash, key, value, only_if_absent);
                if prev.is_none() && chain.reaches(TREEIFY_THRESHOLD) {
                    if capacity >= MIN_TREEIFY_CAPACITY {
                        let tree = TreeBin::from_chain(Some(chain));
                        self.node = Some(NodeEnums::TreeBin(tree));
                        (prev, false)
                    } else {
                        self.node = Some(NodeEnums::Node(chain));
                        (prev, true)
                    }
                } else {
                    self.node = Some(NodeEnums::Node(chain));
                    (prev, false)
                }
            },
            Some(NodeEnums::TreeBin(mut tree)) => {
                let prev = tree.put(hash, key, value, only_if_absent);
                self.node = Some(NodeEnums::TreeBin(tree));
                (prev, false)
            },
            Some(NodeEnums::ForwardingNode) => {
                self.node = Some(NodeEnums::ForwardingNode);
                (None, false)
            },
        }
    }

    /// Takes the entry of `key` out of the bucket and returns the value
    /// that it held. A tree that is left with `UNTREEIFY_THRESHOLD` entries
    /// or fewer becomes a chain again.
    pub fn remove(&mut self, hash: u64, key: &K) -> (prev: Option<Arc<V>>)
        requires
            old(self).wf(),
            hash == slot_hash::<K>(key@),
        ensures
            final(self).wf(),
            final(self).moved() == old(self).moved(),
            pointee(prev) == lookup(old(self).as_map(), key@),
            final(self).as_map() == old(self).as_map().remove(key@),
            final(self).len() == old(self).len() - if old(self).as_map().contains_key(key@) {
                1int
            } else {
                0int
            },
            final(self).treeified() == (old(self).treeified() && final(self).len()
                > UNTREEIFY_THRESHOLD),
    {
        match self.node.take() {
            None => {
                None
            },
            Some(NodeEnums::Node(chain)) => {
                let mut rest = Some(chain);
                let prev = Node::remove_from(&mut rest, hash, key);
                self.node = match rest {
                    None => None,
                    Some(chain) => Some(NodeEnums::Node(chain)),
                };
                prev
            },
            Some(NodeEnums::TreeBin(mut tree)) => {
                let prev = tree.remove(hash, key);
                if tree.reaches(UNTREEIFY_THRESHOLD + 1) {
                    self.node = Some(NodeEnums::TreeBin(tree));
                } else {
                    self.node = match tree.into_chain() {
                        None => None,
                        Some(chain) => Some(NodeEnums::Node(chain)),
                    };
                }
                prev
            },
            Some(NodeEnums::ForwardingNode) => {
                self.node = Some(NodeEnums::ForwardingNode);
                None
            },
        }
    }

    /// Wraps a chain that may be empty: as a tree where it has more than
    /// `UNTREEIFY_THRESHOLD` entries and `as_tree` is set, else as a chain.
    fn of_chain(chain: Option<Box<Node<K, V>>>, as_tree: bool) -> (b: Self)
        requires
            chain_wf(chain),
        ensures
            b.wf(),
            !b.moved(),
            b.as_map() == chain_map(chain),
            b.len() == chain_len(chain),
            b.treeified() == (as_tree && chain_len(chain) > UNTREEIFY_THRESHOLD),
    {
        match chain {
            None => BaseNode { node: None },
            Some(head) => {
                if as_tree && head.reaches(UNTREEIFY_THRESHOLD + 1) {
                    BaseNode { node: Some(NodeEnums::TreeBin(TreeBin::from_chain(Some(head)))) }
                } else {
                    BaseNode { node: Some(NodeEnums::Node(head)) }
                }
            },
        }
    }

    /// Parts the entries of a bucket for a table of twice the length:
    /// those whose spread hash has none of the bits of `bit` stay at the
    /// bucket's index, the others go `bit` buckets further. A part of a
    /// tree stays a tree where it has more than `UNTREEIFY_THRESHOLD`
    /// entries.
    pub fn split(self, bit: u64) -> (r: (Self, Self))
        requires
            self.wf(),
        ensures
            r.0.wf(),
            r.1.wf(),
            !r.0.moved(),
            !r.1.moved(),
            r.0.as_map() == low_part::<K, V>(self.as_map(), bit),
            r.1.as_map() == high_part::<K, V>(self.as_map(), bit),
            r.0.len() + r.1.len() == self.len(),
            r.0.treeified() == (self.treeified() && r.0.len() > UNTREEIFY_THRESHOLD),
            r.1.treeified() == (self.treeified() && r.1.len() > UNTREEIFY_THRESHOLD),
    {
        let (chain, was_tree) = match self.node {
            None => (None, false),
            Some(NodeEnums::Node(chain)) => (Some(chain), false),
            Some(NodeEnums::ForwardingNode) => (None, false),
            Some(NodeEnums::TreeBin(tree)) => (tree.into_chain(), true),
        };
        let (lo, hi) = Node::split(chain, bit);
        (Self::of_chain(lo, was_tree), Self::of_chain(hi, was_tree))
    }

    /// Copies the bucket.
    pub fn duplicate(&self) -> (r: Self)
        requires
            self.wf(),
        ensures
            r.wf(),
            r.moved() == self.moved(),
            r.treeified() == self.treeified(),
            r.as_map() == self.as_map(),
            r.len() == self.len(),
    {
        match &self.node {
            None => BaseNode { node: None },
            Some(NodeEnums::Node(chain)) => BaseNode {
                node: Some(NodeEnums::Node(Box::new(chain.duplicate()))),
            },
            Some(NodeEnums::ForwardingNode) => BaseNode { node: Some(NodeEnums::ForwardingNode) },
            Some(NodeEnums::TreeBin(tree)) => BaseNode {
                node: Some(NodeEnums::TreeBin(tree.duplicate())),
            },
        }
    }
}

} // verus!
