//! Tree bins: height-balanced search trees ordered by spread hash, then by
//! key.

use vstd::prelude::*;
use std::sync::Arc;
use crate::key::{before, compare_entries, lemma_before_is_strict_total_order, slot_hash, Key, KeyOrder};
use crate::node::{chain_len, chain_map, chain_wf, lookup, pointed, pointee, share, Node};

verus! {

/// Which subtree of a tree node is the higher one.
#[derive(Clone, Copy, Debug, PartialEq, Eq, Structural)]
pub enum Balance {
    LeftHigh,
    Even,
    RightHigh,
}

/// One entry of a tree bin with the subtrees of the entries before and
/// after it.
pub struct TreeNode<K: Key, V> {
    hash: u64,
    key: K,
    value: Arc<V>,
    balance: Balance,
    left: Option<Box<TreeNode<K, V>>>,
    right: Option<Box<TreeNode<K, V>>>,
}

/// Whether every key of `m` comes before `x`.
pub open spec fn all_before<K: Key, V>(m: Map<K::V, V>, x: K::V) -> bool {
    forall|k: K::V| #[trigger] m.contains_key(k) ==> before::<K>(k, x)
}

/// Whether every key of `m` comes after `x`.
pub open spec fn all_after<K: Key, V>(m: Map<K::V, V>, x: K::V) -> bool {
    forall|k: K::V| #[trigger] m.contains_key(k) ==> before::<K>(x, k)
}

/// Whether `b` describes subtrees of heights `hl` and `hr`.
pub open spec fn balanced(b: Balance, hl: nat, hr: nat) -> bool {
    match b {
        Balance::LeftHigh => hl == hr + 1,
        Balance::Even => hl == hr,
        Balance::RightHigh => hr == hl + 1,
    }
}

/// The entries of a subtree.
pub closed spec fn tmap<K: Key, V>(t: Option<Box<TreeNode<K, V>>>) -> Map<K::V, V>
    decreases t,
{
    match t {
        None => Map::empty(),
        Some(n) => tmap(n.left).union_prefer_right(tmap(n.right)).insert(n.key@, *n.value),
    }
}

/// The height of a subtree.
pub closed spec fn theight<K: Key, V>(t: Option<Box<TreeNode<K, V>>>) -> nat
    decreases t,
{
    match t {
        None => 0,
        Some(n) => 1 + if theight(n.left) >= theight(n.right) {
            theight(n.left)
        } else {
            theight(n.right)
        },
    }
}

/// The number of nodes of a subtree.
pub closed spec fn tsize<K: Key, V>(t: Option<Box<TreeNode<K, V>>>) -> nat
    decreases t,
{
    match t {
        None => 0,
        Some(n) => 1 + tsize(n.left) + tsize(n.right),
    }
}

/// A subtree is well formed when each node carries the spread hash of its
/// key, stands after its left subtree and before its right one, and
/// records which of the two is higher, by at most one.
pub closed spec fn twf<K: Key, V>(t: Option<Box<TreeNode<K, V>>>) -> bool
    decreases t,
{
    match t {
        None => true,
        Some(n) => {
            &&& n.hash == slot_hash::<K>(n.key@)
            &&& all_before::<K, V>(tmap(n.left), n.key@)
            &&& all_after::<K, V>(tmap(n.right), n.key@)
            &&& balanced(n.balance, theight(n.left), theight(n.right))
            &&& twf(n.left)
            &&& twf(n.right)
        },
    }
}

/// A well-formed subtree holds as many entries as it has nodes.
proof fn lemma_tsize<K: Key, V>(t: Option<Box<TreeNode<K, V>>>)
    requires
        twf(t),
    ensures
        tmap(t).dom().finite(),
        tmap(t).len() == tsize(t),
    decreases t,
{
    match t {
        None => {},
        Some(n) => {
            lemma_tsize(n.left);
            lemma_tsize(n.right);
            lemma_before_is_strict_total_order::<K>();
            let l = tmap(n.left).dom();
            let r = tmap(n.right).dom();
            assert(l.disjoint(r)) by {
                assert forall|k: K::V| l.contains(k) implies !r.contains(k) by {}
            }
            vstd::set_lib::lemma_set_disjoint_lens(l, r);
            assert(tmap(n.left).union_prefer_right(tmap(n.right)).dom() =~= l + r);
        },
    }
}

/// What the well-formedness of a node says of its parts.
proof fn lemma_parts<K: Key, V>(n: Box<TreeNode<K, V>>)
    requires
        twf(Some(n)),
    ensures
        n.hash == slot_hash::<K>(n.key@),
        twf(n.left),
        twf(n.right),
        all_before::<K, V>(tmap(n.left), n.key@),
        all_after::<K, V>(tmap(n.right), n.key@),
        balanced(n.balance, theight(n.left), theight(n.right)),
        tmap(Some(n)) == tmap(n.left).union_prefer_right(tmap(n.right)).insert(
            n.key@,
            pointed(n.value),
        ),
        tmap(Some(n)).contains_key(n.key@),
        forall|k: K::V| #[trigger] tmap(n.left).contains_key(k) ==> tmap(Some(n)).contains_key(k),
        forall|k: K::V| #[trigger]
            tmap(n.right).contains_key(k) ==> tmap(Some(n)).contains_key(k),
        forall|k: K::V| #[trigger]
            tmap(Some(n)).contains_key(k) ==> k == n.key@ || tmap(n.left).contains_key(k) || tmap(
                n.right,
            ).contains_key(k),
        theight(Some(n)) == 1 + if theight(n.left) >= theight(n.right) {
            theight(n.left)
        } else {
            theight(n.right)
        },
        tsize(Some(n)) == 1 + tsize(n.left) + tsize(n.right),
{
}

/// A well-formed subtree of height `h` has at least `2^(h/2) - 1` nodes.
proof fn lemma_theight<K: Key, V>(t: Option<Box<TreeNode<K, V>>>)
    requires
        twf(t),
    ensures
        vstd::arithmetic::power2::pow2(theight(t) / 2) <= tsize(t) + 1,
    decreases t,
{
    vstd::arithmetic::power2::lemma2_to64();
    match t {
        None => {},
        Some(n) => {
            lemma_theight(n.left);
            lemma_theight(n.right);
            let h = theight(t);
            let hl = theight(n.left);
            let hr = theight(n.right);
            if h >= 2 {
                let low = ((h - 2) / 2) as nat;
                if low < hl / 2 {
                    vstd::arithmetic::power2::lemma_pow2_strictly_increases(low, hl / 2);
                }
                if low < hr / 2 {
                    vstd::arithmetic::power2::lemma_pow2_strictly_increases(low, hr / 2);
                }
                vstd::arithmetic::power2::lemma_pow2_unfold(h / 2);
            }
        },
    }
}

/// Builds a node over two subtrees.
fn mk<K: Key, V>(
    hash: u64,
    key: K,
    value: Arc<V>,
    balance: Balance,
    left: Option<Box<TreeNode<K, V>>>,
    right: Option<Box<TreeNode<K, V>>>,
) -> (r: Box<TreeNode<K, V>>)
    requires
        twf(left),
        twf(right),
        hash == slot_hash::<K>(key@),
        all_before::<K, V>(tmap(left), key@),
        all_after::<K, V>(tmap(right), key@),
        balanced(balance, theight(left), theight(right)),
    ensures
        twf(Some(r)),
        tmap(Some(r)) == tmap(left).union_prefer_right(tmap(right)).insert(key@, *value),
        theight(Some(r)) == 1 + if theight(left) >= theight(right) {
            theight(left)
        } else {
            theight(right)
        },
        tsize(Some(r)) == 1 + tsize(left) + tsize(right),
{
    Box::new(TreeNode { hash, key, value, balance, left, right })
}

/// Restores the balance of a node whose left subtree is two higher than
/// its right one. Returns the new subtree and whether it is lower than the
/// node was.
fn fix_left<K: Key, V>(
    hash: u64,
    key: K,
    value: Arc<V>,
    left: Box<TreeNode<K, V>>,
    right: Option<Box<TreeNode<K, V>>>,
) -> (r: (Box<TreeNode<K, V>>, bool))
    requires
        twf(Some(left)),
        twf(right),
        hash == slot_hash::<K>(key@),
        all_before::<K, V>(tmap(Some(left)), key@),
        all_after::<K, V>(tmap(right), key@),
        theight(Some(left)) == theight(right) + 2,
    ensures
        twf(Some(r.0)),
        tmap(Some(r.0)) == tmap(Some(left)).union_prefer_right(tmap(right)).insert(key@, *value),
        theight(Some(r.0)) == theight(right) + if r.1 {
            2nat
        } else {
            3nat
        },
        tsize(Some(r.0)) == 1 + tsize(Some(left)) + tsize(right),
        !r.1 ==> left.balance == Balance::Even,
{
    proof {
        lemma_before_is_strict_total_order::<K>();
        lemma_parts(left);
    }
    let ghost whole = tmap(Some(left)).union_prefer_right(tmap(right)).insert(key@, pointed(value));
    let TreeNode { hash: lh, key: lk, value: lv, balance: lb, left: ll, right: lr } = *left;
    match lb {
        Balance::LeftHigh => {
            let n = mk(hash, key, value, Balance::Even, lr, right);
            let top = mk(lh, lk, lv, Balance::Even, ll, Some(n));
            (top, true)
        },
        Balance::Even => {
            let n = mk(hash, key, value, Balance::LeftHigh, lr, right);
            let top = mk(lh, lk, lv, Balance::RightHigh, ll, Some(n));
            (top, false)
        },
        Balance::RightHigh => {
            let g = lr.unwrap();
            proof {
                lemma_parts(g);
            }
            let TreeNode { hash: gh, key: gk, value: gv, balance: gb, left: gl, right: gr } = *g;
            let (b1, b2) = match gb {
                Balance::LeftHigh => (Balance::Even, Balance::RightHigh),
                Balance::Even => (Balance::Even, Balance::Even),
                Balance::RightHigh => (Balance::LeftHigh, Balance::Even),
            };
            let c = mk(lh, lk, lv, b1, ll, gl);
            let n = mk(hash, key, value, b2, gr, right);
            let top = mk(gh, gk, gv, Balance::Even, Some(c), Some(n));
            (top, true)
        },
    }
}

/// Restores the balance of a node whose right subtree is two higher than
/// its left one. Returns the new subtree and whether it is lower than the
/// node was.
fn fix_right<K: Key, V>(
    hash: u64,
    key: K,
    value: Arc<V>,
    left: Option<Box<TreeNode<K, V>>>,
    right: Box<TreeNode<K, V>>,
) -> (r: (Box<TreeNode<K, V>>, bool))
    requires
        twf(left),
        twf(Some(right)),
        hash == slot_hash::<K>(key@),
        all_before::<K, V>(tmap(left), key@),
        all_after::<K, V>(tmap(Some(right)), key@),
        theight(Some(right)) == theight(left) + 2,
    ensures
        twf(Some(r.0)),
        tmap(Some(r.0)) == tmap(left).union_prefer_right(tmap(Some(right))).insert(key@, *value),
        theight(Some(r.0)) == theight(left) + if r.1 {
            2nat
        } else {
            3nat
        },
        tsize(Some(r.0)) == 1 + tsize(left) + tsize(Some(right)),
        !r.1 ==> right.balance == Balance::Even,
{
    proof {
        lemma_before_is_strict_total_order::<K>();
        lemma_parts(right);
    }
    let ghost whole = tmap(left).union_prefer_right(tmap(Some(right))).insert(key@, pointed(value));
    let TreeNode { hash: rh, key: rk, value: rv, balance: rb, left: rl, right: rr } = *right;
    match rb {
        Balance::RightHigh => {
            let n = mk(hash, key, value, Balance::Even, left, rl);
            let top = mk(rh, rk, rv, Balance::Even, Some(n), rr);
            (top, true)
        },
        Balance::Even => {
            let n = mk(hash, key, value, Balance::RightHigh, left, rl);
            let top = mk(rh, rk, rv, Balance::LeftHigh, Some(n), rr);
            (top, false)
        },
        Balance::LeftHigh => {
            let g = rl.unwrap();
            proof {
                lemma_parts(g);
            }
            let TreeNode { hash: gh, key: gk, value: gv, balance: gb, left: gl, right: gr } = *g;
            let (b1, b2) = match gb {
                Balance::LeftHigh => (Balance::Even, Balance::RightHigh),
                Balance::Even => (Balance::Even, Balance::Even),
                Balance::RightHigh => (Balance::LeftHigh, Balance::Even),
            };
            let n = mk(hash, key, value, b1, left, gl);
            let c = mk(rh, rk, rv, b2, gr, rr);
            let top = mk(gh, gk, gv, Balance::Even, Some(n), Some(c));
            (top, true)
        },
    }
}

/// Joins a node to its subtrees after an insertion into the left one.
/// `grew` says whether the left subtree is higher than it was; the result
/// says the same of the whole.
fn after_left_grew<K: Key, V>(
    hash: u64,
    key: K,
    value: Arc<V>,
    balance: Balance,
    left: Box<TreeNode<K, V>>,
    right: Option<Box<TreeNode<K, V>>>,
    grew: bool,
) -> (r: (Box<TreeNode<K, V>>, bool))
    requires
        twf(Some(left)),
        twf(right),
        hash == slot_hash::<K>(key@),
        all_before::<K, V>(tmap(Some(left)), key@),
        all_after::<K, V>(tmap(right), key@),
        grew ==> theight(Some(left)) >= 1,
        balanced(
            balance,
            (theight(Some(left)) - if grew {
                1int
            } else {
                0int
            }) as nat,
            theight(right),
        ),
    ensures
        twf(Some(r.0)),
        tmap(Some(r.0)) == tmap(Some(left)).union_prefer_right(tmap(right)).insert(
            key@,
            pointed(value),
        ),
        tsize(Some(r.0)) == 1 + tsize(Some(left)) + tsize(right),
        theight(Some(r.0)) - if r.1 {
            1int
        } else {
            0int
        } == 1 + if theight(Some(left)) - if grew {
            1int
        } else {
            0int
        } >= theight(right) {
            theight(Some(left)) - if grew {
                1int
            } else {
                0int
            }
        } else {
            theight(right) as int
        },
{
    if !grew {
        (mk(hash, key, value, balance, Some(left), right), false)
    } else {
        match balance {
            Balance::RightHigh => (mk(hash, key, value, Balance::Even, Some(left), right), false),
            Balance::Even => (mk(hash, key, value, Balance::LeftHigh, Some(left), right), true),
            Balance::LeftHigh => {
                let (top, lowered) = fix_left(hash, key, value, left, right);
                (top, !lowered)
            },
        }
    }
}

/// Joins a node to its subtrees after an insertion into the right one.
fn after_right_grew<K: Key, V>(
    hash: u64,
    key: K,
    value: Arc<V>,
    balance: Balance,
    left: Option<Box<TreeNode<K, V>>>,
    right: Box<TreeNode<K, V>>,
    grew: bool,
) -> (r: (Box<TreeNode<K, V>>, bool))
    requires
        twf(left),
        twf(Some(right)),
        hash == slot_hash::<K>(key@),
        all_before::<K, V>(tmap(left), key@),
        all_after::<K, V>(tmap(Some(right)), key@),
        grew ==> theight(Some(right)) >= 1,
        balanced(
            balance,
            theight(left),
            (theight(Some(right)) - if grew {
                1int
            } else {
                0int
            }) as nat,
        ),
    ensures
        twf(Some(r.0)),
        tmap(Some(r.0)) == tmap(left).union_prefer_right(tmap(Some(right))).insert(
            key@,
            pointed(value),
        ),
        tsize(Some(r.0)) == 1 + tsize(left) + tsize(Some(right)),
        theight(Some(r.0)) - if r.1 {
            1int
        } else {
            0int
        } == 1 + if theight(left) >= theight(Some(right)) - if grew {
            1int
        } else {
            0int
        } {
            theight(left) as int
        } else {
            theight(Some(right)) - if grew {
                1int
            } else {
                0int
            }
        },
{
    if !grew {
        (mk(hash, key, value, balance, left, Some(right)), false)
    } else {
        match balance {
            Balance::LeftHigh => (mk(hash, key, value, Balance::Even, left, Some(right)), false),
            Balance::Even => (mk(hash, key, value, Balance::RightHigh, left, Some(right)), true),
            Balance::RightHigh => {
                let (top, lowered) = fix_right(hash, key, value, left, right);
                (top, !lowered)
            },
        }
    }
}

/// Joins a node to its subtrees after a removal from the left one.
/// `shrank` says whether the left subtree is lower than it was; the result
/// says the same of the whole.
fn after_left_shrank<K: Key, V>(
    hash: u64,
    key: K,
    value: Arc<V>,
    balance: Balance,
    left: Option<Box<TreeNode<K, V>>>,
    right: Option<Box<TreeNode<K, V>>>,
    shrank: bool,
) -> (r: (Box<TreeNode<K, V>>, bool))
    requires
        twf(left),
        twf(right),
        hash == slot_hash::<K>(key@),
        all_before::<K, V>(tmap(left), key@),
        all_after::<K, V>(tmap(right), key@),
        balanced(
            balance,
            theight(left) + if shrank {
                1nat
            } else {
                0nat
            },
            theight(right),
        ),
    ensures
        twf(Some(r.0)),
        tmap(Some(r.0)) == tmap(left).union_prefer_right(tmap(right)).insert(key@, pointed(value)),
        tsize(Some(r.0)) == 1 + tsize(left) + tsize(right),
        theight(Some(r.0)) + if r.1 {
            1nat
        } else {
            0nat
        } == 1 + if theight(left) + if shrank {
            1nat
        } else {
            0nat
        } >= theight(right) {
            theight(left) + if shrank {
                1nat
            } else {
                0nat
            }
        } else {
            theight(right)
        },
{
    if !shrank {
        (mk(hash, key, value, balance, left, right), false)
    } else {
        match balance {
            Balance::LeftHigh => (mk(hash, key, value, Balance::Even, left, right), true),
            Balance::Even => (mk(hash, key, value, Balance::RightHigh, left, right), false),
            Balance::RightHigh => {
                fix_right(hash, key, value, left, right.unwrap())
            },
        }
    }
}

/// Joins a node to its subtrees after a removal from the right one.
fn after_right_shrank<K: Key, V>(
    hash: u64,
    key: K,
    value: Arc<V>,
    balance: Balance,
    left: Option<Box<TreeNode<K, V>>>,
    right: Option<Box<TreeNode<K, V>>>,
    shrank: bool,
) -> (r: (Box<TreeNode<K, V>>, bool))
    requires
        twf(left),
        twf(right),
        hash == slot_hash::<K>(key@),
        all_before::<K, V>(tmap(left), key@),
        all_after::<K, V>(tmap(right), key@),
        balanced(
            balance,
            theight(left),
            theight(right) + if shrank {
                1nat
            } else {
                0nat
            },
        ),
    ensures
        twf(Some(r.0)),
        tmap(Some(r.0)) == tmap(left).union_prefer_right(tmap(right)).insert(key@, pointed(value)),
        tsize(Some(r.0)) == 1 + tsize(left) + tsize(right),
        theight(Some(r.0)) + if r.1 {
            1nat
        } else {
            0nat
        } == 1 + if theight(left) >= theight(right) + if shrank {
            1nat
        } else {
            0nat
        } {
            theight(left)
        } else {
            theight(right) + if shrank {
                1nat
            } else {
                0nat
            }
        },
{
    if !shrank {
        (mk(hash, key, value, balance, left, right), false)
    } else {
        match balance {
            Balance::RightHigh => (mk(hash, key, value, Balance::Even, left, right), true),
            Balance::Even => (mk(hash, key, value, Balance::LeftHigh, left, right), false),
            Balance::LeftHigh => {
                fix_left(hash, key, value, left.unwrap(), right)
            },
        }
    }
}

/// Stores `value` under `key` in a subtree. Returns the new subtree, the
/// value that the subtree held for the key, and whether the subtree grew
/// higher.
fn put<K: Key, V>(
    t: Option<Box<TreeNode<K, V>>>,
    hash: u64,
    key: K,
    value: Arc<V>,
    only_if_absent: bool,
) -> (r: (Box<TreeNode<K, V>>, Option<Arc<V>>, bool))
    requires
        twf(t),
        hash == slot_hash::<K>(key@),
    ensures
        twf(Some(r.0)),
        pointee(r.1) == lookup(tmap(t), key@),
        tmap(Some(r.0)) == if only_if_absent && tmap(t).contains_key(key@) {
            tmap(t)
        } else {
            tmap(t).insert(key@, pointed(value))
        },
        theight(Some(r.0)) == theight(t) + if r.2 {
            1nat
        } else {
            0nat
        },
        tsize(Some(r.0)) == tsize(t) + if tmap(t).contains_key(key@) {
            0nat
        } else {
            1nat
        },
    decreases t,
{
    proof {
        lemma_before_is_strict_total_order::<K>();
    }
    let ghost goal = if only_if_absent && tmap(t).contains_key(key@) {
        tmap(t)
    } else {
        tmap(t).insert(key@, pointed(value))
    };
    match t {
        None => {
            let leaf = mk(hash, key, value, Balance::Even, None, None);
            (leaf, None, true)
        },
        Some(node) => {
            proof {
                lemma_parts(node);
            }
            let TreeNode { hash: h, key: k, value: v, balance, left, right } = *node;
            match compare_entries(hash, &key, h, &k) {
                KeyOrder::Equal => {
                    if only_if_absent {
                        let prev = share(&v);
                        let same = mk(h, k, v, balance, left, right);
                        (same, Some(prev), false)
                    } else {
                        let fresh = mk(h, k, value, balance, left, right);
                        (fresh, Some(v), false)
                    }
                },
                KeyOrder::Less => {
                    let (new_left, prev, grew) = put(left, hash, key, value, only_if_absent);
                    let (top, higher) = after_left_grew(h, k, v, balance, new_left, right, grew);
                    (top, prev, higher)
                },
                KeyOrder::Greater => {
                    let (new_right, prev, grew) = put(right, hash, key, value, only_if_absent);
                    let (top, higher) = after_right_grew(h, k, v, balance, left, new_right, grew);
                    (top, prev, higher)
                },
            }
        },
    }
}

/// Takes the first entry out of a subtree. Returns what is left, the
/// entry, and whether the subtree became lower.
fn take_min<K: Key, V>(node: Box<TreeNode<K, V>>) -> (r: (
    Option<Box<TreeNode<K, V>>>,
    u64,
    K,
    Arc<V>,
    bool,
))
    requires
        twf(Some(node)),
    ensures
        twf(r.0),
        r.1 == slot_hash::<K>(r.2@),
        tmap(Some(node)).contains_key(r.2@),
        tmap(Some(node))[r.2@] == pointed(r.3),
        tmap(r.0) == tmap(Some(node)).remove(r.2@),
        all_after::<K, V>(tmap(r.0), r.2@),
        theight(Some(node)) == theight(r.0) + if r.4 {
            1nat
        } else {
            0nat
        },
        tsize(Some(node)) == tsize(r.0) + 1,
    decreases node,
{
    proof {
        lemma_before_is_strict_total_order::<K>();
        lemma_parts(node);
    }
    let TreeNode { hash: h, key: k, value: v, balance, left, right } = *node;
    match left {
        None => {
            (right, h, k, v, true)
        },
        Some(l) => {
            let (new_left, mh, mk_, mv, shrank) = take_min(l);
            let (top, lowered) = after_left_shrank(h, k, v, balance, new_left, right, shrank);
            (Some(top), mh, mk_, mv, lowered)
        },
    }
}

/// Takes the entry of `key` out of a subtree. Returns what is left, the
/// value that the entry held, and whether the subtree became lower.
fn remove<K: Key, V>(t: Option<Box<TreeNode<K, V>>>, hash: u64, key: &K) -> (r: (
    Option<Box<TreeNode<K, V>>>,
    Option<Arc<V>>,
    bool,
))
    requires
        twf(t),
        hash == slot_hash::<K>(key@),
    ensures
        twf(r.0),
        pointee(r.1) == lookup(tmap(t), key@),
        tmap(r.0) == tmap(t).remove(key@),
        theight(t) == theight(r.0) + if r.2 {
            1nat
        } else {
            0nat
        },
        tsize(t) == tsize(r.0) + if tmap(t).contains_key(key@) {
            1nat
        } else {
            0nat
        },
    decreases t,
{
    proof {
        lemma_before_is_strict_total_order::<K>();
    }
    match t {
        None => {
            (None, None, false)
        },
        Some(node) => {
            proof {
                lemma_parts(node);
            }
            let TreeNode { hash: h, key: k, value: v, balance, left, right } = *node;
            match compare_entries(hash, key, h, &k) {
                KeyOrder::Less => {
                    let (new_left, prev, shrank) = remove(left, hash, key);
                    let (top, lowered) = after_left_shrank(
                        h,
                        k,
                        v,
                        balance,
                        new_left,
                        right,
                        shrank,
                    );
                    (Some(top), prev, lowered)
                },
                KeyOrder::Greater => {
                    let (new_right, prev, shrank) = remove(right, hash, key);
                    let (top, lowered) = after_right_shrank(
                        h,
                        k,
                        v,
                        balance,
                        left,
                        new_right,
                        shrank,
                    );
                    (Some(top), prev, lowered)
                },
                KeyOrder::Equal => {
                    match right {
                        None => {
                            (left, Some(v), true)
                        },
                        Some(r) => {
                            proof {
                                lemma_parts(r);
                            }
                            let (new_right, mh, mk_, mv, shrank) = take_min(r);
                            let (top, lowered) = after_right_shrank(
                                mh,
                                mk_,
                                mv,
                                balance,
                                left,
                                new_right,
                                shrank,
                            );
                            (Some(top), Some(v), lowered)
                        },
                    }
                },
            }
        },
    }
}

/// Puts the entries of a subtree in front of a chain that holds none of
/// their keys.
fn flatten<K: Key, V>(t: Option<Box<TreeNode<K, V>>>, acc: Option<Box<Node<K, V>>>) -> (r: Option<
    Box<Node<K, V>>,
>)
    requires
        twf(t),
        chain_wf(acc),
        forall|k: K::V| #[trigger] tmap(t).contains_key(k) ==> !chain_map(acc).contains_key(k),
    ensures
        chain_wf(r),
        chain_map(r) == chain_map(acc).union_prefer_right(tmap(t)),
        chain_len(r) == chain_len(acc) + tsize(t),
    decreases t,
{
    proof {
        lemma_before_is_strict_total_order::<K>();
    }
    match t {
        None => {
            acc
        },
        Some(node) => {
            proof {
                lemma_parts(node);
            }
            let TreeNode { hash: h, key: k, value: v, balance: _, left, right } = *node;
            let tail = flatten(right, acc);
            let head = Node::push_front(tail, h, k, v);
            let r = flatten(left, Some(Box::new(head)));
            r
        },
    }
}

/// Builds a subtree of the entries of a chain.
fn grow<K: Key, V>(chain: Option<Box<Node<K, V>>>) -> (r: Option<Box<TreeNode<K, V>>>)
    requires
        chain_wf(chain),
    ensures
        twf(r),
        tmap(r) == chain_map(chain),
        tsize(r) == chain_len(chain),
    decreases chain_len(chain),
{
    match chain {
        None => {
            None
        },
        Some(node) => {
            let (h, k, v, rest) = node.pop_front();
            let t = grow(rest);
            let (top, _, _) = put(t, h, k, v, false);
            Some(top)
        },
    }
}

/// The number of nodes of a subtree, counted up to `limit`.
fn count_up_to<K: Key, V>(t: &Option<Box<TreeNode<K, V>>>, limit: usize) -> (c: usize)
    ensures
        c == if tsize(*t) <= limit {
            tsize(*t)
        } else {
            limit as nat
        },
    decreases *t,
{
    if limit == 0 {
        return 0;
    }
    match t {
        None => 0,
        Some(node) => {
            let l = count_up_to(&node.left, limit - 1);
            let r = count_up_to(&node.right, limit - 1 - l);
            1 + l + r
        },
    }
}

/// Copies a subtree.
fn copy<K: Key, V>(t: &Option<Box<TreeNode<K, V>>>) -> (r: Option<Box<TreeNode<K, V>>>)
    requires
        twf(*t),
    ensures
        twf(r),
        tmap(r) == tmap(*t),
        theight(r) == theight(*t),
        tsize(r) == tsize(*t),
    decreases *t,
{
    match t {
        None => None,
        Some(node) => {
            proof {
                lemma_parts(*node);
            }
            let left = copy(&node.left);
            let right = copy(&node.right);
            Some(
                mk(
                    node.hash,
                    node.key.duplicate(),
                    share(&node.value),
                    node.balance,
                    left,
                    right,
                ),
            )
        },
    }
}

/// A bin whose entries stand in a balanced search tree.
pub struct TreeBin<K: Key, V> {
    root: Option<Box<TreeNode<K, V>>>,
}

impl<K: Key, V> TreeBin<K, V> {
    /// The entries of the tree.
    pub closed spec fn as_map(self) -> Map<K::V, V> {
        tmap(self.root)
    }

    /// The number of nodes of the tree.
    pub closed spec fn len(self) -> nat {
        tsize(self.root)
    }

    /// The number of nodes on the longest way down from the root.
    pub closed spec fn height(self) -> nat {
        theight(self.root)
    }

    /// The tree is an ordered, balanced search tree.
    pub closed spec fn wf(self) -> bool {
        twf(self.root)
    }

    /// A well-formed tree holds as many entries as it has nodes.
    pub proof fn lemma_len(self)
        requires
            self.wf(),
        ensures
            self.as_map().dom().finite(),
            self.as_map().len() == self.len(),
    {
        lemma_tsize(self.root);
    }

    /// The tree is balanced: one of height `h` holds at least `2^(h/2) - 1`
    /// entries.
    pub proof fn lemma_balanced(self)
        requires
            self.wf(),
        ensures
            vstd::arithmetic::power2::pow2(self.height() / 2) <= self.len() + 1,
    {
        lemma_theight(self.root);
    }

    /// Builds the tree of the entries of a chain.
    pub fn from_chain(chain: Option<Box<Node<K, V>>>) -> (tree: Self)
        requires
            chain_wf(chain),
        ensures
            tree.wf(),
            tree.as_map() == chain_map(chain),
            tree.len() == chain_len(chain),
    {
        TreeBin { root: grow(chain) }
    }

    /// Lays the entries of the tree out as a chain.
    pub fn into_chain(self) -> (chain: Option<Box<Node<K, V>>>)
        requires
            self.wf(),
        ensures
            chain_wf(chain),
            chain_map(chain) == self.as_map(),
            chain_len(chain) == self.len(),
    {
        let chain = flatten(self.root, None);
        chain
    }

    /// Looks `key` up by an ordered search from the root.
    pub fn find(&self, hash: u64, key: &K) -> (r: Option<Arc<V>>)
        requires
            self.wf(),
            hash == slot_hash::<K>(key@),
        ensures
            pointee(r) == lookup(self.as_map(), key@),
    {
        proof {
            lemma_before_is_strict_total_order::<K>();
        }
        let mut cur = &self.root;
        loop
            invariant
                twf(*cur),
                hash == slot_hash::<K>(key@),
                lookup(tmap(*cur), key@) == lookup(tmap(self.root), key@),
            decreases *cur,
        {
            match cur {
                None => {
                    return None;
                },
                Some(node) => {
                    proof {
                        lemma_before_is_strict_total_order::<K>();
                        lemma_parts(*node);
                    }
                    match compare_entries(hash, key, node.hash, &node.key) {
                        KeyOrder::Equal => {
                            return Some(share(&node.value));
                        },
                        KeyOrder::Less => {
                            cur = &node.left;
                        },
                        KeyOrder::Greater => {
                            cur = &node.right;
                        },
                    }
                },
            }
        }
    }

    /// Stores `value` under `key`: in place of the value that the tree
    /// holds for it, unless `only_if_absent`, or in a new node. Returns the
    /// value that the tree held.
    pub fn put(&mut self, hash: u64, key: K, value: Arc<V>, only_if_absent: bool) -> (prev: Option<
        Arc<V>,
    >)
        requires
            old(self).wf(),
            hash == slot_hash::<K>(key@),
        ensures
            final(self).wf(),
            pointee(prev) == lookup(old(self).as_map(), key@),
            final(self).as_map() == if only_if_absent && old(self).as_map().contains_key(key@) {
                old(self).as_map()
            } else {
                old(self).as_map().insert(key@, pointed(value))
            },
            final(self).len() == old(self).len() + if old(self).as_map().contains_key(key@) {
                0nat
            } else {
                1nat
            },
    {
        let (top, prev, _) = put(self.root.take(), hash, key, value, only_if_absent);
        self.root = Some(top);
        prev
    }

    /// Takes the entry of `key` out of the tree and returns the value that
    /// it held.
    pub fn remove(&mut self, hash: u64, key: &K) -> (prev: Option<Arc<V>>)
        requires
            old(self).wf(),
            hash == slot_hash::<K>(key@),
        ensures
            final(self).wf(),
            pointee(prev) == lookup(old(self).as_map(), key@),
            final(self).as_map() == old(self).as_map().remove(key@),
            final(self).len() == old(self).len() - if old(self).as_map().contains_key(key@) {
                1int
            } else {
                0int
            },
    {
        let (rest, prev, _) = remove(self.root.take(), hash, key);
        self.root = rest;
        prev
    }

    /// Whether the tree has at least `limit` nodes.
    pub fn reaches(&self, limit: usize) -> (b: bool)
        ensures
            b == (self.len() >= limit),
    {
        count_up_to(&self.root, limit) >= limit
    }

    /// Copies the tree.
    pub fn duplicate(&self) -> (r: Self)
        requires
            self.wf(),
        ensures
            r.wf(),
            r.as_map() == self.as_map(),
            r.len() == self.len(),
            r.height() == self.height(),
    {
        TreeBin { root: copy(&self.root) }
    }
}

} // verus!
