use std::sync::Arc;

use concurrent_hash_map::bin::{
    stores, BaseNode, NodeEnums, MIN_TREEIFY_CAPACITY, TREEIFY_THRESHOLD, UNTREEIFY_THRESHOLD,
};
use concurrent_hash_map::key::{compare_entries, Key, KeyOrder};
use concurrent_hash_map::node::Node;
use concurrent_hash_map::sizing::spread;
use concurrent_hash_map::text::{compare_bytes, hash_bytes};
use concurrent_hash_map::tree::TreeBin;

fn hash_of(key: u64) -> u64 {
    spread(key.hash_code())
}

fn chain_of(keys: &[u64]) -> Node<u64, u64> {
    let mut chain = Node::new(hash_of(keys[0]), keys[0], Arc::new(keys[0] * 10));
    for k in &keys[1..] {
        assert!(chain.put(hash_of(*k), *k, Arc::new(*k * 10), false).is_none());
    }
    chain
}

fn next_random(state: &mut u64) -> u64 {
    *state = state.wrapping_mul(6364136223846793005).wrapping_add(1442695040888963407);
    *state >> 33
}

#[test]
fn find_hands_out_the_stored_value_itself() {
    let stored = Arc::new(String::from("value"));
    let chain: Node<u64, String> = Node::new(hash_of(1), 1, Arc::clone(&stored));
    let found = chain.find(hash_of(1), &1).unwrap();
    assert!(Arc::ptr_eq(&stored, &found));
    assert_eq!(Arc::strong_count(&stored), 3);
    let copy = chain.duplicate();
    assert!(Arc::ptr_eq(&stored, &copy.find(hash_of(1), &1).unwrap()));
    assert_eq!(Arc::strong_count(&stored), 4);
}

#[test]
fn integer_keys_hash_to_themselves_and_order_by_value() {
    assert_eq!(5u64.hash_code(), 5);
    assert_eq!(3u64.compare(&4), KeyOrder::Less);
    assert_eq!(4u64.compare(&4), KeyOrder::Equal);
    assert_eq!(5u64.compare(&4), KeyOrder::Greater);
    assert_eq!(7u64.duplicate(), 7);
}

#[test]
fn string_keys_hash_and_order_by_their_bytes() {
    assert_eq!(hash_bytes(b""), 0);
    assert_eq!(hash_bytes(b"a"), 97);
    assert_eq!(hash_bytes(b"ab"), 97 * 31 + 98);
    assert_eq!(String::from("ab").hash_code(), 3105);
    assert_eq!(String::from("hello").hash_code(), 99162322);
    assert_eq!(compare_bytes(b"", b""), KeyOrder::Equal);
    assert_eq!(compare_bytes(b"", b"a"), KeyOrder::Less);
    assert_eq!(compare_bytes(b"a", b""), KeyOrder::Greater);
    assert_eq!(compare_bytes(b"abc", b"abd"), KeyOrder::Less);
    assert_eq!(compare_bytes(b"abc", b"abc"), KeyOrder::Equal);
    assert_eq!(compare_bytes(b"abd", b"abc"), KeyOrder::Greater);
    assert_eq!(compare_bytes(b"ab", b"abc"), KeyOrder::Less);
    assert_eq!(String::from("b").compare(&String::from("a")), KeyOrder::Greater);
    assert_eq!(String::from("a").compare(&String::from("a")), KeyOrder::Equal);
    assert_eq!(String::from("\u{e9}").compare(&String::from("z")), KeyOrder::Greater);
    assert_eq!(String::from("key").duplicate(), "key");
}

#[test]
fn string_hash_wraps_around() {
    let long = "z".repeat(40);
    let mut expected: u64 = 0;
    for b in long.bytes() {
        expected = expected.wrapping_mul(31).wrapping_add(b as u64);
    }
    assert_eq!(long.hash_code(), expected);
}

#[test]
fn entries_order_by_hash_before_key() {
    let a: u64 = 5;
    let b: u64 = 6;
    assert_eq!(compare_entries(hash_of(a), &a, hash_of(b), &b), KeyOrder::Less);
    assert_eq!(compare_entries(hash_of(b), &b, hash_of(a), &a), KeyOrder::Greater);
    assert_eq!(compare_entries(hash_of(a), &a, hash_of(a), &a), KeyOrder::Equal);
    // the larger key has the smaller hash
    let c: u64 = 0x0000_0002_0000_0002;
    let d: u64 = 0x0000_0002_0000_0000;
    assert_eq!(hash_of(c), 0x0000_0002_0000_0000);
    assert_eq!(hash_of(d), 0x0000_0002_0000_0002);
    assert_eq!(compare_entries(hash_of(c), &c, hash_of(d), &d), KeyOrder::Less);
    assert_eq!(compare_entries(hash_of(d), &d, hash_of(c), &c), KeyOrder::Greater);
}

#[test]
fn chain_finds_what_was_put() {
    let chain = chain_of(&[1, 2, 3, 4]);
    for k in 1u64..=4 {
        assert_eq!(chain.find(hash_of(k), &k).map(|v| *v), Some(k * 10));
    }
    assert_eq!(chain.find(hash_of(5), &5), None);
}

#[test]
fn chain_put_replaces_or_keeps() {
    let mut chain = chain_of(&[1, 2, 3]);
    assert_eq!(chain.put(hash_of(2), 2, Arc::new(99), true).map(|v| *v), Some(20));
    assert_eq!(chain.find(hash_of(2), &2).map(|v| *v), Some(20));
    assert_eq!(chain.put(hash_of(2), 2, Arc::new(99), false).map(|v| *v), Some(20));
    assert_eq!(chain.find(hash_of(2), &2).map(|v| *v), Some(99));
    assert_eq!(chain.put(hash_of(7), 7, Arc::new(70), true), None);
    assert_eq!(chain.find(hash_of(7), &7).map(|v| *v), Some(70));
}

#[test]
fn chain_reaches_its_length_and_no_more() {
    let chain = chain_of(&[1, 2, 3]);
    assert!(chain.reaches(0));
    assert!(chain.reaches(1));
    assert!(chain.reaches(3));
    assert!(!chain.reaches(4));
    assert!(!chain.reaches(usize::MAX));
}

#[test]
fn chain_remove_takes_one_entry_out() {
    let mut chain = Some(Box::new(chain_of(&[1, 2, 3])));
    assert_eq!(Node::remove_from(&mut chain, hash_of(9), &9), None);
    assert_eq!(Node::remove_from(&mut chain, hash_of(2), &2).map(|v| *v), Some(20));
    assert_eq!(Node::remove_from(&mut chain, hash_of(2), &2), None);
    let rest = chain.as_ref().unwrap();
    assert!(rest.reaches(2) && !rest.reaches(3));
    assert_eq!(rest.find(hash_of(1), &1).map(|v| *v), Some(10));
    assert_eq!(rest.find(hash_of(3), &3).map(|v| *v), Some(30));
    assert_eq!(Node::remove_from(&mut chain, hash_of(1), &1).map(|v| *v), Some(10));
    assert_eq!(Node::remove_from(&mut chain, hash_of(3), &3).map(|v| *v), Some(30));
    assert!(chain.is_none());
    assert_eq!(Node::remove_from(&mut chain, hash_of(3), &3), None);
}

#[test]
fn chain_front_operations() {
    let chain = chain_of(&[1, 2]);
    let (h, k, v, rest) = chain.pop_front();
    assert_eq!((h, k, *v), (hash_of(1), 1, 10));
    let again = Node::push_front(rest, hash_of(8), 8, Arc::new(80));
    assert_eq!(again.find(hash_of(8), &8).map(|v| *v), Some(80));
    assert_eq!(again.find(hash_of(2), &2).map(|v| *v), Some(20));
    assert_eq!(again.find(hash_of(1), &1), None);
}

#[test]
fn chain_split_parts_by_the_hash_bit() {
    let keys: Vec<u64> = (0..20).collect();
    let chain = Some(Box::new(chain_of(&keys)));
    let (lo, hi) = Node::split(chain, 4);
    let lo = lo.unwrap();
    let hi = hi.unwrap();
    for k in 0u64..20 {
        let h = hash_of(k);
        if h & 4 == 0 {
            assert_eq!(lo.find(h, &k).map(|v| *v), Some(k * 10));
            assert_eq!(hi.find(h, &k), None);
        } else {
            assert_eq!(hi.find(h, &k).map(|v| *v), Some(k * 10));
            assert_eq!(lo.find(h, &k), None);
        }
    }
    assert!(lo.reaches(12) && !lo.reaches(13));
    assert!(hi.reaches(8) && !hi.reaches(9));
    let (none_lo, none_hi) = Node::<u64, u64>::split(None, 4);
    assert!(none_lo.is_none() && none_hi.is_none());
}

#[test]
fn chain_duplicate_shares_nothing_but_the_values() {
    let mut chain = chain_of(&[1, 2, 3]);
    let copy = chain.duplicate();
    chain.put(hash_of(2), 2, Arc::new(0), false);
    assert_eq!(copy.find(hash_of(2), &2).map(|v| *v), Some(20));
    assert_eq!(chain.find(hash_of(2), &2).map(|v| *v), Some(0));
    assert!(copy.reaches(3) && !copy.reaches(4));
}

#[test]
fn tree_holds_what_the_chain_held() {
    let keys: Vec<u64> = (0..50).map(|k| k * 7919).collect();
    let tree = TreeBin::from_chain(Some(Box::new(chain_of(&keys))));
    assert!(tree.reaches(50) && !tree.reaches(51));
    for k in &keys {
        assert_eq!(tree.find(hash_of(*k), k).map(|v| *v), Some(*k * 10));
    }
    assert_eq!(tree.find(hash_of(1), &1), None);
    let chain = tree.into_chain().unwrap();
    assert!(chain.reaches(50) && !chain.reaches(51));
    for k in &keys {
        assert_eq!(chain.find(hash_of(*k), k).map(|v| *v), Some(*k * 10));
    }
}

#[test]
fn tree_of_an_empty_chain_is_empty() {
    let tree: TreeBin<u64, u64> = TreeBin::from_chain(None);
    assert!(tree.reaches(0));
    assert!(!tree.reaches(1));
    assert_eq!(tree.find(hash_of(3), &3), None);
    assert!(tree.into_chain().is_none());
}

#[test]
fn tree_put_and_remove_agree_with_a_plain_map() {
    let mut tree: TreeBin<u64, u64> = TreeBin::from_chain(None);
    let mut model: std::collections::BTreeMap<u64, u64> = std::collections::BTreeMap::new();
    let mut state: u64 = 42;
    for round in 0..4000u64 {
        let k = next_random(&mut state) % 300;
        let op = next_random(&mut state) % 4;
        if op == 0 {
            let got = tree.remove(hash_of(k), &k).map(|v| *v);
            assert_eq!(got, model.remove(&k));
        } else if op == 1 {
            let got = tree.put(hash_of(k), k, Arc::new(round), true).map(|v| *v);
            assert_eq!(got, model.get(&k).copied());
            model.entry(k).or_insert(round);
        } else {
            let got = tree.put(hash_of(k), k, Arc::new(round), false).map(|v| *v);
            assert_eq!(got, model.insert(k, round));
        }
        assert!(tree.reaches(model.len()));
        assert!(!tree.reaches(model.len() + 1));
    }
    for k in 0u64..300 {
        assert_eq!(tree.find(hash_of(k), &k).map(|v| *v), model.get(&k).copied());
    }
    let copy = tree.duplicate();
    for k in 0u64..300 {
        assert_eq!(copy.find(hash_of(k), &k).map(|v| *v), model.get(&k).copied());
    }
}

#[test]
fn tree_orders_keys_with_equal_hashes() {
    // "Aa" and "BB" have the same hash, and so have all strings made of them
    let mut keys: Vec<String> = vec![String::new()];
    for _ in 0..5 {
        let mut longer: Vec<String> = Vec::new();
        for k in &keys {
            longer.push(format!("{}Aa", k));
            longer.push(format!("{}BB", k));
        }
        keys = longer;
    }
    assert_eq!(keys.len(), 32);
    let hash = spread(keys[0].hash_code());
    let mut tree: TreeBin<String, usize> = TreeBin::from_chain(None);
    for (i, k) in keys.iter().enumerate() {
        assert_eq!(spread(k.hash_code()), hash);
        assert!(tree.put(hash, k.duplicate(), Arc::new(i), false).is_none());
    }
    for (i, k) in keys.iter().enumerate() {
        assert_eq!(tree.find(hash, k).map(|v| *v), Some(i));
    }
    for k in keys.iter().step_by(2) {
        assert!(tree.remove(hash, k).is_some());
    }
    for (i, k) in keys.iter().enumerate() {
        let expected = if i % 2 == 0 { None } else { Some(i) };
        assert_eq!(tree.find(hash, k).map(|v| *v), expected);
    }
    assert!(tree.reaches(16) && !tree.reaches(17));
}

#[test]
fn integer_keys_with_equal_hashes_come_in_pairs() {
    let a: u64 = 12345;
    let b: u64 = a ^ 0x8000_0000_8000_0000;
    assert_eq!(hash_of(a), hash_of(b));
    assert_eq!(compare_entries(hash_of(a), &a, hash_of(b), &b), KeyOrder::Less);
    let mut bucket: BaseNode<u64, u64> = BaseNode::new();
    bucket.put(hash_of(a), a, Arc::new(1), false, 16);
    bucket.put(hash_of(b), b, Arc::new(2), false, 16);
    assert_eq!(bucket.find(hash_of(a), &a).map(|v| *v), Some(1));
    assert_eq!(bucket.find(hash_of(b), &b).map(|v| *v), Some(2));
}

#[test]
fn thresholds_are_eight_six_and_sixty_four() {
    assert_eq!(TREEIFY_THRESHOLD, 8);
    assert_eq!(UNTREEIFY_THRESHOLD, 6);
    assert_eq!(MIN_TREEIFY_CAPACITY, 64);
}

#[test]
fn forwarding_marker_is_moved() {
    let marker: NodeEnums<u64, u64> = NodeEnums::ForwardingNode;
    assert!(marker.is_moved());
    let chain: NodeEnums<u64, u64> = NodeEnums::Node(Box::new(chain_of(&[1])));
    assert!(!chain.is_moved());
    let tree: NodeEnums<u64, u64> = NodeEnums::TreeBin(TreeBin::from_chain(None));
    assert!(!tree.is_moved());
}

#[test]
fn new_bucket_is_empty() {
    let bucket: BaseNode<u64, u64> = BaseNode::new();
    assert!(bucket.is_empty());
    assert!(!bucket.is_moved());
    assert!(!bucket.is_tree());
    assert_eq!(bucket.find(hash_of(1), &1), None);
    let marker: BaseNode<u64, u64> = BaseNode::forwarding();
    assert!(marker.is_moved());
    assert!(!marker.is_empty());
    assert!(!marker.is_tree());
    assert_eq!(marker.find(hash_of(1), &1), None);
}

#[test]
fn bucket_becomes_a_tree_at_the_eighth_entry_of_a_large_table() {
    let mut bucket: BaseNode<u64, u64> = BaseNode::new();
    for k in 1u64..=7 {
        let (prev, crowded) = bucket.put(hash_of(k), k, Arc::new(k), false, 64);
        assert!(prev.is_none());
        assert!(!crowded);
        assert!(!bucket.is_tree());
    }
    // replacing a value does not count as a new entry
    let (prev, crowded) = bucket.put(hash_of(7), 7, Arc::new(77), false, 64);
    assert_eq!(prev.map(|v| *v), Some(7));
    assert!(!crowded && !bucket.is_tree());
    let (prev, crowded) = bucket.put(hash_of(8), 8, Arc::new(8), false, 64);
    assert!(prev.is_none());
    assert!(!crowded);
    assert!(bucket.is_tree());
    for k in 1u64..=6 {
        assert_eq!(bucket.find(hash_of(k), &k).map(|v| *v), Some(k));
    }
    assert_eq!(bucket.find(hash_of(7), &7).map(|v| *v), Some(77));
    assert_eq!(bucket.find(hash_of(8), &8).map(|v| *v), Some(8));
}

#[test]
fn bucket_of_a_small_table_asks_for_room_instead() {
    let mut bucket: BaseNode<u64, u64> = BaseNode::new();
    for k in 1u64..=7 {
        assert_eq!(bucket.put(hash_of(k), k, Arc::new(k), false, 16).1, false);
    }
    let (prev, crowded) = bucket.put(hash_of(8), 8, Arc::new(8), false, 63);
    assert!(prev.is_none());
    assert!(crowded);
    assert!(!bucket.is_tree());
    let (_, crowded) = bucket.put(hash_of(9), 9, Arc::new(9), true, 16);
    assert!(crowded);
    let (prev, crowded) = bucket.put(hash_of(9), 9, Arc::new(0), true, 16);
    assert_eq!(prev.map(|v| *v), Some(9));
    assert!(!crowded);
    for k in 1u64..=9 {
        assert_eq!(bucket.find(hash_of(k), &k).map(|v| *v), Some(k));
    }
}

#[test]
fn tree_bucket_reverts_to_a_chain_at_six_entries() {
    let mut bucket: BaseNode<u64, u64> = BaseNode::new();
    for k in 1u64..=8 {
        bucket.put(hash_of(k), k, Arc::new(k), false, 64);
    }
    assert!(bucket.is_tree());
    assert_eq!(bucket.remove(hash_of(100), &100), None);
    assert!(bucket.is_tree());
    assert_eq!(bucket.remove(hash_of(1), &1).map(|v| *v), Some(1));
    assert!(bucket.is_tree());
    assert_eq!(bucket.remove(hash_of(2), &2).map(|v| *v), Some(2));
    assert!(!bucket.is_tree());
    for k in 3u64..=8 {
        assert_eq!(bucket.find(hash_of(k), &k).map(|v| *v), Some(k));
    }
    assert_eq!(bucket.find(hash_of(1), &1), None);
    assert_eq!(bucket.find(hash_of(2), &2), None);
    for k in 3u64..=8 {
        assert_eq!(bucket.remove(hash_of(k), &k).map(|v| *v), Some(k));
    }
    assert!(bucket.is_empty());
}

#[test]
fn bucket_split_keeps_large_parts_of_a_tree_as_trees() {
    let mut bucket: BaseNode<u64, u64> = BaseNode::new();
    for k in 0u64..20 {
        bucket.put(hash_of(k), k, Arc::new(k), false, 64);
    }
    assert!(bucket.is_tree());
    // bit 1: ten even hashes without it, ten odd ones with it
    let (lo, hi) = bucket.split(1);
    assert!(lo.is_tree());
    assert!(hi.is_tree());
    for k in 0u64..20 {
        let (here, there) = if k % 2 == 0 { (&lo, &hi) } else { (&hi, &lo) };
        assert_eq!(here.find(hash_of(k), &k).map(|v| *v), Some(k));
        assert_eq!(there.find(hash_of(k), &k), None);
    }
    // bit 16: sixteen hashes without it, four with it
    let mut bucket: BaseNode<u64, u64> = BaseNode::new();
    for k in 0u64..20 {
        bucket.put(hash_of(k), k, Arc::new(k), false, 64);
    }
    let (lo, hi) = bucket.split(16);
    assert!(lo.is_tree());
    assert!(!hi.is_tree());
    assert!(!hi.is_empty());
    assert_eq!(hi.find(hash_of(17), &17).map(|v| *v), Some(17));
    // bit 32: nothing has it
    let (lo, hi) = lo.split(32);
    assert!(lo.is_tree());
    assert!(hi.is_empty());
}

#[test]
fn bucket_split_of_a_chain_gives_chains() {
    let mut bucket: BaseNode<u64, u64> = BaseNode::new();
    for k in 0u64..20 {
        bucket.put(hash_of(k), k, Arc::new(k), false, 16);
    }
    assert!(!bucket.is_tree());
    let (lo, hi) = bucket.split(2);
    assert!(!lo.is_tree() && !hi.is_tree());
    assert_eq!(lo.find(hash_of(4), &4).map(|v| *v), Some(4));
    assert_eq!(hi.find(hash_of(6), &6).map(|v| *v), Some(6));
    assert_eq!(lo.find(hash_of(6), &6), None);
    let (lo, hi) = BaseNode::<u64, u64>::new().split(2);
    assert!(lo.is_empty() && hi.is_empty());
}

#[test]
fn bucket_duplicate_shares_nothing_but_the_values() {
    let mut bucket: BaseNode<u64, u64> = BaseNode::new();
    for k in 0u64..10 {
        bucket.put(hash_of(k), k, Arc::new(k), false, 64);
    }
    let copy = bucket.duplicate();
    bucket.remove(hash_of(3), &3);
    assert!(copy.is_tree());
    assert_eq!(copy.find(hash_of(3), &3).map(|v| *v), Some(3));
    assert_eq!(bucket.find(hash_of(3), &3), None);
    assert!(BaseNode::<u64, u64>::forwarding().duplicate().is_moved());
    assert!(BaseNode::<u64, u64>::new().duplicate().is_empty());
}

#[test]
fn a_bucket_is_published_anew_unless_its_entry_was_left_alone() {
    assert!(stores(false, false));
    assert!(stores(false, true));
    assert!(stores(true, false));
    assert!(!stores(true, true));
}
