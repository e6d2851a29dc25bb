use concurrent_hash_map::key::{Key, KeyOrder};
use concurrent_hash_map::map::ConcurrentHashMap;

/// A key whose hash is always the same.
struct Degenerate(u64);

impl vstd::view::View for Degenerate {
    type V = u64;

    fn view(&self) -> u64 {
        self.0
    }
}

impl Key for Degenerate {
    fn hash_of(_k: u64) -> u64 {
        7
    }

    fn precedes(a: u64, b: u64) -> bool {
        a < b
    }

    fn lemma_precedes_is_strict_total_order(_a: u64, _b: u64, _c: u64) {}

    fn hash_code(&self) -> u64 {
        7
    }

    fn duplicate(&self) -> Degenerate {
        Degenerate(self.0)
    }

    fn compare(&self, other: &Degenerate) -> KeyOrder {
        self.0.compare(&other.0)
    }
}

#[test]
fn a_degenerate_hash_puts_every_key_in_one_bucket() {
    let mut map: ConcurrentHashMap<Degenerate, u64> = ConcurrentHashMap::with_capacity(40);
    for k in 0u64..8 {
        assert!(map.insert(Degenerate(k), k + 1).is_none());
    }
    assert_eq!(map.table_len(), 64);
    for k in 0u64..8 {
        assert!(map.is_in_tree(&Degenerate(k)));
        assert_eq!(map.get(&Degenerate(k)).map(|v| *v), Some(k + 1));
    }
    assert_eq!(map.remove(&Degenerate(0)).map(|v| *v), Some(1));
    assert_eq!(map.remove(&Degenerate(1)).map(|v| *v), Some(2));
    for k in 2u64..8 {
        assert!(!map.is_in_tree(&Degenerate(k)));
        assert_eq!(map.get(&Degenerate(k)).map(|v| *v), Some(k + 1));
    }
    assert_eq!(map.size(), 6);
}
