use concurrent_hash_map::sizing::{
    max_resizers, maximum_capacity, number_of_leading_zeros, resize_stamp, spread, stamp_unit, table_size_for,
    DEFAULT_CAPACITY, HASH_BITS, MOVED, RESERVED, RESIZE_STAMP_BITS, TREEBIN,
};

#[test]
fn table_size_for_is_the_smallest_power_of_two_that_holds_the_capacity() {
    assert_eq!(table_size_for(0), 1);
    assert_eq!(table_size_for(1), 1);
    assert_eq!(table_size_for(2), 2);
    assert_eq!(table_size_for(3), 4);
    assert_eq!(table_size_for(4), 4);
    assert_eq!(table_size_for(5), 8);
    assert_eq!(table_size_for(16), 16);
    assert_eq!(table_size_for(17), 32);
    assert_eq!(table_size_for(1000), 1024);
    assert_eq!(table_size_for((1 << 29) + 1), 1 << 30);
    for c in 1usize..5000 {
        let r = table_size_for(c);
        assert!(r.is_power_of_two());
        assert!(r >= c);
        assert!(r / 2 < c);
    }
}

#[test]
fn table_size_for_smears_over_the_whole_word() {
    let mut c: usize = 3;
    while c <= maximum_capacity() / 2 {
        assert_eq!(table_size_for(c), c.next_power_of_two());
        assert_eq!(table_size_for(c + 1), (c + 1).next_power_of_two());
        c = c * 2 - 1;
    }
    if usize::BITS == 64 {
        assert_eq!(table_size_for((1 << 40) + 1), 1 << 41);
        assert_eq!(table_size_for((1 << 33) - 1), 1 << 33);
        assert_eq!(table_size_for((1 << 61) + 1), 1 << 62);
    }
}

#[test]
fn maximum_capacity_is_a_quarter_of_the_word() {
    assert_eq!(maximum_capacity(), 1 << (usize::BITS - 2));
    assert_eq!(table_size_for(maximum_capacity()), maximum_capacity());
    assert_eq!(table_size_for(maximum_capacity() - 1), maximum_capacity());
}

#[test]
fn table_size_for_is_capped_at_the_maximum_capacity() {
    assert_eq!(table_size_for(maximum_capacity() + 1), maximum_capacity());
    assert_eq!(table_size_for(usize::MAX), maximum_capacity());
}

#[test]
fn table_size_for_is_idempotent() {
    for c in 0usize..3000 {
        let r = table_size_for(c);
        assert_eq!(table_size_for(r), r);
    }
    let big = table_size_for(usize::MAX);
    assert_eq!(table_size_for(big), big);
    let large = table_size_for(maximum_capacity() / 4 + 1);
    assert_eq!(table_size_for(large), large);
}

#[test]
fn default_capacity_is_sixteen() {
    assert_eq!(DEFAULT_CAPACITY, 16);
    assert_eq!(table_size_for(DEFAULT_CAPACITY), 16);
}

#[test]
fn number_of_leading_zeros_counts_within_thirty_two_bits() {
    assert_eq!(number_of_leading_zeros(0), 32);
    assert_eq!(number_of_leading_zeros(1), 31);
    assert_eq!(number_of_leading_zeros(2), 30);
    assert_eq!(number_of_leading_zeros(3), 30);
    assert_eq!(number_of_leading_zeros(16), 27);
    assert_eq!(number_of_leading_zeros(i32::MAX as isize), 1);
    assert_eq!(number_of_leading_zeros(1 << 30), 1);
    assert_eq!(number_of_leading_zeros(-1), 0);
    assert_eq!(number_of_leading_zeros(isize::MIN), 0);
    let mut i: isize = 1;
    while i < i32::MAX as isize / 4 {
        assert_eq!(number_of_leading_zeros(i) as u32, (i as i32).leading_zeros());
        assert_eq!(i >> (31 - number_of_leading_zeros(i)), 1);
        i = i * 3 + 1;
    }
}

#[test]
fn leading_zeros_give_the_exponent_of_the_table_size() {
    for c in 2usize..3000 {
        let exponent = 32 - number_of_leading_zeros(c as isize - 1);
        assert_eq!(1usize << exponent, table_size_for(c));
    }
    assert_eq!(1usize << (32 - number_of_leading_zeros((1 << 30) - 1)), table_size_for(1 << 30));
}

#[test]
fn wider_words_count_on_downwards_from_sixty_four() {
    if isize::BITS == 64 {
        assert_eq!(number_of_leading_zeros(1 << 31), 0);
        assert_eq!(number_of_leading_zeros((1 << 32) - 1), 0);
        assert_eq!(number_of_leading_zeros(1 << 32), 63);
        assert_eq!(number_of_leading_zeros(1 << 33), 62);
        assert_eq!(number_of_leading_zeros(maximum_capacity() as isize), 33);
        assert_eq!(number_of_leading_zeros(isize::MAX), 33);
    }
}

#[test]
fn resize_stamp_tags_the_leading_zeros() {
    assert_eq!(RESIZE_STAMP_BITS, 16);
    assert_eq!(resize_stamp(16), 27 | 0x8000);
    assert_eq!(resize_stamp(16), 32795);
    assert_eq!(resize_stamp(32), 32794);
    assert_eq!(resize_stamp(1 << 30), 0x8001);
    assert_eq!(resize_stamp(0), 0x8020);
    // shifted to the top of the word, the stamp makes it negative
    assert!(resize_stamp(64) << (isize::BITS - RESIZE_STAMP_BITS) < 0);
}

#[test]
fn stamp_unit_and_resizers_fill_the_word_below_the_stamp() {
    assert_eq!(stamp_unit(), 1 << (isize::BITS - RESIZE_STAMP_BITS));
    assert_eq!(max_resizers(), (1 << (isize::BITS - RESIZE_STAMP_BITS)) - 1);
}

#[test]
fn resize_stamps_differ_between_table_lengths() {
    let mut n: usize = 1;
    let mut seen: Vec<isize> = Vec::new();
    loop {
        let rs = resize_stamp(n as isize);
        assert!(!seen.contains(&rs));
        seen.push(rs);
        if n == maximum_capacity() {
            break;
        }
        n *= 2;
    }
    assert_eq!(seen.len() as u32, usize::BITS - 1);
}

#[test]
fn spread_folds_the_upper_half_and_clears_the_top_bit() {
    assert_eq!(spread(0), 0);
    assert_eq!(spread(1), 1);
    assert_eq!(spread(0x0000_0001_0000_0000), 0x0000_0001_0000_0001);
    assert_eq!(spread(0xffff_ffff_ffff_ffff), 0x7fff_ffff_0000_0000);
    assert_eq!(spread(0x8000_0000_0000_0000), 0x0000_0000_8000_0000);
    assert_eq!(spread(0x1234_5678_9abc_def0), 0x1234_5678_8888_8888);
}

#[test]
fn spread_never_gives_a_reserved_hash() {
    assert_eq!(HASH_BITS, u64::MAX >> 1);
    assert_eq!(MOVED, u64::MAX);
    assert_eq!(TREEBIN, u64::MAX - 1);
    assert_eq!(RESERVED, u64::MAX - 2);
    for h in [MOVED, TREEBIN, RESERVED, HASH_BITS, 0, 1, 0xdead_beef_dead_beef] {
        let s = spread(h);
        assert!(s <= HASH_BITS);
        assert_ne!(s, MOVED);
        assert_ne!(s, TREEBIN);
        assert_ne!(s, RESERVED);
    }
}

#[test]
fn hashes_that_differ_only_in_high_bits_land_in_different_small_table_buckets() {
    let a = spread(0x0000_0001_0000_0000);
    let b = spread(0x0000_0002_0000_0000);
    assert_ne!(a & 15, b & 15);
}
