use concurrent_hash_map::control::{
    claim_stride, init_step, initial_capacity, is_last_resizer, presize_step, presize_target, resize_step,
    resize_threshold, resize_word, resizers_of, stamp_of, transfer_stride, InitStep, PresizeStep, ResizeStep,
    TransferCursor, TransferStep, CREATING, MIN_TRANSFER_STRIDE,
};
use concurrent_hash_map::sizing::{max_resizers, maximum_capacity, resize_stamp, stamp_unit};

#[test]
fn resize_threshold_is_three_quarters_rounded_up() {
    assert_eq!(resize_threshold(16), 12);
    assert_eq!(resize_threshold(32), 24);
    assert_eq!(resize_threshold(1), 1);
    assert_eq!(resize_threshold(2), 2);
    assert_eq!(resize_threshold(4), 3);
    assert_eq!(resize_threshold(0), 0);
    assert_eq!(resize_threshold(1 << 30), 805306368);
    assert_eq!(resize_threshold(maximum_capacity()), (maximum_capacity() / 4 * 3) as isize);
}

#[test]
fn initial_capacity_is_the_request_or_the_default() {
    assert_eq!(initial_capacity(0), 16);
    assert_eq!(initial_capacity(64), 64);
    assert_eq!(initial_capacity(1), 1);
    assert_eq!(initial_capacity(-1), 16);
}

#[test]
fn initial_capacity_is_a_table_size_within_the_limit() {
    assert_eq!(initial_capacity(100), 128);
    assert_eq!(initial_capacity(12), 16);
    assert_eq!(initial_capacity(isize::MAX), maximum_capacity());
    assert_eq!(initial_capacity(maximum_capacity() as isize), maximum_capacity());
}

#[test]
fn presize_target_leaves_room_below_the_threshold() {
    assert_eq!(presize_target(0), 1);
    assert_eq!(presize_target(1), 2);
    assert_eq!(presize_target(10), 16);
    assert_eq!(presize_target(11), 32);
    assert_eq!(presize_target(100), 256);
    assert_eq!(presize_target(maximum_capacity() / 2), maximum_capacity());
    assert_eq!(presize_target(maximum_capacity() / 2 - 1), maximum_capacity());
    assert_eq!(presize_target(usize::MAX), maximum_capacity());
}

#[test]
fn resize_word_holds_stamp_and_one_resizer() {
    let sc = resize_word(16);
    assert_eq!(sc, (resize_stamp(16) << (isize::BITS - 16)) + 2);
    if isize::BITS == 64 {
        assert_eq!(sc, -9215772212483588094);
    }
    assert!(sc < -1);
    assert_eq!(stamp_of(sc), resize_stamp(16));
    assert_eq!(resizers_of(sc), 1);
    assert_eq!(resizers_of(sc + 1), 2);
    assert_eq!(stamp_of(sc + 1), resize_stamp(16));
    assert_eq!(resizers_of(sc - 1), 0);
}

#[test]
fn stamp_and_resizers_of_plain_words() {
    assert_eq!(stamp_of(0), 0);
    assert_eq!(stamp_of(12), 0);
    assert_eq!(stamp_of(stamp_unit()), 1);
    assert_eq!(stamp_of(-1), 0xffff);
    assert_eq!(resizers_of(-1), max_resizers() - 1);
    assert_eq!(stamp_of(isize::MIN), 0x8000);
    assert_eq!(resizers_of(isize::MIN), -1);
    assert_eq!(resizers_of(0), -1);
    assert_eq!(resizers_of(5), 4);
    for sc in [isize::MIN, isize::MIN + 77, -123456, -1, 0, 9, isize::MAX] {
        assert_eq!(stamp_of(sc), ((sc as usize) >> (isize::BITS - 16)) as isize);
        assert_eq!(resizers_of(sc), (sc & max_resizers()) - 1);
    }
}

#[test]
fn last_resizer_is_the_one_that_leaves_a_word_with_one_resizer() {
    let sc = resize_word(64);
    assert!(is_last_resizer(sc, 64));
    assert!(!is_last_resizer(sc + 1, 64));
    assert!(!is_last_resizer(sc, 32));
    assert!(!is_last_resizer(48, 64));
}

#[test]
fn resize_step_stays_while_the_count_does_not_exceed_the_threshold() {
    assert_eq!(resize_step(11, 12, 16, false, 0), ResizeStep::Stay);
    assert_eq!(resize_step(12, 12, 16, false, 0), ResizeStep::Stay);
    assert_eq!(resize_step(0, 12, 16, false, 0), ResizeStep::Stay);
}

#[test]
fn resize_step_stays_without_a_table_and_at_the_largest_capacity() {
    assert_eq!(resize_step(100, 0, 0, false, 0), ResizeStep::Stay);
    let top = maximum_capacity();
    assert_eq!(resize_step(isize::MAX, resize_threshold(top), top, false, 0), ResizeStep::Stay);
}

#[test]
fn resize_step_starts_above_the_threshold() {
    assert_eq!(resize_step(13, 12, 16, false, 0), ResizeStep::Start { from: 12, to: resize_word(16) });
    assert_eq!(resize_step(500, 12, 16, true, 7), ResizeStep::Start { from: 12, to: resize_word(16) });
}

#[test]
fn resize_step_joins_a_resize_with_the_same_stamp() {
    let sc = resize_word(16);
    assert_eq!(resize_step(13, sc, 16, true, 16), ResizeStep::Join { from: sc, to: sc + 1 });
    assert_eq!(resize_step(-5, sc, 16, true, 1), ResizeStep::Join { from: sc, to: sc + 1 });
}

#[test]
fn resize_step_does_not_join_what_it_cannot_help() {
    let sc = resize_word(16);
    // no buckets left
    assert_eq!(resize_step(13, sc, 16, true, 0), ResizeStep::Stay);
    // next table not there yet
    assert_eq!(resize_step(13, sc, 16, false, 16), ResizeStep::Stay);
    // stamp of another table length
    assert_eq!(resize_step(13, resize_word(32), 16, true, 16), ResizeStep::Stay);
    // no resizer left: the resize is being committed
    assert_eq!(resize_step(13, sc - 1, 16, true, 16), ResizeStep::Stay);
    // table being created
    assert_eq!(resize_step(13, CREATING, 16, true, 16), ResizeStep::Stay);
    // resizers at the maximum
    let full = sc - 1 + max_resizers() - 1;
    assert_eq!(resizers_of(full), max_resizers() - 1);
    assert_eq!(resize_step(13, full, 16, true, 16), ResizeStep::Stay);
    let room = full - 1;
    assert_eq!(resize_step(13, room, 16, true, 16), ResizeStep::Join { from: room, to: room + 1 });
}

#[test]
fn init_step_creates_the_table_once() {
    assert_eq!(init_step(true, 12), InitStep::Done);
    assert_eq!(init_step(true, -1), InitStep::Done);
    assert_eq!(init_step(false, CREATING), InitStep::Wait);
    assert_eq!(init_step(false, resize_word(16)), InitStep::Wait);
    assert_eq!(init_step(false, 0), InitStep::Create { from: 0, capacity: 16, threshold: 12 });
    assert_eq!(init_step(false, 64), InitStep::Create { from: 64, capacity: 64, threshold: 48 });
}

#[test]
fn init_step_caps_a_request_above_the_largest_capacity() {
    let top = maximum_capacity();
    assert_eq!(
        init_step(false, isize::MAX),
        InitStep::Create { from: isize::MAX, capacity: top, threshold: resize_threshold(top) }
    );
    assert_eq!(init_step(false, 100), InitStep::Create { from: 100, capacity: 128, threshold: 96 });
}

#[test]
fn presize_step_creates_the_larger_of_request_and_target() {
    // twenty elements ask for a table of thirty-two buckets
    assert_eq!(presize_target(20), 32);
    assert_eq!(presize_step(20, 0, 0), PresizeStep::Create { from: 0, capacity: 32, threshold: 24 });
    assert_eq!(presize_step(20, 64, 0), PresizeStep::Create { from: 64, capacity: 64, threshold: 48 });
    assert_eq!(presize_step(20, 16, 0), PresizeStep::Create { from: 16, capacity: 32, threshold: 24 });
    let top = maximum_capacity();
    assert_eq!(
        presize_step(usize::MAX, isize::MAX, 0),
        PresizeStep::Create { from: isize::MAX, capacity: top, threshold: resize_threshold(top) }
    );
}

#[test]
fn presize_step_grows_until_the_threshold_reaches_the_target() {
    assert_eq!(presize_step(20, 12, 16), PresizeStep::Grow { from: 12, to: resize_word(16) });
    assert_eq!(presize_step(20, 24, 32), PresizeStep::Grow { from: 24, to: resize_word(32) });
    assert_eq!(presize_step(20, 48, 64), PresizeStep::Done);
    assert_eq!(presize_step(20, 32, 64), PresizeStep::Done);
}

#[test]
fn presize_step_leaves_a_busy_or_full_table_alone() {
    assert_eq!(presize_step(20, CREATING, 0), PresizeStep::Done);
    assert_eq!(presize_step(20, resize_word(16), 16), PresizeStep::Done);
    let top = maximum_capacity();
    assert_eq!(presize_step(usize::MAX, resize_threshold(top), top), PresizeStep::Done);
}

#[test]
fn transfer_stride_is_an_eighth_shared_among_processors_and_at_least_sixteen() {
    assert_eq!(MIN_TRANSFER_STRIDE, 16);
    assert_eq!(transfer_stride(64, 1), 64);
    assert_eq!(transfer_stride(8, 1), 16);
    assert_eq!(transfer_stride(1024, 4), 32);
    assert_eq!(transfer_stride(64, 8), 16);
    assert_eq!(transfer_stride(1 << 20, 2), 65536);
    assert_eq!(transfer_stride(64, 0), 64);
}

#[test]
fn claim_stride_takes_the_highest_buckets_left() {
    assert_eq!(claim_stride(64, 16), 48);
    assert_eq!(claim_stride(48, 16), 32);
    assert_eq!(claim_stride(16, 16), 0);
    assert_eq!(claim_stride(10, 16), 0);
    assert_eq!(claim_stride(1, 1), 0);
}

#[test]
fn strides_partition_the_table() {
    let n: isize = 64;
    let mut index = n;
    let mut claimed: Vec<bool> = vec![false; n as usize];
    while index > 0 {
        let bound = claim_stride(index, 16);
        for i in bound..index {
            assert!(!claimed[i as usize]);
            claimed[i as usize] = true;
        }
        index = bound;
    }
    assert!(claimed.iter().all(|c| *c));
}

#[test]
fn transfer_cursor_walks_a_claim_from_the_top() {
    let mut cursor = TransferCursor::start();
    assert_eq!(cursor, TransferCursor { next: 0, bound: 0, finishing: false });
    assert_eq!(cursor.step(32, 16), TransferStep::Claim { from: 32, to: 16 });
    cursor.claimed(32, 16);
    assert_eq!(cursor, TransferCursor { next: 32, bound: 16, finishing: false });
    for i in (16..32).rev() {
        assert_eq!(cursor.step(16, 16), TransferStep::Bucket(i));
    }
    assert_eq!(cursor.step(16, 16), TransferStep::Claim { from: 16, to: 0 });
    // another thread took the claim
    assert_eq!(cursor.step(0, 16), TransferStep::Leave);
    cursor.finish(32);
    assert_eq!(cursor, TransferCursor { next: 32, bound: 0, finishing: true });
    for i in (0..32).rev() {
        assert_eq!(cursor.step(0, 16), TransferStep::Bucket(i));
    }
    assert_eq!(cursor.step(0, 16), TransferStep::Commit);
    assert_eq!(cursor.step(0, 16), TransferStep::Commit);
}
