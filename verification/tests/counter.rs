use concurrent_hash_map::counter::{
    add_path, cell_index, new_cells, resize_check_due, size_of_count, sum_count, AddPath, Counter,
};

#[test]
fn sum_count_adds_base_and_cells() {
    assert_eq!(sum_count(0, &vec![]), 0);
    assert_eq!(sum_count(5, &vec![]), 5);
    assert_eq!(sum_count(5, &vec![1, 2, 3, 4]), 15);
    assert_eq!(sum_count(-5, &vec![1, -2]), -6);
}

#[test]
fn sum_count_wraps_around() {
    assert_eq!(sum_count(isize::MAX, &vec![1]), isize::MIN);
    assert_eq!(sum_count(isize::MAX, &vec![1, -1]), isize::MAX);
    assert_eq!(sum_count(isize::MIN, &vec![-1, 0]), isize::MAX);
}

#[test]
fn size_of_count_is_never_negative() {
    assert_eq!(size_of_count(0), 0);
    assert_eq!(size_of_count(7), 7);
    assert_eq!(size_of_count(-1), 0);
    assert_eq!(size_of_count(isize::MIN), 0);
    assert_eq!(size_of_count(isize::MAX), isize::MAX as usize);
}

#[test]
fn cell_index_masks_the_probe() {
    assert_eq!(cell_index(0, 1), 0);
    assert_eq!(cell_index(12345, 1), 0);
    assert_eq!(cell_index(5, 4), 1);
    assert_eq!(cell_index(7, 8), 7);
    assert_eq!(cell_index(0xffff_ffff_ffff_fff9, 8), 1);
}

#[test]
fn add_path_prefers_cells_then_base_then_new_cells() {
    assert_eq!(add_path(4, true, true, 6, 8), AddPath::Cell(2));
    assert_eq!(add_path(4, false, false, 7, 8), AddPath::Cell(3));
    assert_eq!(add_path(0, true, true, 6, 8), AddPath::Base);
    assert_eq!(add_path(0, true, false, 6, 8), AddPath::Base);
    assert_eq!(add_path(0, false, true, 6, 8), AddPath::NewCells(8));
    assert_eq!(add_path(0, false, true, 6, 6), AddPath::NewCells(8));
    assert_eq!(add_path(0, false, true, 6, 1), AddPath::NewCells(1));
    assert_eq!(add_path(0, false, true, 6, 0), AddPath::NewCells(1));
    assert_eq!(add_path(0, false, false, 6, 8), AddPath::Base);
}

#[test]
fn new_cells_hold_the_update_in_the_first_cell() {
    assert_eq!(new_cells(3, 1), vec![3]);
    assert_eq!(new_cells(-2, 4), vec![-2, 0, 0, 0]);
    assert_eq!(sum_count(10, &new_cells(3, 8)), 13);
}

#[test]
fn counter_adds_along_every_path() {
    let mut counter = Counter::new();
    assert_eq!(counter.sum_count(), 0);
    counter.add_count(2, true, true, 0, 4);
    assert_eq!(counter.sum_count(), 2);
    // base contended, cells created with the update in them
    counter.add_count(3, false, true, 0, 4);
    assert_eq!(counter.sum_count(), 5);
    // now every update goes to a cell
    counter.add_count(4, true, true, 1, 4);
    counter.add_count(5, false, false, 2, 4);
    counter.add_count(-1, true, false, 3, 4);
    counter.add_count(7, true, false, 7, 4);
    assert_eq!(counter.sum_count(), 20);
}

#[test]
fn counter_falls_back_to_the_base_when_nothing_is_free() {
    let mut counter = Counter::new();
    counter.add_count(9, false, false, 5, 4);
    counter.add_count(-4, false, false, 5, 4);
    assert_eq!(counter.sum_count(), 5);
}

#[test]
fn full_add_count_never_takes_the_free_base_path() {
    let mut counter = Counter::new();
    // the right to create the cells is free: they are created
    counter.full_add_count(6, true, 3, 2);
    assert_eq!(counter.sum_count(), 6);
    // from now on the probe picks the cell
    counter.full_add_count(1, false, 0, 2);
    counter.full_add_count(1, true, 1, 2);
    assert_eq!(counter.sum_count(), 8);
    let mut counter = Counter::new();
    counter.full_add_count(6, false, 3, 2);
    assert_eq!(counter.sum_count(), 6);
}

#[test]
fn counter_wraps_around() {
    let mut counter = Counter::new();
    counter.add_count(isize::MAX, true, true, 0, 1);
    counter.add_count(1, true, true, 0, 1);
    assert_eq!(counter.sum_count(), isize::MIN);
    assert_eq!(size_of_count(counter.sum_count()), 0);
}

#[test]
fn counter_says_which_way_the_update_went() {
    let mut counter = Counter::new();
    assert_eq!(counter.cell_len(), 0);
    assert_eq!(counter.add_count(1, true, true, 9, 4), AddPath::Base);
    assert_eq!(counter.add_count(1, false, false, 9, 4), AddPath::Base);
    assert_eq!(counter.cell_len(), 0);
    assert_eq!(counter.add_count(5, false, true, 9, 3), AddPath::NewCells(4));
    assert_eq!(counter.cell_len(), 4);
    assert_eq!(counter.add_count(1, true, true, 9, 4), AddPath::Cell(1));
    assert_eq!(counter.full_add_count(1, true, 6, 4), AddPath::Cell(2));
    assert_eq!(counter.cell_len(), 4);
    assert_eq!(counter.sum_count(), 9);
}

#[test]
fn the_table_size_is_looked_at_after_an_update_without_contention() {
    assert!(resize_check_due(0, AddPath::Base));
    assert!(resize_check_due(1, AddPath::Base));
    assert!(resize_check_due(2, AddPath::NewCells(4)));
    assert!(!resize_check_due(-1, AddPath::Base));
    assert!(!resize_check_due(0, AddPath::Cell(3)));
    assert!(!resize_check_due(1, AddPath::Cell(3)));
    assert!(resize_check_due(2, AddPath::Cell(3)));
    assert!(!resize_check_due(-1, AddPath::Cell(0)));
}
