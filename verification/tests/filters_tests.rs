use powerpointrs::filters::{cells_for, DoubleFilter, Filter, CELL_MASK, CELL_SHIFT, CELL_SIZE};

#[test]
fn cell_constants_agree() {
    assert_eq!(CELL_SIZE, 64);
    assert_eq!(1usize << CELL_SHIFT, CELL_SIZE);
    assert_eq!(CELL_MASK, CELL_SIZE - 1);
    assert_eq!(cells_for(0), 0);
    assert_eq!(cells_for(1), 1);
    assert_eq!(cells_for(64), 1);
    assert_eq!(cells_for(65), 2);
}

#[test]
fn filter_set_get_unset_toggle() {
    let mut f = Filter::new(130);
    assert!(!f.get(129));
    f.set(129);
    f.set(3);
    assert!(f.get(129) && f.get(3) && !f.get(4));
    f.unset(3);
    assert!(!f.get(3));
    f.toggle(3);
    assert!(f.get(3));
    f.toggle(3);
    assert!(!f.get(3));
}

#[test]
fn filter_last_is_the_highest_set_position() {
    let mut f = Filter::new(200);
    assert_eq!(f.last(), None);
    f.set(0);
    assert_eq!(f.last(), Some(0));
    f.set(63);
    assert_eq!(f.last(), Some(63));
    f.set(64);
    assert_eq!(f.last(), Some(64));
    f.set(191);
    assert_eq!(f.last(), Some(191));
    f.unset(191);
    assert_eq!(f.last(), Some(64));
}

#[test]
fn double_filter_keeps_pairs() {
    let mut f = DoubleFilter::new(100);
    assert_eq!(f.cells.len(), 2);
    assert_eq!(f.get(70), (false, false));
    f.set(70, true, false);
    assert_eq!(f.get(70), (true, false));
    f.set(70, false, true);
    assert_eq!(f.get(70), (false, true));
    f.set(5, true, true);
    assert_eq!(f.get(5), (true, true));
    assert_eq!(f.cells[0], (1 << 5, 1 << 5));
    assert_eq!(f.cells[1], (0, 1 << 6));
}

#[test]
fn double_filter_last_needs_both() {
    let mut f = DoubleFilter::new(128);
    assert_eq!(f.last(), None);
    f.set(100, true, false);
    f.set(90, false, true);
    assert_eq!(f.last(), None);
    f.set(7, true, true);
    assert_eq!(f.last(), Some(7));
    f.set(127, true, true);
    assert_eq!(f.last(), Some(127));
}
