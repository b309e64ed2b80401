use strolle::Allocator;

#[test]
fn test() {
    let mut target = Allocator::default();

    assert_eq!(None, target.take(16));

    // ---
    // Case 1: Just one range

    target.give(0..32);

    assert_eq!(Some(0..8), target.take(8));
    assert_eq!(Some(8..16), target.take(8));
    assert_eq!(Some(16..24), target.take(8));
    assert_eq!(Some(24..32), target.take(8));
    assert_eq!(None, target.take(8));

    // ---
    // Case 2: Many ranges

    target.give(0..8);
    target.give(10..15);

    assert_eq!(Some(0..4), target.take(4));
    assert_eq!(Some(4..8), target.take(4));
    assert_eq!(Some(10..14), target.take(4));
    assert_eq!(None, target.take(4));
    assert_eq!(Some(14..15), target.take(1));
    assert_eq!(None, target.take(1));

    // ---
    // Case 3a: Compaction

    target.give(0..8);
    target.give(8..16);
    target.give(16..24);
    target.give(24..32);
    target.give(32..40);
    target.give(64..256);

    assert_eq!(Some(64..128), target.take(64));
    assert_eq!(Some(0..20), target.take(20));
    assert_eq!(Some(20..40), target.take(20));
    assert_eq!(Some(128..148), target.take(20));

    // ---
    // Case 3b: Compaction + checking if the `dirty` flag gets set properly

    target = Default::default();

    target.give(64..256);
    target.give(32..40);
    target.give(24..32);
    target.give(16..24);
    target.give(8..16);
    target.give(0..8);

    assert_eq!(Some(64..128), target.take(64));
    assert_eq!(Some(0..20), target.take(20));
    assert_eq!(Some(20..40), target.take(20));
    assert_eq!(Some(128..148), target.take(20));
}

#[test]
fn take_from_empty_allocator_fails() {
    let mut target = Allocator::default();
    assert_eq!(None, target.take(1));
    assert_eq!(target, Allocator::default());
}

#[test]
fn take_whole_range_removes_it() {
    let mut target = Allocator::default();
    target.give(5..9);
    assert_eq!(Some(5..9), target.take(4));
    assert_eq!(None, target.take(1));
}

#[test]
fn take_is_first_fit_not_best_fit() {
    let mut target = Allocator::default();
    target.give(0..10);
    target.give(20..23);
    // the first range that is long enough serves the request
    assert_eq!(Some(0..2), target.take(2));
    assert_eq!(Some(2..10), target.take(8));
    assert_eq!(Some(20..22), target.take(2));
}

#[test]
fn clean_list_is_not_reordered() {
    let mut target = Allocator::default();
    // each range starts after the previous one ends: the list stays clean
    target.give(0..2);
    target.give(5..9);
    target.give(20..40);
    assert_eq!(Some(5..8), target.take(3));
    assert_eq!(Some(20..23), target.take(3));
}

#[test]
fn touching_ranges_are_merged_when_dirty() {
    let mut target = Allocator::default();
    target.give(4..8);
    target.give(0..4);
    // neither range alone holds 8 slots; merged they do
    assert_eq!(Some(0..8), target.take(8));
    assert_eq!(None, target.take(1));
}

#[test]
fn touching_range_given_in_order_marks_list_dirty() {
    let mut target = Allocator::default();
    // 4..8 starts where 0..4 ends: `give` marks the list dirty, and the
    // next request merges the two
    target.give(0..4);
    target.give(4..8);
    assert_eq!(Some(0..6), target.take(6));
}

#[test]
fn give_back_restores_capacity() {
    let mut target = Allocator::default();
    target.give(0..16);
    let got = target.take(16).unwrap();
    assert_eq!(0..16, got);
    assert_eq!(None, target.take(1));
    target.give(got);
    assert_eq!(Some(0..16), target.take(16));
}

#[test]
fn lowest_free_run_is_handed_out() {
    let mut target = Allocator::default();
    target.give(100..110);
    target.give(50..60);
    target.give(10..20);
    assert_eq!(Some(10..15), target.take(5));
    assert_eq!(Some(15..20), target.take(5));
    assert_eq!(Some(50..55), target.take(5));
}

#[test]
fn empty_ranges_do_not_serve_requests() {
    let mut target = Allocator::default();
    target.give(3..3);
    target.give(7..7);
    assert_eq!(None, target.take(1));
}

#[test]
fn empty_range_between_touching_ranges_keeps_them_apart() {
    let mut target = Allocator::default();
    target.give(0..5);
    target.give(5..8);
    target.give(2..2);
    // sorted: 0..5, 2..2, 5..8 - no range ends where its neighbour starts
    assert_eq!(None, target.take(8));
    assert_eq!(Some(0..5), target.take(5));
}
