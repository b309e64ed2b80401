use strolle::Triangles;

#[test]
fn triangles_reuse_freed_slots() {
    let mut triangles: Triangles<u32> = Triangles::new();
    assert_eq!(triangles.create(1, vec![10, 11, 12]), 0..3);
    assert_eq!(triangles.create(2, vec![20, 21]), 3..5);
    assert_eq!(triangles.len(), 5);
    assert_eq!(triangles.count(1), Some(3));
    assert_eq!(triangles.count(9), None);
    assert_eq!(triangles.remove(1), Some(0..3));
    assert_eq!(triangles.remove(1), None);
    assert_eq!(triangles.count(1), None);
    assert_eq!(triangles.create(3, vec![30, 31]), 0..2);
    assert_eq!(triangles.create(4, vec![40, 41, 42]), 5..8);
    assert_eq!(triangles.len(), 8);
}

#[test]
fn written_ranges_are_uploaded_once() {
    let mut triangles: Triangles<u32> = Triangles::new();
    assert!(!triangles.take_dirty());
    triangles.create(1, vec![1, 2]);
    triangles.create(2, vec![3]);
    assert!(triangles.take_dirty());
    assert!(!triangles.take_dirty());
    let mut ranges = triangles.take_written_ranges();
    ranges.sort_by_key(|r| r.start);
    assert_eq!(ranges, vec![0..2, 2..3]);
    assert!(triangles.take_written_ranges().is_empty());
    triangles.update(2, vec![7, 8]);
    assert!(triangles.take_dirty());
    assert_eq!(triangles.take_written_ranges(), vec![2..3]);
    assert_eq!(triangles.count(2), Some(1));
}
