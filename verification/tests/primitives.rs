use strolle::{PrimitiveId, PrimitivesRef};

#[test]
fn primitive_id_round_trip() {
    assert_eq!(PrimitiveId::new(42).get(), 42);
    assert_eq!(PrimitiveId::new(7), PrimitiveId::new(7));
}

#[test]
fn single_holds_one_primitive() {
    let r = PrimitivesRef::single(PrimitiveId::new(5));
    assert_eq!(r.start().get(), 5);
    assert_eq!(r.end().get(), 6);
    assert_eq!(r.len(), 1);
    assert_eq!(r.as_range(), 5..6);
}

#[test]
fn range_keeps_its_ends() {
    let r = PrimitivesRef::range(PrimitiveId::new(3), PrimitiveId::new(10));
    assert_eq!(r.start(), PrimitiveId::new(3));
    assert_eq!(r.end(), PrimitiveId::new(10));
    assert_eq!(r.len(), 7);
    assert_eq!(r.as_range(), 3..10);
}

#[test]
fn offset_moves_both_ends() {
    let mut r = PrimitivesRef::range(PrimitiveId::new(3), PrimitiveId::new(10));
    r.offset(5);
    assert_eq!(r.as_range(), 8..15);
    r.offset(-8);
    assert_eq!(r.as_range(), 0..7);
    assert_eq!(r.len(), 7);
}

#[test]
fn offset_then_back_restores() {
    let mut r = PrimitivesRef::range(PrimitiveId::new(100), PrimitiveId::new(200));
    r.offset(-37);
    r.offset(37);
    assert_eq!(r.as_range(), 100..200);
}

#[test]
fn offset_keeps_the_bits_of_large_ids() {
    // an id above i32::MAX is read as a negative i32
    let mut r = PrimitivesRef::range(PrimitiveId::new(u32::MAX), PrimitiveId::new(u32::MAX));
    r.offset(1);
    assert_eq!(r.start().get(), 0);
    assert_eq!(r.end().get(), 0);
}

#[test]
fn default_is_empty_at_zero() {
    let r = PrimitivesRef::default();
    assert_eq!(r.as_range(), 0..0);
    assert_eq!(r.len(), 0);
}
