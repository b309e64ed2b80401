use strolle::{Primitive, PrimitiveId, PrimitivesRef, TlasPrimitives};

fn tri(g: u32) -> Primitive<u32> {
    Primitive::Triangle { geometry: g, triangle_id: g, material_id: 0 }
}

fn geometry(p: &[Primitive<u32>]) -> Vec<Option<u32>> {
    p.iter().map(|p| p.geometry()).collect()
}

fn range(a: u32, b: u32) -> PrimitivesRef {
    PrimitivesRef::range(PrimitiveId::new(a), PrimitiveId::new(b))
}

#[test]
fn added_primitives_are_appended() {
    let mut tlas: TlasPrimitives<u32> = TlasPrimitives::new();
    tlas.add(1, vec![tri(1), tri(2)]);
    tlas.add(2, vec![tri(3)]);
    tlas.begin();
    assert_eq!(tlas.all().as_range(), 0..3);
    assert_eq!(geometry(tlas.index(tlas.all())), vec![Some(1), Some(2), Some(3)]);
}

#[test]
fn re_adding_overwrites_owned_slots() {
    let mut tlas: TlasPrimitives<u32> = TlasPrimitives::new();
    tlas.add(1, vec![tri(1), tri(2)]);
    tlas.add(2, vec![tri(3)]);
    tlas.add(1, vec![tri(7), tri(8), tri(9)]);
    tlas.begin();
    assert_eq!(geometry(tlas.index(tlas.all())), vec![Some(7), Some(8), Some(3)]);
}

#[test]
fn removed_slots_are_killed_and_reused() {
    let mut tlas: TlasPrimitives<u32> = TlasPrimitives::new();
    tlas.add(1, vec![tri(1), tri(2)]);
    tlas.add(2, vec![tri(3)]);
    tlas.remove(1);
    tlas.begin();
    assert_eq!(geometry(tlas.index(tlas.all())), vec![None, None, Some(3)]);
    assert!(matches!(tlas.index(range(0, 1))[0], Primitive::Killed));
    tlas.add(3, vec![tri(4)]);
    tlas.begin();
    assert_eq!(geometry(tlas.index(tlas.all())), vec![Some(4), None, Some(3)]);
    tlas.add(4, vec![tri(5), tri(6)]);
    tlas.begin();
    assert_eq!(
        geometry(tlas.index(tlas.all())),
        vec![Some(4), None, Some(3), Some(5), Some(6)]
    );
}

#[test]
fn frames_copy_and_commit() {
    let mut tlas: TlasPrimitives<u32> = TlasPrimitives::new();
    tlas.add(1, vec![tri(1), tri(2), tri(3)]);
    tlas.begin();
    tlas.index_mut(range(1, 2))[0] = tri(20);
    assert_eq!(geometry(tlas.index(tlas.all())), vec![Some(1), Some(20), Some(3)]);
    tlas.commit();
    assert_eq!(tlas.all().as_range(), 0..0);
    tlas.begin();
    tlas.copy(range(1, 2), range(0, 1));
    assert_eq!(geometry(tlas.index(tlas.all())), vec![Some(20), Some(2), Some(3)]);
}

#[test]
fn killed_primitive_has_no_geometry() {
    let p: Primitive<u32> = Primitive::Killed;
    assert_eq!(p.geometry(), None);
    let i: Primitive<u32> = Primitive::Instance { geometry: 9, node_id: 1 };
    assert_eq!(i.geometry(), Some(9));
}
