use strolle::{MaterialId, Materials};

#[test]
fn materials_get_ids_in_order() {
    let mut materials: Materials<&str> = Materials::new();
    materials.insert(10, "red");
    materials.insert(20, "green");
    assert_eq!(materials.lookup(10), Some(MaterialId::new(0)));
    assert_eq!(materials.lookup(20), Some(MaterialId::new(1)));
    assert_eq!(*materials.index(MaterialId::new(1)), "green");
    assert!(materials.has(10));
    assert!(!materials.has(30));
    assert_eq!(materials.lookup(30), None);
}

#[test]
fn reinserting_replaces_in_place() {
    let mut materials: Materials<&str> = Materials::new();
    materials.insert(10, "red");
    materials.insert(20, "green");
    materials.insert(10, "blue");
    assert_eq!(materials.lookup(10), Some(MaterialId::new(0)));
    assert_eq!(*materials.index(MaterialId::new(0)), "blue");
}

#[test]
fn removed_ids_are_not_reused() {
    let mut materials: Materials<&str> = Materials::new();
    materials.insert(10, "red");
    materials.insert(20, "green");
    materials.remove(10);
    assert!(!materials.has(10));
    assert_eq!(materials.lookup(10), None);
    materials.insert(30, "blue");
    assert_eq!(materials.lookup(30), Some(MaterialId::new(2)));
    materials.insert(10, "red again");
    assert_eq!(materials.lookup(10), Some(MaterialId::new(3)));
    // the removed material stays where it was
    assert_eq!(*materials.index(MaterialId::new(0)), "red");
}

#[test]
fn removing_unknown_handle_does_nothing() {
    let mut materials: Materials<u8> = Materials::new();
    materials.insert(1, 7);
    materials.remove(2);
    assert_eq!(materials.lookup(1), Some(MaterialId::new(0)));
    assert_eq!(MaterialId::new(5).get(), 5);
}

#[test]
fn material_is_there_after_its_last_insert() {
    let mut materials: Materials<&str> = Materials::new();
    materials.insert(1, "red");
    materials.insert(2, "green");
    materials.remove(1);
    assert!(!materials.has(1));
    assert!(materials.has(2));
    materials.insert(1, "blue");
    materials.remove(2);
    assert!(materials.has(1));
    assert!(!materials.has(2));
    assert!(!materials.has(3));
}

#[test]
fn looked_up_id_names_a_stored_material() {
    let mut materials: Materials<&str> = Materials::new();
    materials.insert(4, "red");
    materials.insert(5, "green");
    materials.remove(4);
    let id = materials.lookup(5).unwrap();
    assert_eq!(*materials.index(id), "green");
    assert_eq!(materials.lookup(4), None);
}
