use std::collections::HashMap;

use strolle::{Instance, Instances, MaterialId, Materials, Meshes, TriangleAction, TriangleWork};

#[test]
fn new_instance_is_dirty_with_its_own_transform() {
    let mut instances: Instances<i32> = Instances::default();
    assert!(instances.is_empty());
    instances.insert(5, Instance::new(1, 2, 10, -10));
    let entry = instances.get(5).unwrap();
    assert_eq!(entry.prev_transform, 10);
    assert_eq!(entry.instance.transform, 10);
    assert_eq!(entry.instance.transform_inverse, -10);
    assert_eq!(entry.instance.mesh_handle, 1);
    assert_eq!(entry.instance.material_handle, 2);
    assert!(entry.dirty);
    assert!(!instances.is_empty());
}

#[test]
fn updated_instance_remembers_previous_transform_and_id() {
    let mut instances: Instances<i32> = Instances::default();
    instances.insert(5, Instance::new(1, 2, 10, -10));
    let uuid = instances.get(5).unwrap().uuid;
    instances.insert(5, Instance::new(1, 2, 20, -20));
    let entry = instances.get(5).unwrap();
    assert_eq!(entry.prev_transform, 10);
    assert_eq!(entry.instance.transform, 20);
    assert_eq!(entry.uuid, uuid);
}

#[test]
fn handles_lists_every_instance_once() {
    let mut instances: Instances<i32> = Instances::default();
    instances.insert(5, Instance::new(1, 2, 0, 0));
    instances.insert(9, Instance::new(1, 2, 0, 0));
    instances.insert(5, Instance::new(1, 2, 1, 1));
    let mut handles = instances.handles();
    handles.sort();
    assert_eq!(handles, vec![5, 9]);
    instances.remove(5);
    instances.remove(42);
    assert_eq!(instances.handles(), vec![9]);
    assert!(instances.get(5).is_none());
}

#[test]
fn meshes_by_handle() {
    let mut meshes: Meshes<&str> = Meshes::default();
    meshes.insert(1, "cube");
    meshes.insert(2, "sphere");
    meshes.insert(1, "cone");
    assert_eq!(meshes.len(), 2);
    assert_eq!(meshes.get(1), Some(&"cone"));
    meshes.remove(1);
    assert_eq!(meshes.get(1), None);
    assert_eq!(meshes.len(), 1);
}

#[test]
fn refresh_decides_the_triangle_work() {
    let mut instances: Instances<i32> = Instances::default();
    let mut materials: Materials<&str> = Materials::new();
    let mesh_sizes: HashMap<u64, usize> = HashMap::new();
    let triangle_counts: HashMap<u64, usize> = HashMap::new();

    let (changed, actions) = instances.refresh(&mesh_sizes, &materials, &triangle_counts);
    assert!(!changed);
    assert!(actions.is_empty());

    instances.insert(5, Instance::new(1, 2, 0, 0));
    instances.insert(6, Instance::new(3, 2, 0, 0));
    let (changed, actions) = instances.refresh(&mesh_sizes, &materials, &triangle_counts);
    assert!(changed);
    assert!(actions.is_empty());
    assert!(instances.get(5).unwrap().dirty);

    materials.insert(2, "red");
    let mut mesh_sizes = mesh_sizes;
    mesh_sizes.insert(1, 12);
    let mut triangle_counts = triangle_counts;
    triangle_counts.insert(5, 12);
    let (changed, actions) = instances.refresh(&mesh_sizes, &materials, &triangle_counts);
    assert!(changed);
    assert_eq!(
        actions,
        vec![TriangleAction { instance: 5, mesh: 1, material: MaterialId::new(0), work: TriangleWork::Update }]
    );
    assert!(!instances.get(5).unwrap().dirty);
    assert!(instances.get(6).unwrap().dirty);

    mesh_sizes.insert(3, 4);
    triangle_counts.insert(6, 7);
    let (changed, actions) = instances.refresh(&mesh_sizes, &materials, &triangle_counts);
    assert!(changed);
    assert_eq!(
        actions,
        vec![TriangleAction { instance: 6, mesh: 3, material: MaterialId::new(0), work: TriangleWork::Recreate }]
    );
    let (changed, _) = instances.refresh(&mesh_sizes, &materials, &triangle_counts);
    assert!(!changed);

    instances.insert(7, Instance::new(3, 2, 0, 0));
    let (_, actions) = instances.refresh(&mesh_sizes, &materials, &triangle_counts);
    assert_eq!(actions[0].work, TriangleWork::Create);
}

#[test]
fn meshes_forget_removed_and_changed_handles() {
    let mut meshes: Meshes<&str> = Meshes::default();
    meshes.insert(1, "cube");
    meshes.insert(2, "sphere");
    meshes.insert(3, "cone");
    meshes.remove_all(&[1, 3, 7]);
    assert_eq!(meshes.get(1), None);
    assert_eq!(meshes.get(2), Some(&"sphere"));
    assert_eq!(meshes.get(3), None);
    assert_eq!(meshes.len(), 1);
}
