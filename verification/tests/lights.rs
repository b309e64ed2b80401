use strolle::{GpuLight, Lights};

fn light(v: u32) -> GpuLight<u32> {
    GpuLight { d0: v, d1: v + 1, d2: v + 2, d3: 0, prev_d0: 0, prev_d1: 0, prev_d2: 0 }
}

#[test]
fn lights_fill_slots_after_the_sun() {
    let mut lights = Lights::new(light(100));
    assert_eq!(lights.len(), 1);
    lights.insert(7, light(10));
    lights.insert(8, light(20));
    assert_eq!(lights.len(), 3);
}

#[test]
fn updating_a_light_keeps_the_previous_data() {
    let mut lights = Lights::new(light(100));
    lights.insert(7, light(10));
    lights.insert(7, light(50));
    assert_eq!(lights.len(), 2);
    lights.update_sun(light(200));
    assert_eq!(lights.len(), 2);
}

#[test]
fn removing_a_light_frees_a_slot() {
    let mut lights = Lights::new(light(100));
    lights.insert(1, light(10));
    lights.insert(2, light(20));
    lights.insert(3, light(30));
    lights.remove(2);
    assert_eq!(lights.len(), 3);
    lights.remove(2);
    assert_eq!(lights.len(), 3);
    lights.insert(4, light(40));
    assert_eq!(lights.len(), 4);
    lights.remove(1);
    lights.remove(3);
    lights.remove(4);
    assert_eq!(lights.len(), 1);
}

fn sorted<T: Ord + Clone>(v: &[T]) -> Vec<T> {
    let mut v = v.to_vec();
    v.sort();
    v
}

#[test]
fn flush_plan_follows_the_changes() {
    let mut lights = Lights::new(light(100));
    lights.insert(1, light(10));
    lights.insert(2, light(20));
    lights.insert(3, light(30));
    let plan = lights.take_flush_plan();
    assert_eq!(sorted(&plan.committed), vec![1, 2, 3]);
    assert!(plan.killed.is_empty() && plan.remapped.is_empty() && plan.cleared.is_empty());

    lights.remove(1);
    lights.insert(3, light(31));
    lights.update_sun(light(200));
    let plan = lights.take_flush_plan();
    assert_eq!(plan.killed, vec![1]);
    assert_eq!(sorted(&plan.remapped), vec![(2, 1), (3, 2)]);
    assert_eq!(sorted(&plan.committed), vec![0, 2]);
    assert_eq!(sorted(&plan.cleared), vec![1, 2, 3]);

    let plan = lights.take_flush_plan();
    assert!(plan.killed.is_empty() && plan.remapped.is_empty());
    assert!(plan.committed.is_empty() && plan.cleared.is_empty());
    assert_eq!(lights.len(), 3);
}
