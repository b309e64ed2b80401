use strolle::{plan_tick, TickFlags, TickPlan};

#[test]
fn tick_takes_the_flags_down() {
    let mut flags = TickFlags { has_dirty_materials: false, has_dirty_images: true, has_dirty_sun: true };
    let plan = plan_tick(&mut flags, false, true);
    assert_eq!(
        plan,
        TickPlan { refresh_materials: true, refresh_bvh: false, update_sun: true, invalidate_cameras: true }
    );
    assert_eq!(flags, TickFlags { has_dirty_materials: false, has_dirty_images: false, has_dirty_sun: false });
    let plan = plan_tick(&mut flags, true, false);
    assert_eq!(
        plan,
        TickPlan { refresh_materials: false, refresh_bvh: true, update_sun: false, invalidate_cameras: false }
    );
}

#[test]
fn new_engine_computes_the_sun_first() {
    let mut flags = TickFlags::new();
    assert_eq!(flags, TickFlags { has_dirty_materials: false, has_dirty_images: false, has_dirty_sun: true });
    assert!(plan_tick(&mut flags, false, false).update_sun);
    assert!(!plan_tick(&mut flags, false, false).update_sun);
}

#[test]
fn frames_count_up_from_one() {
    assert_eq!(strolle::FIRST_FRAME, 1);
    assert_eq!(strolle::next_frame(strolle::FIRST_FRAME), 2);
    assert_eq!(strolle::next_frame(41), 42);
}
