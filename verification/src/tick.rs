use vstd::prelude::*;

verus! {

/// What changed since the last tick, as the engine notes it.
#[derive(Clone, Copy, Debug, PartialEq, Eq, Structural)]
pub struct TickFlags {
    pub has_dirty_materials: bool,
    pub has_dirty_images: bool,
    pub has_dirty_sun: bool,
}

impl TickFlags {
    /// The flags of a new engine: only the sun is to be computed.
    pub fn new() -> (r: Self)
        ensures
            r == (TickFlags { has_dirty_materials: false, has_dirty_images: false, has_dirty_sun: true }),
    {
        TickFlags { has_dirty_materials: false, has_dirty_images: false, has_dirty_sun: true }
    }
}

/// The work a tick does besides flushing what it always flushes.
#[derive(Clone, Copy, Debug, PartialEq, Eq, Structural)]
pub struct TickPlan {
    /// Rebuild the materials, which read the images' places in the atlas.
    pub refresh_materials: bool,
    /// Rebuild the BVH over the instances' triangles.
    pub refresh_bvh: bool,
    /// Recompute the sun's light.
    pub update_sun: bool,
    /// Rebuild the cameras' bindings, since a buffer moved.
    pub invalidate_cameras: bool,
}

/// Decides a tick from the flags raised since the last one, whether the
/// instances changed, and whether a buffer was reallocated; the flags are
/// taken down.
pub fn plan_tick(flags: &mut TickFlags, instances_changed: bool, reallocated: bool) -> (r: TickPlan)
    ensures
        r.refresh_materials == (old(flags).has_dirty_materials || old(flags).has_dirty_images),
        r.refresh_bvh == instances_changed,
        r.update_sun == old(flags).has_dirty_sun,
        r.invalidate_cameras == reallocated,
        *final(flags) == (TickFlags {
            has_dirty_materials: false,
            has_dirty_images: false,
            has_dirty_sun: false,
        }),
{
    let any_material_modified = flags.has_dirty_materials;
    let any_image_modified = flags.has_dirty_images;
    let sun = flags.has_dirty_sun;
    *flags = TickFlags { has_dirty_materials: false, has_dirty_images: false, has_dirty_sun: false };
    TickPlan {
        refresh_materials: any_material_modified || any_image_modified,
        refresh_bvh: instances_changed,
        update_sun: sun,
        invalidate_cameras: reallocated,
    }
}

/// The number of the first frame.
pub const FIRST_FRAME: u32 = 1;

/// The number of the frame after `frame`.
pub fn next_frame(frame: u32) -> (r: u32)
    requires
        frame < u32::MAX,
    ensures
        r == frame + 1,
{
    frame + 1
}

} // verus!
