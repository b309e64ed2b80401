use std::collections::HashMap;

use guillotiere::{size2, AllocId, AtlasAllocator};
use vstd::prelude::*;

use crate::atlas_data::{
    aligned_rows, converted, convert_to_rgba8unorm_srgb, pad_rows, row_padding, SourceFormat,
};

verus! {

#[verifier::external_type_specification]
#[verifier::external_body]
pub struct ExAtlasAllocator(AtlasAllocator);

/// A rectangle of the atlas: its lowest corner and its size, in pixels.
#[derive(Clone, Copy, Debug, PartialEq, Eq, Structural)]
pub struct AtlasRect {
    pub x: i32,
    pub y: i32,
    pub width: i32,
    pub height: i32,
}

/// The two rectangles share no pixel.
pub open spec fn disjoint(a: AtlasRect, b: AtlasRect) -> bool {
    ||| a.x + a.width <= b.x
    ||| b.x + b.width <= a.x
    ||| a.y + a.height <= b.y
    ||| b.y + b.height <= a.y
}

/// The allocations an atlas holds: by serialized id, the rectangle each
/// covers (what `atlas[id]` gives).
pub uninterp spec fn atlas_allocations(atlas: AtlasAllocator) -> Map<u32, AtlasRect>;

/// The width and height the atlas was made with (`AtlasAllocator::size`).
pub uninterp spec fn atlas_size(atlas: AtlasAllocator) -> (i32, i32);

/// Whether `AtlasAllocator::allocate` on `atlas` finds a free rectangle for a
/// `width` by `height` request.
pub uninterp spec fn atlas_fits(atlas: AtlasAllocator, width: i32, height: i32) -> bool;

/// A rectangle handed out by the atlas, with the serialized id it is given
/// back by.
#[derive(Clone, Copy, Debug, PartialEq, Eq, Structural)]
pub struct AtlasSlot {
    pub id: u32,
    pub x: i32,
    pub y: i32,
    pub width: i32,
    pub height: i32,
}

/// The rectangle the slot covers.
pub open spec fn rect_of(slot: AtlasSlot) -> AtlasRect {
    AtlasRect { x: slot.x, y: slot.y, width: slot.width, height: slot.height }
}

/// `AtlasAllocator::new` with the default options: an atlas of `width` by
/// `height` pixels that holds no allocation. It asserts a positive size.
#[verifier::external_body]
fn new_atlas(width: i32, height: i32) -> (r: AtlasAllocator)
    requires
        width > 0,
        height > 0,
    ensures
        atlas_allocations(r).dom().is_empty(),
        atlas_size(r) == (width, height),
{
    AtlasAllocator::new(size2(width, height))
}

/// `AtlasAllocator::allocate`: with the default alignment of one pixel, a
/// rectangle of exactly the requested size, lying inside the atlas and apart
/// from every rectangle the atlas holds (it is cut from a free one), under an
/// id that the atlas did not hold, which it holds afterwards, the others
/// keeping their rectangles; `None`, with the
/// atlas' allocations unchanged, when no free rectangle fits or the size is
/// not positive. Whether a request succeeds is a function of the atlas and
/// the size (`atlas_fits`): the search over the free lists is deterministic.
/// An atlas that holds no allocation is one free rectangle of its whole size,
/// so there any positive size up to the atlas' own fits. Which free rectangle
/// is chosen, and so where the rectangle lies within the atlas and which
/// sizes fit an atlas that holds allocations, is left unsaid.
#[verifier::external_body]
fn atlas_allocate(atlas: &mut AtlasAllocator, width: i32, height: i32) -> (r: Option<AtlasSlot>)
    ensures
        atlas_size(*final(atlas)) == atlas_size(*old(atlas)),
        r is Some <==> atlas_fits(*old(atlas), width, height),
        match r {
            None => atlas_allocations(*final(atlas)) == atlas_allocations(*old(atlas)),
            Some(slot) => {
                &&& width > 0 && height > 0
                &&& slot.width == width && slot.height == height
                &&& 0 <= slot.x && slot.x + width <= atlas_size(*old(atlas)).0
                &&& 0 <= slot.y && slot.y + height <= atlas_size(*old(atlas)).1
                &&& !atlas_allocations(*old(atlas)).contains_key(slot.id)
                &&& forall|i: u32| #[trigger]
                    atlas_allocations(*old(atlas)).contains_key(i) ==> disjoint(
                        atlas_allocations(*old(atlas))[i],
                        rect_of(slot),
                    )
                &&& atlas_allocations(*final(atlas)) == atlas_allocations(*old(atlas)).insert(
                    slot.id,
                    rect_of(slot),
                )
            },
        },
        atlas_allocations(*old(atlas)).dom().is_empty() && 0 < width <= atlas_size(*old(atlas)).0 && 0
            < height <= atlas_size(*old(atlas)).1 ==> r is Some,
{
    atlas.allocate(size2(width, height)).map(|a| AtlasSlot {
        id: a.id.serialize(),
        x: a.rectangle.min.x,
        y: a.rectangle.min.y,
        width: a.rectangle.width(),
        height: a.rectangle.height(),
    })
}

/// `AtlasAllocator::deallocate`: gives the allocation `id` back; the atlas
/// asserts that it holds it, and holds it no more afterwards. Its other
/// allocations keep their rectangles, and its size stays.
#[verifier::external_body]
fn atlas_deallocate(atlas: &mut AtlasAllocator, id: u32)
    requires
        atlas_allocations(*old(atlas)).contains_key(id),
    ensures
        atlas_allocations(*final(atlas)) == atlas_allocations(*old(atlas)).remove(id),
        atlas_size(*final(atlas)) == atlas_size(*old(atlas)),
{
    atlas.deallocate(AllocId::deserialize(id))
}

/// Pixels of an image, as the renderer receives them.
#[derive(Debug)]
pub enum ImageData<T> {
    /// Bytes of the image, copied into the atlas.
    Raw { data: Vec<u8> },
    /// A texture that already lives on the GPU; a dynamic one is copied into
    /// the atlas on every frame.
    Texture { texture: T, is_dynamic: bool },
}

/// An image: its size and pixel format, and its pixels.
#[derive(Debug)]
pub struct Image<T> {
    pub width: u32,
    pub height: u32,
    pub format: SourceFormat,
    pub data: ImageData<T>,
}

/// A pending write into the atlas.
#[derive(Debug)]
pub enum AtlasChange<T> {
    Write { x: u32, y: u32, w: u32, h: u32, data: ImageData<T> },
}

/// Side of the square texture atlas, in pixels.
pub const ATLAS_WIDTH: u32 = 8192;

/// Side of the square texture atlas, in pixels.
pub const ATLAS_HEIGHT: u32 = 8192;

/// The writes and copies recorded once `item` is placed at `slot`: raw bytes
/// become a write of them, converted and laid out for the atlas; a texture
/// becomes a write of itself, or, when dynamic, a copy made on every frame.
pub open spec fn recorded<T>(
    changes: Seq<AtlasChange<T>>,
    dynamic: Seq<(T, AtlasSlot)>,
    new_changes: Seq<AtlasChange<T>>,
    new_dynamic: Seq<(T, AtlasSlot)>,
    slot: AtlasSlot,
    item: Image<T>,
) -> bool {
    match item.data {
        ImageData::Raw { data } => {
            &&& new_dynamic == dynamic
            &&& new_changes.len() == changes.len() + 1
            &&& new_changes.take(changes.len() as int) == changes
            &&& new_changes.last() matches AtlasChange::Write { x, y, w, h, data: written }
            &&& x == slot.x as u32 && y == slot.y as u32
            &&& w == slot.width as u32 && h == slot.height as u32
            &&& written matches ImageData::Raw { data: bytes }
            &&& bytes@ == aligned_rows(converted(data@, item.format), item.width as nat)
        },
        ImageData::Texture { texture, is_dynamic } => if is_dynamic {
            &&& new_changes == changes
            &&& new_dynamic == dynamic.push((texture, slot))
        } else {
            &&& new_dynamic == dynamic
            &&& new_changes == changes.push(
                AtlasChange::Write {
                    x: slot.x as u32,
                    y: slot.y as u32,
                    w: slot.width as u32,
                    h: slot.height as u32,
                    data: item.data,
                },
            )
        },
    }
}

/// The images of a scene, placed into one texture atlas.
pub struct Images<T> {
    atlas: AtlasAllocator,
    atlas_changes: Vec<AtlasChange<T>>,
    images: HashMap<u64, AtlasSlot>,
    dynamic_textures: Vec<(T, AtlasSlot)>,
    lost: Ghost<Set<u64>>,
}

/// The rectangle `slot` is not empty and lies inside the atlas.
pub open spec fn inside_atlas(slot: AtlasSlot) -> bool {
    &&& 0 <= slot.x && 0 < slot.width && slot.x + slot.width <= ATLAS_WIDTH
    &&& 0 <= slot.y && 0 < slot.height && slot.y + slot.height <= ATLAS_HEIGHT
}

/// The images whose entry names the rectangle `id`.
pub open spec fn sharing(slots: Map<u64, AtlasSlot>, id: u32) -> Set<u64> {
    Set::new(|g: u64| slots.contains_key(g) && slots[g].id == id)
}

/// The rectangle `slot` has the size of a `width` by `height` image, read as
/// the atlas reads sizes.
pub open spec fn same_size(slot: AtlasSlot, width: u32, height: u32) -> bool {
    slot.width == width as i32 && slot.height == height as i32
}

/// The image `h` is not lost and its entry names the rectangle `id`.
spec fn owns(slots: Map<u64, AtlasSlot>, lost: Set<u64>, h: u64, id: u32) -> bool {
    &&& slots.contains_key(h)
    &&& !lost.contains(h)
    &&& slots[h].id == id
}

/// The entries, the lost images and the atlas' allocations agree: every
/// entry lies inside the atlas; every image that is not lost owns a rectangle
/// the atlas holds, at the place its entry names; no two own the same one;
/// every rectangle the atlas holds is owned by one of them; and no two
/// rectangles the atlas holds overlap.
#[verifier::opaque]
spec fn consistent(slots: Map<u64, AtlasSlot>, lost: Set<u64>, live: Map<u32, AtlasRect>) -> bool {
    &&& lost.subset_of(slots.dom())
    &&& forall|h: u64| #[trigger]
        slots.contains_key(h) ==> inside_atlas(slots[h]) && (!lost.contains(h) ==> live.contains_key(
            slots[h].id,
        ) && live[slots[h].id] == rect_of(slots[h]))
    &&& forall|h: u64, g: u64|
        #![trigger slots[h], slots[g]]
        slots.contains_key(h) && slots.contains_key(g) && !lost.contains(h) && !lost.contains(g)
            && h != g ==> slots[h].id != slots[g].id
    &&& forall|id: u32| #[trigger]
        live.contains_key(id) ==> exists|h: u64| #[trigger] owns(slots, lost, h, id)
    &&& forall|i: u32, j: u32|
        #![trigger live[i], live[j]]
        live.contains_key(i) && live.contains_key(j) && i != j ==> disjoint(live[i], live[j])
}

/// Giving the rectangle `id` back to the atlas leaves every image that names
/// it lost, and the rest as they were.
proof fn lemma_release(
    slots: Map<u64, AtlasSlot>,
    lost: Set<u64>,
    live: Map<u32, AtlasRect>,
    id: u32,
)
    requires
        consistent(slots, lost, live),
    ensures
        consistent(slots, lost.union(sharing(slots, id)), live.remove(id)),
{
    reveal(consistent);
    let lost1 = lost.union(sharing(slots, id));
    let live1 = live.remove(id);
    assert forall|h: u64| #[trigger] slots.contains_key(h) implies inside_atlas(slots[h]) && (
    !lost1.contains(h) ==> live1.contains_key(slots[h].id) && live1[slots[h].id] == rect_of(
        slots[h],
    )) by {
        if !lost1.contains(h) {
            assert(!sharing(slots, id).contains(h));
        }
    }
    assert forall|i: u32| #[trigger] live1.contains_key(i) implies exists|h: u64| #[trigger]
        owns(slots, lost1, h, i) by {
        let g = choose|g: u64| owns(slots, lost, g, i);
        assert(!sharing(slots, id).contains(g));
        assert(owns(slots, lost1, g, i));
    }
    assert forall|i: u32, j: u32|
        #![trigger live1[i], live1[j]]
        live1.contains_key(i) && live1.contains_key(j) && i != j implies disjoint(
        live1[i],
        live1[j],
    ) by {
        assert(disjoint(live[i], live[j]));
    }
}

/// A fresh rectangle, apart from every one the atlas holds, placed under
/// `handle`, whose old entry, if any, is lost, is owned by it.
proof fn lemma_place(
    slots: Map<u64, AtlasSlot>,
    lost: Set<u64>,
    live: Map<u32, AtlasRect>,
    handle: u64,
    slot: AtlasSlot,
)
    requires
        consistent(slots, lost, live),
        !live.contains_key(slot.id),
        forall|i: u32| #[trigger] live.contains_key(i) ==> disjoint(live[i], rect_of(slot)),
        inside_atlas(slot),
        slots.contains_key(handle) ==> lost.contains(handle),
    ensures
        consistent(
            slots.insert(handle, slot),
            lost.remove(handle),
            live.insert(slot.id, rect_of(slot)),
        ),
{
    reveal(consistent);
    let s2 = slots.insert(handle, slot);
    let l2 = lost.remove(handle);
    let v2 = live.insert(slot.id, rect_of(slot));
    assert forall|h: u64| #[trigger] s2.contains_key(h) implies inside_atlas(s2[h]) && (
    !l2.contains(h) ==> v2.contains_key(s2[h].id) && v2[s2[h].id] == rect_of(s2[h])) by {
        if h != handle {
            assert(slots.contains_key(h));
            if !l2.contains(h) {
                assert(live.contains_key(slots[h].id));
            }
        }
    }
    assert forall|a: u64, b: u64|
        #![trigger s2[a], s2[b]]
        s2.contains_key(a) && s2.contains_key(b) && !l2.contains(a) && !l2.contains(b) && a
            != b implies s2[a].id != s2[b].id by {
        if a == handle {
            assert(live.contains_key(slots[b].id));
        } else if b == handle {
            assert(live.contains_key(slots[a].id));
        } else {
            assert(slots[a].id != slots[b].id);
        }
    }
    assert forall|i: u32| #[trigger] v2.contains_key(i) implies exists|h: u64| #[trigger]
        owns(s2, l2, h, i) by {
        if i == slot.id {
            assert(owns(s2, l2, handle, i));
        } else {
            let g = choose|g: u64| owns(slots, lost, g, i);
            assert(g != handle);
            assert(owns(s2, l2, g, i));
        }
    }
    assert forall|i: u32, j: u32|
        #![trigger v2[i], v2[j]]
        v2.contains_key(i) && v2.contains_key(j) && i != j implies disjoint(v2[i], v2[j]) by {
        if i == slot.id {
            assert(disjoint(live[j], rect_of(slot)));
        } else if j == slot.id {
            assert(disjoint(live[i], rect_of(slot)));
        } else {
            assert(disjoint(live[i], live[j]));
        }
    }
}

/// Dropping the entry of a lost image keeps the rest in agreement.
proof fn lemma_forget(
    slots: Map<u64, AtlasSlot>,
    lost: Set<u64>,
    live: Map<u32, AtlasRect>,
    handle: u64,
)
    requires
        consistent(slots, lost, live),
        lost.contains(handle),
    ensures
        consistent(slots.remove(handle), lost.remove(handle), live),
{
    reveal(consistent);
    let s2 = slots.remove(handle);
    let l2 = lost.remove(handle);
    assert forall|h: u64| #[trigger] s2.contains_key(h) implies inside_atlas(s2[h]) && (
    !l2.contains(h) ==> live.contains_key(s2[h].id) && live[s2[h].id] == rect_of(s2[h])) by {
        assert(slots.contains_key(h));
    }
    assert forall|a: u64, b: u64|
        #![trigger s2[a], s2[b]]
        s2.contains_key(a) && s2.contains_key(b) && !l2.contains(a) && !l2.contains(b) && a
            != b implies s2[a].id != s2[b].id by {
        assert(slots[a].id != slots[b].id);
    }
    assert forall|i: u32| #[trigger] live.contains_key(i) implies exists|h: u64| #[trigger]
        owns(s2, l2, h, i) by {
        let g = choose|g: u64| owns(slots, lost, g, i);
        assert(owns(s2, l2, g, i));
    }
}

/// The raw pixels of a `width` by `height` image can be converted and laid
/// out without overflowing the integer types the layout is computed in.
spec fn upload_fits(width: u32, height: u32) -> bool {
    &&& width * height <= u32::MAX
    &&& width * height * 4 <= usize::MAX
    &&& 4 * width + row_padding(width as nat) <= u32::MAX
    &&& (4 * width + row_padding(width as nat)) * height <= u32::MAX
}

/// An image no larger than the atlas can be laid out for it.
proof fn lemma_upload_fits(width: u32, height: u32)
    requires
        width <= ATLAS_WIDTH,
        height <= ATLAS_HEIGHT,
    ensures
        upload_fits(width, height),
{
    let pad = row_padding(width as nat);
    assert(pad < 256);
    assert(width * height <= 8192 * 8192) by (nonlinear_arith)
        requires
            width <= 8192,
            height <= 8192,
    ;
    assert((4 * width + pad) * height <= (4 * 8192 + 256) * 8192) by (nonlinear_arith)
        requires
            width <= 8192,
            height <= 8192,
            pad < 256,
    ;
}

impl<T> Images<T> {
    /// Where each image lies in the atlas.
    pub closed spec fn slots(&self) -> Map<u64, AtlasSlot> {
        self.images@
    }

    /// Images whose rectangle was given back to the atlas while their entry
    /// stayed: a resize that did not fit, or another image giving back a
    /// rectangle the atlas had handed to both. Their entry still names that
    /// rectangle, which the atlas may have handed to another image since.
    pub closed spec fn lost(&self) -> Set<u64> {
        self.lost@
    }

    /// The writes into the atlas not yet flushed.
    pub closed spec fn changes(&self) -> Seq<AtlasChange<T>> {
        self.atlas_changes@
    }

    /// The dynamic textures and where they are copied to.
    pub closed spec fn dynamic_textures(&self) -> Seq<(T, AtlasSlot)> {
        self.dynamic_textures@
    }

    /// The atlas the images are placed in.
    pub closed spec fn atlas_view(&self) -> AtlasAllocator {
        self.atlas
    }

    /// The atlas has its full size; every entry lies inside it; every image
    /// that is not lost owns a rectangle the atlas holds, no two the same
    /// one; and the atlas holds no rectangle that no such image owns.
    pub closed spec fn wf(&self) -> bool {
        &&& atlas_size(self.atlas) == (ATLAS_WIDTH as i32, ATLAS_HEIGHT as i32)
        &&& consistent(self.images@, self.lost@, atlas_allocations(self.atlas))
    }

    pub fn new() -> (r: Self)
        ensures
            r.wf(),
            r.slots() == Map::<u64, AtlasSlot>::empty(),
            r.lost() == Set::<u64>::empty(),
            r.changes() == Seq::<AtlasChange<T>>::empty(),
            r.dynamic_textures() == Seq::<(T, AtlasSlot)>::empty(),
            atlas_allocations(r.atlas_view()) == Map::<u32, AtlasRect>::empty(),
    {
        let atlas = new_atlas(ATLAS_WIDTH as i32, ATLAS_HEIGHT as i32);
        proof {
            reveal(consistent);
        }
        Images {
            atlas,
            atlas_changes: Vec::new(),
            images: HashMap::new(),
            dynamic_textures: Vec::new(),
            lost: Ghost(Set::empty()),
        }
    }
}

/// The images left without a rectangle of their own once the rectangle
/// named under `handle`, if any, is given back to the atlas.
pub open spec fn released<T>(images: Images<T>, handle: u64) -> Set<u64> {
    if images.slots().contains_key(handle) {
        images.lost().union(sharing(images.slots(), images.slots()[handle].id))
    } else {
        images.lost()
    }
}

/// `after` is `before` with `item` placed under `handle` at `slot`.
pub open spec fn placed<T>(
    before: Images<T>,
    after: Images<T>,
    handle: u64,
    slot: AtlasSlot,
    item: Image<T>,
) -> bool {
    &&& after.slots() == before.slots().insert(handle, slot)
    &&& recorded(
        before.changes(),
        before.dynamic_textures(),
        after.changes(),
        after.dynamic_textures(),
        slot,
        item,
    )
}

/// No two images that are not lost own the same rectangle of the atlas, nor
/// overlap in it, and each owns, at the place its entry names, a rectangle
/// the atlas holds: writing one never overwrites another, and giving one
/// back never gives back another's.
pub proof fn law_images_own_distinct_rectangles<T>(images: Images<T>, a: u64, b: u64)
    requires
        images.wf(),
        images.slots().contains_key(a),
        images.slots().contains_key(b),
        !images.lost().contains(a),
        !images.lost().contains(b),
        a != b,
    ensures
        images.slots()[a].id != images.slots()[b].id,
        disjoint(rect_of(images.slots()[a]), rect_of(images.slots()[b])),
        atlas_allocations(images.atlas_view()).contains_key(images.slots()[a].id),
        atlas_allocations(images.atlas_view())[images.slots()[a].id] == rect_of(images.slots()[a]),
{
    reveal(consistent);
    let live = atlas_allocations(images.atlas_view());
    assert(disjoint(live[images.slots()[a].id], live[images.slots()[b].id]));
}

/// An image placed at a slot of its own size has exactly the item's width
/// and height, and its old rectangle is kept only when both are unchanged.
pub proof fn law_placed_image_has_item_size<T>(
    before: Images<T>,
    after: Images<T>,
    handle: u64,
    slot: AtlasSlot,
    item: Image<T>,
)
    requires
        placed(before, after, handle, slot, item),
        same_size(slot, item.width, item.height),
    ensures
        after.slots().contains_key(handle),
        after.slots()[handle].width == item.width as i32,
        after.slots()[handle].height == item.height as i32,
        before.slots().contains_key(handle) && same_size(
            before.slots()[handle],
            item.width,
            item.height,
        ) ==> before.slots()[handle].width == item.width as i32 && before.slots()[handle].height
            == item.height as i32,
{
}

/// Every lost image still has its entry.
pub proof fn law_lost_images_keep_their_entries<T>(images: Images<T>)
    requires
        images.wf(),
    ensures
        images.lost().subset_of(images.slots().dom()),
{
    reveal(consistent);
}

/// Every image lies inside the atlas, in a rectangle that is not empty.
pub proof fn law_images_lie_inside_the_atlas<T>(images: Images<T>, h: u64)
    requires
        images.wf(),
        images.slots().contains_key(h),
    ensures
        inside_atlas(images.slots()[h]),
{
    reveal(consistent);
}

/// The atlas holds no rectangle that no image owns: once every image is
/// removed, the atlas is empty again.
pub proof fn law_no_images_leave_the_atlas_empty<T>(images: Images<T>)
    requires
        images.wf(),
        images.slots() == Map::<u64, AtlasSlot>::empty(),
    ensures
        atlas_allocations(images.atlas_view()) == Map::<u32, AtlasRect>::empty(),
{
    reveal(consistent);
    let live = atlas_allocations(images.atlas_view());
    assert forall|i: u32| !live.contains_key(i) by {
        if live.contains_key(i) {
            let g = choose|g: u64| owns(images.slots(), images.lost(), g, i);
            assert(images.slots().contains_key(g));
        }
    }
    assert(live =~= Map::<u32, AtlasRect>::empty());
}

impl<T> Images<T> {
    /// Places `item` under `handle`: in the rectangle the handle already has
    /// when the size is the same, else in a new rectangle of the item's size
    /// (the old one is given back first), and records what is to be written
    /// there. When no rectangle of that size is free, nothing is placed and
    /// `false` comes back; a handle that had a rectangle is then lost. An
    /// image no larger than the atlas is always placed when the atlas holds
    /// nothing else.
    #[verifier::spinoff_prover]
    pub fn insert(&mut self, handle: u64, item: Image<T>) -> (r: bool)
        requires
            old(self).wf(),
            old(self).slots().contains_key(handle) && old(self).lost().contains(handle) && !same_size(
                old(self).slots()[handle],
                item.width,
                item.height,
            ) ==> atlas_allocations(old(self).atlas_view()).contains_key(old(self).slots()[handle].id),
        ensures
            final(self).wf(),
            ({
                let had = old(self).slots().contains_key(handle);
                let kept = had && same_size(old(self).slots()[handle], item.width, item.height);
                let fits_alone = 0 < item.width <= ATLAS_WIDTH && 0 < item.height <= ATLAS_HEIGHT;
                &&& kept ==> r && final(self).lost() == old(self).lost() && placed(
                    *old(self),
                    *final(self),
                    handle,
                    old(self).slots()[handle],
                    item,
                )
                &&& r && !kept ==> final(self).lost() == released(*old(self), handle).remove(handle)
                    && exists|slot: AtlasSlot|
                    same_size(slot, item.width, item.height) && #[trigger] placed(
                        *old(self),
                        *final(self),
                        handle,
                        slot,
                        item,
                    )
                &&& !r ==> {
                    &&& !kept
                    &&& final(self).slots() == old(self).slots()
                    &&& final(self).lost() == released(*old(self), handle)
                    &&& final(self).changes() == old(self).changes()
                    &&& final(self).dynamic_textures() == old(self).dynamic_textures()
                }
                &&& !had ==> (r <==> atlas_fits(
                    old(self).atlas_view(),
                    item.width as i32,
                    item.height as i32,
                ))
                &&& !had && atlas_allocations(old(self).atlas_view()).dom().is_empty() && fits_alone
                    ==> r
                &&& r ==> final(self).slots().contains_key(handle) && final(self).slots()[handle].width
                    == item.width as i32 && final(self).slots()[handle].height == item.height as i32
                &&& had && atlas_allocations(old(self).atlas_view()).dom() == set![
                    old(self).slots()[handle].id,
                ] && fits_alone ==> r
            }),
    {
        broadcast use vstd::std_specs::hash::group_hash_axioms;

        let w = item.width as i32;
        let h = item.height as i32;

        let existing = match self.images.get(&handle) {
            Some(slot) => Some(*slot),
            None => None,
        };
        let ghost images0 = self.images@;
        let ghost lost0 = self.lost@;
        let ghost live0 = atlas_allocations(self.atlas);
        let ghost mut fresh = true;
        let ghost mut live_mid = live0;

        let alloc = if let Some(alloc) = existing {
            if w == alloc.width && h == alloc.height {
                proof {
                    fresh = false;
                    assert(inside_atlas(alloc)) by {
                        reveal(consistent);
                    }
                }
                Some(alloc)
            } else {
                assert(live0.contains_key(alloc.id)) by {
                    reveal(consistent);
                }
                atlas_deallocate(&mut self.atlas, alloc.id);
                proof {
                    lemma_release(images0, lost0, live0, alloc.id);
                    self.lost@ = lost0.union(sharing(images0, alloc.id));
                    live_mid = atlas_allocations(self.atlas);
                    assert(sharing(images0, alloc.id).contains(handle));
                    if live0.dom() == set![alloc.id] {
                        assert(live_mid.dom() =~= Set::<u32>::empty());
                    }
                }
                atlas_allocate(&mut self.atlas, w, h)
            }
        } else {
            atlas_allocate(&mut self.atlas, w, h)
        };

        let Some(alloc) = alloc else {
            return false;
        };

        proof {
            if fresh {
                lemma_place(images0, self.lost@, live_mid, handle, alloc);
                self.lost@ = self.lost@.remove(handle);
            }
        }
        self.images.insert(handle, alloc);
        proof {
            if !fresh {
                assert(self.images@ =~= images0);
            }
            let wv = item.width;
            let hv = item.height;
            assert(wv <= 8192) by (bit_vector)
                requires
                    (wv as i32) > 0i32,
                    (wv as i32) <= 8192i32,
            ;
            assert(hv <= 8192) by (bit_vector)
                requires
                    (hv as i32) > 0i32,
                    (hv as i32) <= 8192i32,
            ;
            lemma_upload_fits(item.width, item.height);
        }

        let ghost item0 = item;
        match item.data {
            ImageData::Raw { data } => {
                let converted_data = convert_to_rgba8unorm_srgb(
                    data.as_slice(),
                    item.format,
                    item.width,
                    item.height,
                );
                let padded_data = pad_rows(converted_data, item.width, item.height);
                let ghost changes0 = self.atlas_changes@;
                self.atlas_changes.push(
                    AtlasChange::Write {
                        x: alloc.x as u32,
                        y: alloc.y as u32,
                        w: alloc.width as u32,
                        h: alloc.height as u32,
                        data: ImageData::Raw { data: padded_data },
                    },
                );
                proof {
                    assert(self.atlas_changes@.take(changes0.len() as int) =~= changes0);
                }
            },
            ImageData::Texture { texture, is_dynamic } => {
                if is_dynamic {
                    self.dynamic_textures.push((texture, alloc));
                } else {
                    self.atlas_changes.push(
                        AtlasChange::Write {
                            x: alloc.x as u32,
                            y: alloc.y as u32,
                            w: alloc.width as u32,
                            h: alloc.height as u32,
                            data: ImageData::Texture { texture, is_dynamic },
                        },
                    );
                }
            },
        }
        proof {
            assert(recorded(
                old(self).changes(),
                old(self).dynamic_textures(),
                self.changes(),
                self.dynamic_textures(),
                alloc,
                item0,
            ));
            assert(self.slots() =~= old(self).slots().insert(handle, alloc));
            assert(placed(*old(self), *self, handle, alloc, item0));
        }
        true
    }

    /// Gives back the rectangle of the image under `handle`.
    pub fn remove(&mut self, handle: u64)
        requires
            old(self).wf(),
            old(self).slots().contains_key(handle) && old(self).lost().contains(handle)
                ==> atlas_allocations(old(self).atlas_view()).contains_key(
                old(self).slots()[handle].id,
            ),
        ensures
            final(self).wf(),
            final(self).slots() == old(self).slots().remove(handle),
            final(self).lost() == released(*old(self), handle).remove(handle),
            final(self).changes() == old(self).changes(),
            final(self).dynamic_textures() == old(self).dynamic_textures(),
    {
        broadcast use vstd::std_specs::hash::group_hash_axioms;

        let ghost images0 = self.images@;
        let ghost lost0 = self.lost@;
        let ghost live0 = atlas_allocations(self.atlas);
        let Some(alloc) = self.images.remove(&handle) else {
            assert(lost0.remove(handle) =~= lost0) by {
                reveal(consistent);
            }
            assert(self.images@ =~= images0);
            return ;
        };

        assert(live0.contains_key(alloc.id)) by {
            reveal(consistent);
        }
        atlas_deallocate(&mut self.atlas, alloc.id);
        proof {
            lemma_release(images0, lost0, live0, alloc.id);
            let lost1 = lost0.union(sharing(images0, alloc.id));
            assert(sharing(images0, alloc.id).contains(handle));
            lemma_forget(images0, lost1, live0.remove(alloc.id), handle);
            self.lost@ = lost1.remove(handle);
        }
    }
    /// Where the image under `handle` lies in the atlas.
    pub fn lookup(&self, handle: u64) -> (r: Option<AtlasSlot>)
        ensures
            r == (if self.slots().contains_key(handle) {
                Some(self.slots()[handle])
            } else {
                None
            }),
    {
        broadcast use vstd::std_specs::hash::group_hash_axioms;

        match self.images.get(&handle) {
            Some(slot) => Some(*slot),
            None => None,
        }
    }

    /// Where the image under `handle`, if any, lies in the atlas.
    pub fn lookup_opt(&self, handle: Option<u64>) -> (r: Option<AtlasSlot>)
        ensures
            r == (match handle {
                Some(h) => if self.slots().contains_key(h) {
                    Some(self.slots()[h])
                } else {
                    None
                },
                None => None,
            }),
    {
        match handle {
            Some(h) => self.lookup(h),
            None => None,
        }
    }

    /// The writes recorded since the last call, leaving none.
    pub fn take_changes(&mut self) -> (r: Vec<AtlasChange<T>>)
        requires
            old(self).wf(),
        ensures
            final(self).wf(),
            r@ == old(self).changes(),
            final(self).changes() == Seq::<AtlasChange<T>>::empty(),
            final(self).slots() == old(self).slots(),
            final(self).lost() == old(self).lost(),
            final(self).dynamic_textures() == old(self).dynamic_textures(),
    {
        let mut taken: Vec<AtlasChange<T>> = Vec::new();
        std::mem::swap(&mut taken, &mut self.atlas_changes);
        taken
    }

    /// The dynamic textures and where each is copied to on every frame.
    pub fn dynamic(&self) -> (r: &[(T, AtlasSlot)])
        ensures
            r@ == self.dynamic_textures(),
    {
        self.dynamic_textures.as_slice()
    }
}

} // verus!
