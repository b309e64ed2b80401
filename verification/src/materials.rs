use std::collections::HashMap;
use std::ops::Range;

use vstd::prelude::*;

use crate::allocator::{
    law_compaction_keeps_free_slots, law_give_adds_free_slots, law_refused_take_keeps_free_slots,
    Allocator,
};
use crate::free_list::{compacted, free_units, no_fit, range_len, ranges_well_formed, take_outcome};

verus! {

/// Index of a material in the materials buffer that the GPU reads.
#[derive(Clone, Copy, Debug, PartialEq, Eq, Structural)]
pub struct MaterialId(pub u32);

impl MaterialId {
    pub fn new(id: u32) -> (r: Self)
        ensures
            r.0 == id,
    {
        Self(id)
    }

    pub fn get(&self) -> (r: u32)
        ensures
            r == self.0,
    {
        self.0
    }
}

/// The materials of a scene, each under the handle it was inserted with and
/// at the index the GPU knows it by.
#[derive(Debug)]
pub struct Materials<M> {
    allocator: Allocator,
    index: HashMap<u64, MaterialId>,
    materials: Vec<M>,
}

impl<M> Materials<M> {
    /// Which handle has which material id.
    pub closed spec fn ids(&self) -> Map<u64, MaterialId> {
        self.index@
    }

    /// The materials, by id.
    pub closed spec fn items(&self) -> Seq<M> {
        self.materials@
    }

    /// Every handle has the id of a stored material, no two handles share an
    /// id, and no id is free to be handed out again: ids given back are
    /// empty ranges, which never serve a request.
    pub closed spec fn wf(&self) -> bool {
        &&& forall|h: u64| #[trigger]
            self.index@.contains_key(h) ==> self.index@[h].0 < self.materials@.len()
        &&& forall|h: u64, g: u64|
            #![trigger self.index@[h], self.index@[g]]
            self.index@.contains_key(h) && self.index@.contains_key(g) && h != g
                ==> self.index@[h] != self.index@[g]
        &&& ranges_well_formed(self.allocator.free_slots())
        &&& free_units(self.allocator.free_slots()) == Set::<int>::empty()
    }

    pub fn new() -> (r: Self)
        ensures
            r.wf(),
            r.ids() == Map::<u64, MaterialId>::empty(),
            r.items() == Seq::<M>::empty(),
    {
        let r = Materials { allocator: Allocator::default(), index: HashMap::new(), materials: Vec::new() };
        proof {
            assert(free_units(r.allocator.free_slots()) =~= Set::<int>::empty());
        }
        r
    }

    /// Stores `item` under `handle`: in place of the material the handle
    /// already has, or at a new id, after all the others.
    pub fn insert(&mut self, handle: u64, item: M)
        requires
            old(self).wf(),
            old(self).items().len() < u32::MAX,
        ensures
            final(self).wf(),
            old(self).ids().contains_key(handle) ==> {
                &&& final(self).ids() == old(self).ids()
                &&& final(self).items() == old(self).items().update(
                    old(self).ids()[handle].0 as int,
                    item,
                )
            },
            !old(self).ids().contains_key(handle) ==> {
                &&& final(self).ids() == old(self).ids().insert(
                    handle,
                    MaterialId(old(self).items().len() as u32),
                )
                &&& final(self).items() == old(self).items().push(item)
            },
            final(self).ids().dom() == after_change(old(self).ids().dom(), MaterialChange::Insert(handle)),
    {
        broadcast use vstd::std_specs::hash::group_hash_axioms;

        match self.index.get(&handle) {
            Some(id) => {
                let id = *id;
                self.materials.set(id.get() as usize, item);
            },
            None => {
                let ghost before = self.allocator.free_slots();
                let ghost dirty = self.allocator.is_dirty();
                let taken = self.allocator.take(1);
                proof {
                    lemma_no_free_slot_refuses(before, dirty, taken, self.allocator.free_slots());
                }
                let id = if let Some(alloc) = taken {
                    alloc.start
                } else {
                    self.materials.push(item);
                    self.materials.len() - 1
                };

                self.index.insert(handle, MaterialId::new(id as u32));
                proof {
                    assert forall|h: u64, g: u64|
                        #![trigger self.index@[h], self.index@[g]]
                        self.index@.contains_key(h) && self.index@.contains_key(g) && h != g
                            implies self.index@[h] != self.index@[g] by {
                        if h != handle && g != handle {
                            assert(old(self).index@[h] != old(self).index@[g]);
                        } else if h == handle {
                            assert(old(self).index@.contains_key(g));
                        } else {
                            assert(old(self).index@.contains_key(h));
                        }
                    }
                }
            },
        }
    }

    /// Whether a material is stored under `handle`.
    pub fn has(&self, handle: u64) -> (r: bool)
        ensures
            r == self.ids().contains_key(handle),
    {
        broadcast use vstd::std_specs::hash::group_hash_axioms;

        self.index.contains_key(&handle)
    }

    /// Forgets the material under `handle`; its id is not handed out again.
    pub fn remove(&mut self, handle: u64)
        requires
            old(self).wf(),
        ensures
            final(self).wf(),
            final(self).ids() == old(self).ids().remove(handle),
            final(self).items() == old(self).items(),
            final(self).ids().dom() == after_change(old(self).ids().dom(), MaterialChange::Remove(handle)),
    {
        broadcast use vstd::std_specs::hash::group_hash_axioms;

        let Some(id) = self.index.remove(&handle) else {
            return ;
        };

        let id = id.get() as usize;

        let ghost before = self.allocator.free_slots();
        self.allocator.give(id..id);
        proof {
            law_give_adds_free_slots(before, id..id);
            assert(free_units(self.allocator.free_slots()) =~= Set::<int>::empty());
        }
    }

    /// The id of the material under `handle`, if there is one; it names a
    /// stored material.
    pub fn lookup(&self, handle: u64) -> (r: Option<MaterialId>)
        ensures
            r == (if self.ids().contains_key(handle) {
                Some(self.ids()[handle])
            } else {
                None
            }),
            self.wf() ==> (r matches Some(id) ==> id.0 < self.items().len()),
    {
        broadcast use vstd::std_specs::hash::group_hash_axioms;

        match self.index.get(&handle) {
            Some(id) => Some(*id),
            None => None,
        }
    }

    /// The material with id `index`.
    pub fn index(&self, index: MaterialId) -> (r: &M)
        requires
            index.0 < self.items().len(),
        ensures
            *r == self.items()[index.0 as int],
    {
        &self.materials[index.get() as usize]
    }

}

/// Ids are never handed out twice: the id a new handle gets is the number of
/// materials stored so far, which no handle holds.
pub proof fn law_new_material_id_is_unused<M>(materials: Materials<M>, handle: u64)
    requires
        materials.wf(),
        !materials.ids().contains_key(handle),
    ensures
        forall|h: u64| #[trigger]
            materials.ids().contains_key(h) ==> materials.ids()[h].0 < materials.items().len(),
{
}

/// A call that changes which handles have a material.
#[derive(Clone, Copy, Debug, PartialEq, Eq, Structural)]
pub enum MaterialChange {
    Insert(u64),
    Remove(u64),
}

/// The handles with a material after `change`, as `insert` and `remove`
/// leave them.
pub open spec fn after_change(handles: Set<u64>, change: MaterialChange) -> Set<u64> {
    match change {
        MaterialChange::Insert(h) => handles.insert(h),
        MaterialChange::Remove(h) => handles.remove(h),
    }
}

/// Whether the last of `changes` that names `handle` inserts (`Some(true)`)
/// or removes (`Some(false)`); `None` when none names it.
pub open spec fn last_change(changes: Seq<MaterialChange>, handle: u64) -> Option<bool>
    decreases changes.len(),
{
    if changes.len() == 0 {
        None
    } else {
        match changes.last() {
            MaterialChange::Insert(h) => if h == handle {
                Some(true)
            } else {
                last_change(changes.drop_last(), handle)
            },
            MaterialChange::Remove(h) => if h == handle {
                Some(false)
            } else {
                last_change(changes.drop_last(), handle)
            },
        }
    }
}

/// After a run of `insert` and `remove` calls, a handle has a material
/// exactly when the last call that named it was an insert; with no such
/// call, exactly when it had one before; calls for other handles do not
/// matter. `states[i]` is the materials before the `i`-th call.
pub proof fn law_material_present_after_last_insert<M>(
    states: Seq<Materials<M>>,
    changes: Seq<MaterialChange>,
    handle: u64,
)
    requires
        states.len() == changes.len() + 1,
        forall|i: int|
            0 < i < states.len() ==> #[trigger] states[i].ids().dom() == after_change(
                states[i - 1].ids().dom(),
                changes[i - 1],
            ),
    ensures
        states.last().ids().contains_key(handle) == match last_change(changes, handle) {
            Some(inserted) => inserted,
            None => states[0].ids().contains_key(handle),
        },
    decreases changes.len(),
{
    if changes.len() > 0 {
        let n = changes.len() as int;
        let prefix = states.drop_last();
        assert forall|i: int| 0 < i < prefix.len() implies #[trigger] prefix[i].ids().dom() == after_change(
            prefix[i - 1].ids().dom(),
            changes.drop_last()[i - 1],
        ) by {
            assert(states[i].ids().dom() == after_change(states[i - 1].ids().dom(), changes[i - 1]));
        }
        law_material_present_after_last_insert(prefix, changes.drop_last(), handle);
        assert(states[n].ids().dom() == after_change(states[n - 1].ids().dom(), changes[n - 1]));
        assert(prefix.last() == states[n - 1]);
    }
}

/// A request for one slot from a free list that holds no free slot is
/// refused and leaves it without free slots.
proof fn lemma_no_free_slot_refuses(
    before: Seq<Range<usize>>,
    dirty: bool,
    taken: Option<Range<usize>>,
    after: Seq<Range<usize>>,
)
    requires
        ranges_well_formed(before),
        free_units(before) == Set::<int>::empty(),
        take_outcome(before, dirty, 1, taken, after),
    ensures
        taken is None,
        ranges_well_formed(after),
        free_units(after) == Set::<int>::empty(),
{
    let c = compacted(before, dirty);
    law_compaction_keeps_free_slots(before, dirty);
    crate::free_list::lemma_compacted(before, dirty);
    assert forall|j: int| 0 <= j < c.len() implies range_len(c[j]) < 1 by {
        if c[j].start < c[j].end {
            assert(free_units(c).contains(c[j].start as int)) by {
                assert(crate::free_list::range_units(c[j]).contains(c[j].start as int));
            }
        }
    }
    assert(no_fit(c, 1));
    law_refused_take_keeps_free_slots(before, dirty, 1, after);
}

} // verus!
