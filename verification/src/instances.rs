use std::collections::HashMap;

use rand::Rng;
use vstd::prelude::*;
use vstd::std_specs::iter::IteratorSpec;

use crate::materials::{MaterialId, Materials};

verus! {

/// `rand::thread_rng().gen::<u32>()`: a random number from the thread's
/// generator; nothing is stated of it.
#[verifier::external_body]
fn random_u32() -> u32 {
    rand::thread_rng().gen()
}

/// One object of the world: a mesh with a material, placed by a transform
/// `X` (and its inverse).
#[derive(Clone, Copy, Debug)]
pub struct Instance<X> {
    pub mesh_handle: u64,
    pub material_handle: u64,
    pub transform: X,
    pub transform_inverse: X,
}

impl<X> Instance<X> {
    pub fn new(mesh_handle: u64, material_handle: u64, transform: X, transform_inverse: X) -> (r: Self)
        ensures
            r == (Instance { mesh_handle, material_handle, transform, transform_inverse }),
    {
        Self { mesh_handle, material_handle, transform, transform_inverse }
    }
}

/// An instance, with a random id, the transform it had before its last
/// update, and whether it changed since it was last refreshed.
#[derive(Clone, Copy, Debug)]
pub struct InstanceEntry<X> {
    pub instance: Instance<X>,
    pub uuid: u32,
    pub prev_transform: X,
    pub dirty: bool,
}

/// The instances of a scene, by handle.
#[derive(Debug)]
pub struct Instances<X> {
    instances: HashMap<u64, InstanceEntry<X>>,
    dirty: bool,
}

impl<X: Copy> Instances<X> {
    /// The entry of each instance.
    pub closed spec fn entries(&self) -> Map<u64, InstanceEntry<X>> {
        self.instances@
    }

    /// Whether some instance changed since the last refresh.
    pub closed spec fn is_dirty(&self) -> bool {
        self.dirty
    }

    /// Stores `item` under `handle`. An instance that was there keeps its id
    /// and remembers its transform as the previous one; a new instance gets a
    /// random id and its own transform as the previous one. Either way the
    /// instance, and the set, are marked changed.
    pub fn insert(&mut self, handle: u64, item: Instance<X>)
        ensures
            final(self).is_dirty(),
            old(self).entries().contains_key(handle) ==> final(self).entries() == old(
                self,
            ).entries().insert(
                handle,
                InstanceEntry {
                    instance: item,
                    uuid: old(self).entries()[handle].uuid,
                    prev_transform: old(self).entries()[handle].instance.transform,
                    dirty: true,
                },
            ),
            !old(self).entries().contains_key(handle) ==> exists|uuid: u32|
                #[trigger] final(self).entries() == old(self).entries().insert(
                    handle,
                    InstanceEntry { instance: item, uuid, prev_transform: item.transform, dirty: true },
                ),
    {
        broadcast use vstd::std_specs::hash::group_hash_axioms;

        match self.instances.remove(&handle) {
            Some(entry) => {
                let mut entry = entry;
                entry.prev_transform = entry.instance.transform;
                entry.instance = item;
                entry.dirty = true;
                self.instances.insert(handle, entry);
                proof {
                    assert(self.instances@ =~= old(self).instances@.insert(handle, entry));
                }
            },
            None => {
                let uuid = random_u32();
                self.instances.insert(
                    handle,
                    InstanceEntry { prev_transform: item.transform, uuid, dirty: true, instance: item },
                );
                proof {
                    assert(self.instances@ =~= old(self).instances@.insert(
                        handle,
                        InstanceEntry { instance: item, uuid, prev_transform: item.transform, dirty: true },
                    ));
                }
            },
        }

        self.dirty = true;
    }

    /// The handles of the instances, each once, in no particular order.
    pub fn handles(&self) -> (r: Vec<u64>)
        ensures
            r@.to_set() == self.entries().dom(),
            r@.no_duplicates(),
    {
        broadcast use vstd::std_specs::hash::group_hash_axioms;

        let ghost ks = vstd::std_specs::hash::spec_keys_iter(&self.instances).remaining().unref();
        let mut r: Vec<u64> = Vec::new();
        for k in it: self.instances.keys()
            invariant
                it.seq().unref() == ks,
                r@ == ks.take(it.index() as int),
        {
            r.push(*k);
            proof {
                assert(r@ =~= ks.take(it.index() + 1));
            }
        }
        proof {
            assert(r@ =~= ks);
        }
        r
    }

    /// The entry of the instance under `handle`, if any.
    pub fn get(&self, handle: u64) -> (r: Option<&InstanceEntry<X>>)
        ensures
            match r {
                Some(e) => self.entries().contains_key(handle) && *e == self.entries()[handle],
                None => !self.entries().contains_key(handle),
            },
    {
        broadcast use vstd::std_specs::hash::group_hash_axioms;

        self.instances.get(&handle)
    }

    /// Forgets the instance under `handle`; the set is marked changed when
    /// there was one.
    pub fn remove(&mut self, handle: u64)
        ensures
            final(self).entries() == old(self).entries().remove(handle),
            final(self).is_dirty() == (old(self).is_dirty() || old(self).entries().contains_key(
                handle,
            )),
    {
        broadcast use vstd::std_specs::hash::group_hash_axioms;

        let removed = self.instances.remove(&handle);
        self.dirty = self.dirty || removed.is_some();
    }

    /// Whether there is no instance.
    pub fn is_empty(&self) -> (r: bool)
        ensures
            r == (self.entries().len() == 0),
    {
        broadcast use vstd::std_specs::hash::group_hash_axioms;

        self.instances.is_empty()
    }
}

/// How the triangles of an instance are brought up to date.
#[derive(Clone, Copy, Debug, PartialEq, Eq, Structural)]
pub enum TriangleWork {
    /// The instance has as many triangles as its mesh: they are rewritten in
    /// place.
    Update,
    /// The count differs: its triangles are removed and created anew.
    Recreate,
    /// The instance has no triangles yet: they are created.
    Create,
}

/// Triangles to build for an instance, from its mesh, with its material.
#[derive(Clone, Copy, Debug, PartialEq, Eq, Structural)]
pub struct TriangleAction {
    pub instance: u64,
    pub mesh: u64,
    pub material: MaterialId,
    pub work: TriangleWork,
}

/// What refreshing the instance `handle` does, when its mesh (with its
/// triangle count) and its material are known; `None` when one of them is
/// not there yet.
pub open spec fn refresh_action<X>(
    entry: InstanceEntry<X>,
    handle: u64,
    mesh_sizes: Map<u64, usize>,
    material_ids: Map<u64, MaterialId>,
    triangle_counts: Map<u64, usize>,
) -> Option<TriangleAction> {
    let mesh = entry.instance.mesh_handle;
    let material = entry.instance.material_handle;
    if mesh_sizes.contains_key(mesh) && material_ids.contains_key(material) {
        Some(
            TriangleAction {
                instance: handle,
                mesh,
                material: material_ids[material],
                work: if !triangle_counts.contains_key(handle) {
                    TriangleWork::Create
                } else if triangle_counts[handle] == mesh_sizes[mesh] {
                    TriangleWork::Update
                } else {
                    TriangleWork::Recreate
                },
            },
        )
    } else {
        None
    }
}

/// The entry of `handle` once refreshed: unchanged unless it changed and
/// could be refreshed, in which case it is no longer marked changed.
pub open spec fn refreshed<X>(
    entries: Map<u64, InstanceEntry<X>>,
    handle: u64,
    mesh_sizes: Map<u64, usize>,
    material_ids: Map<u64, MaterialId>,
    triangle_counts: Map<u64, usize>,
) -> InstanceEntry<X> {
    let e = entries[handle];
    if e.dirty && refresh_action(e, handle, mesh_sizes, material_ids, triangle_counts) is Some {
        InstanceEntry { dirty: false, ..e }
    } else {
        e
    }
}

/// The instance `handle` changed but its mesh or material is not there yet:
/// it waits for the next refresh.
pub open spec fn waiting<X>(
    entries: Map<u64, InstanceEntry<X>>,
    handle: u64,
    mesh_sizes: Map<u64, usize>,
    material_ids: Map<u64, MaterialId>,
    triangle_counts: Map<u64, usize>,
) -> bool {
    &&& entries.contains_key(handle)
    &&& entries[handle].dirty
    &&& refresh_action(entries[handle], handle, mesh_sizes, material_ids, triangle_counts) is None
}

/// A changed instance is acted on exactly when its mesh and its material are
/// there; the action names the instance, its mesh and its material's id, and
/// creates its triangles when it has none, rewrites them in place exactly
/// when it has as many as its mesh, and recreates them whenever the counts
/// differ, in either direction.
pub proof fn law_refresh_work<X>(
    entry: InstanceEntry<X>,
    handle: u64,
    mesh_sizes: Map<u64, usize>,
    material_ids: Map<u64, MaterialId>,
    triangle_counts: Map<u64, usize>,
)
    ensures
        ({
            let mesh = entry.instance.mesh_handle;
            let material = entry.instance.material_handle;
            let a = refresh_action(entry, handle, mesh_sizes, material_ids, triangle_counts);
            &&& a is Some <==> mesh_sizes.contains_key(mesh) && material_ids.contains_key(material)
            &&& a is Some ==> {
                &&& a.unwrap().instance == handle
                &&& a.unwrap().mesh == mesh
                &&& a.unwrap().material == material_ids[material]
                &&& !triangle_counts.contains_key(handle) ==> a.unwrap().work == TriangleWork::Create
                &&& triangle_counts.contains_key(handle) ==> (a.unwrap().work == TriangleWork::Update
                    <==> triangle_counts[handle] == mesh_sizes[mesh])
                &&& triangle_counts.contains_key(handle) ==> (a.unwrap().work
                    == TriangleWork::Recreate <==> triangle_counts[handle] != mesh_sizes[mesh])
            }
        }),
{
}

impl<X: Copy> Instances<X> {
    /// Decides how to bring the triangles of the changed instances up to
    /// date. Nothing happens, and `false` comes back, when no instance
    /// changed since the last refresh. Otherwise each changed instance whose
    /// mesh (`mesh_sizes`: triangles per mesh) and material are there gets
    /// one action, by how many triangles it has now (`triangle_counts`), and
    /// is no longer marked changed; the others stay marked, and so does the
    /// set, to be tried again.
    pub fn refresh<M>(
        &mut self,
        mesh_sizes: &HashMap<u64, usize>,
        materials: &Materials<M>,
        triangle_counts: &HashMap<u64, usize>,
    ) -> (r: (bool, Vec<TriangleAction>))
        ensures
            !old(self).is_dirty() ==> {
                &&& !r.0
                &&& r.1@ == Seq::<TriangleAction>::empty()
                &&& final(self).entries() == old(self).entries()
                &&& !final(self).is_dirty()
            },
            old(self).is_dirty() ==> {
                let e = old(self).entries();
                let act = |h: u64|
                    refresh_action(e[h], h, mesh_sizes@, materials.ids(), triangle_counts@);
                &&& r.0
                &&& final(self).entries().dom() == e.dom()
                &&& forall|h: u64| #[trigger]
                    e.contains_key(h) ==> final(self).entries()[h] == refreshed(
                        e,
                        h,
                        mesh_sizes@,
                        materials.ids(),
                        triangle_counts@,
                    )
                &&& final(self).is_dirty() == exists|h: u64| #[trigger]
                    waiting(e, h, mesh_sizes@, materials.ids(), triangle_counts@)
                &&& forall|i: int|
                    0 <= i < r.1@.len() ==> {
                        let h = #[trigger] r.1@[i].instance;
                        &&& e.contains_key(h)
                        &&& e[h].dirty
                        &&& act(h) == Some(r.1@[i])
                    }
                &&& forall|h: u64| #[trigger]
                    e.contains_key(h) && e[h].dirty && act(h) is Some ==> r.1@.contains(
                        act(h).unwrap(),
                    )
                &&& forall|i: int, j: int|
                    0 <= i < j < r.1@.len() ==> #[trigger] r.1@[i].instance != #[trigger] r.1@[j].instance
            },
    {
        broadcast use vstd::std_specs::hash::group_hash_axioms;

        if !self.dirty {
            return (false, Vec::new());
        }
        self.dirty = false;

        let ghost e = self.instances@;
        let ghost ms = mesh_sizes@;
        let ghost mi = materials.ids();
        let ghost tc = triangle_counts@;
        let handles = self.handles();
        let mut actions: Vec<TriangleAction> = Vec::new();
        let mut k: usize = 0;
        while k < handles.len()
            invariant
                k <= handles.len(),
                handles@.to_set() == e.dom(),
                handles@.no_duplicates(),
                ms == mesh_sizes@,
                mi == materials.ids(),
                tc == triangle_counts@,
                self.instances@.dom() == e.dom(),
                forall|h: u64| #[trigger]
                    self.instances@.contains_key(h) ==> self.instances@[h] == if handles@.take(
                        k as int,
                    ).contains(h) {
                        refreshed(e, h, ms, mi, tc)
                    } else {
                        e[h]
                    },
                self.dirty == exists|h: u64|
                    handles@.take(k as int).contains(h) && #[trigger] waiting(e, h, ms, mi, tc),
                forall|i: int|
                    0 <= i < actions@.len() ==> {
                        let h = #[trigger] actions@[i].instance;
                        &&& handles@.take(k as int).contains(h)
                        &&& e.contains_key(h)
                        &&& e[h].dirty
                        &&& refresh_action(e[h], h, ms, mi, tc) == Some(actions@[i])
                    },
                forall|h: u64| #[trigger]
                    handles@.take(k as int).contains(h) && e.contains_key(h) && e[h].dirty
                        && refresh_action(e[h], h, ms, mi, tc) is Some ==> actions@.contains(
                        refresh_action(e[h], h, ms, mi, tc).unwrap(),
                    ),
                forall|i: int, j: int|
                    0 <= i < j < actions@.len() ==> #[trigger] actions@[i].instance
                        != #[trigger] actions@[j].instance,
            decreases handles.len() - k,
        {
            let h = handles[k];
            let ghost before = handles@.take(k as int);
            let ghost after = handles@.take(k + 1);
            proof {
                assert(handles@.to_set().contains(h));
                assert(!before.contains(h)) by {
                    if before.contains(h) {
                        let j = choose|j: int| 0 <= j < k && before[j] == h;
                        assert(handles@[j] == handles@[k as int]);
                    }
                }
                assert forall|g: u64| #[trigger] after.contains(g) <==> (before.contains(g) || g == h) by {
                    if after.contains(g) {
                        let j = choose|j: int| 0 <= j < after.len() && after[j] == g;
                        if j < k {
                            assert(before[j] == g);
                        }
                    }
                    if before.contains(g) {
                        let j = choose|j: int| 0 <= j < before.len() && before[j] == g;
                        assert(after[j] == g);
                    }
                    if g == h {
                        assert(after[k as int] == g);
                    }
                }
            }
            let entry = *self.instances.get(&h).unwrap();
            let ghost actions0 = actions@;
            let ghost dirty0 = self.dirty;
            if entry.dirty {
                let size = mesh_sizes.get(&entry.instance.mesh_handle);
                let material = materials.lookup(entry.instance.material_handle);
                match (size, material) {
                    (Some(size), Some(material_id)) => {
                        let work = match triangle_counts.get(&h) {
                            Some(count) => if *count == *size {
                                TriangleWork::Update
                            } else {
                                TriangleWork::Recreate
                            },
                            None => TriangleWork::Create,
                        };
                        let action = TriangleAction {
                            instance: h,
                            mesh: entry.instance.mesh_handle,
                            material: material_id,
                            work,
                        };
                        actions.push(action);
                        self.instances.insert(h, InstanceEntry { dirty: false, ..entry });
                        proof {
                            assert(refresh_action(e[h], h, ms, mi, tc) == Some(action));
                            assert(actions@[actions0.len() as int] == action);
                        }
                    },
                    _ => {
                        self.dirty = true;
                        proof {
                            assert(waiting(e, h, ms, mi, tc));
                            assert(after.contains(h));
                        }
                    },
                }
            }
            k += 1;
            proof {
                assert forall|g: u64| after.contains(g) && #[trigger] waiting(e, g, ms, mi, tc) implies self.dirty by {
                    if g != h {
                        assert(before.contains(g));
                    }
                }
                if dirty0 {
                    let g = choose|g: u64| before.contains(g) && #[trigger] waiting(e, g, ms, mi, tc);
                    assert(after.contains(g));
                }
                assert forall|i: int| 0 <= i < actions@.len() implies #[trigger] after.contains(actions@[i].instance) by {
                    if i < actions0.len() {
                        assert(actions@[i] == actions0[i]);
                    }
                }
                assert forall|g: u64| #[trigger]
                    after.contains(g) && e.contains_key(g) && e[g].dirty
                        && refresh_action(e[g], g, ms, mi, tc) is Some implies actions@.contains(
                        refresh_action(e[g], g, ms, mi, tc).unwrap(),
                    ) by {
                    if g != h {
                        assert(before.contains(g));
                        let i = choose|i: int| 0 <= i < actions0.len() && actions0[i] == refresh_action(e[g], g, ms, mi, tc).unwrap();
                        assert(actions@[i] == actions0[i]);
                    } else {
                        assert(actions@[actions0.len() as int] == refresh_action(e[g], g, ms, mi, tc).unwrap());
                    }
                }
            }
        }
        proof {
            assert(handles@.take(k as int) =~= handles@);
            assert forall|g: u64| handles@.contains(g) <==> e.contains_key(g) by {
                assert(handles@.to_set().contains(g) <==> handles@.contains(g));
            }
        }
        (true, actions)
    }
}

impl<X: Copy> Default for Instances<X> {
    fn default() -> (r: Self)
        ensures
            r.entries() == Map::<u64, InstanceEntry<X>>::empty(),
            !r.is_dirty(),
    {
        Instances { instances: HashMap::new(), dirty: false }
    }
}

} // verus!
