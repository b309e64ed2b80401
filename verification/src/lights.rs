use std::collections::{HashMap, HashSet};

use vstd::prelude::*;
use vstd::std_specs::iter::IteratorSpec;

verus! {

/// A light as the GPU reads it: its current data and, for lights that were
/// updated, the data of the previous frame. `V` is the four-component
/// vector the data is made of.
#[derive(Clone, Copy, Debug)]
pub struct GpuLight<V> {
    pub d0: V,
    pub d1: V,
    pub d2: V,
    pub d3: V,
    pub prev_d0: V,
    pub prev_d1: V,
    pub prev_d2: V,
}

/// `new` with the data `old` had, as its previous data.
pub open spec fn with_previous<V>(new: GpuLight<V>, old: GpuLight<V>) -> GpuLight<V> {
    GpuLight { prev_d0: old.d0, prev_d1: old.d1, prev_d2: old.d2, ..new }
}

/// `ids` once the light at `removed` is gone: every light after it moves one
/// slot down.
pub open spec fn shifted_down(ids: Map<u64, u32>, removed: u32) -> Map<u64, u32> {
    Map::new(
        |h: u64| ids.contains_key(h),
        |h: u64| if ids[h] > removed { (ids[h] - 1) as u32 } else { ids[h] },
    )
}

/// `remapped` once the lights after `removed` have moved down: each moved
/// light remembers the slot it had before its first move since the last
/// flush.
pub open spec fn remember_moves(remapped: Map<u64, u32>, ids: Map<u64, u32>, removed: u32) -> Map<
    u64,
    u32,
> {
    Map::new(
        |h: u64| remapped.contains_key(h) || (ids.contains_key(h) && ids[h] > removed),
        |h: u64| if remapped.contains_key(h) { remapped[h] } else { ids[h] },
    )
}

/// The lights of a scene. Slot 0 of the buffer holds the sun; the lights
/// added under handles fill the slots from 1 on, without gaps, in the order
/// they were added. Changes since the last flush are tracked so that the GPU
/// can follow lights that moved or went away.
pub struct Lights<V> {
    buffer: Vec<GpuLight<V>>,
    index: HashMap<u64, u32>,
    created: HashSet<u64>,
    updated: HashSet<u64>,
    sun_updated: bool,
    remapped: HashMap<u64, u32>,
    killed: HashSet<u32>,
    next_light_id: u32,
}

impl<V: Copy + Default> Lights<V> {
    /// The lights, by slot.
    pub closed spec fn lights(&self) -> Seq<GpuLight<V>> {
        self.buffer@
    }

    /// The slot of each light added under a handle.
    pub closed spec fn ids(&self) -> Map<u64, u32> {
        self.index@
    }

    /// Lights added since the last flush.
    pub closed spec fn created_set(&self) -> Set<u64> {
        self.created@
    }

    /// Lights updated since the last flush.
    pub closed spec fn updated_set(&self) -> Set<u64> {
        self.updated@
    }

    /// Whether the sun was updated since the last flush.
    pub closed spec fn sun_was_updated(&self) -> bool {
        self.sun_updated
    }

    /// For each light that moved since the last flush, the slot it had.
    pub closed spec fn remapped_map(&self) -> Map<u64, u32> {
        self.remapped@
    }

    /// Slots whose light went away since the last flush.
    pub closed spec fn killed_set(&self) -> Set<u32> {
        self.killed@
    }

    /// Number of slots in use, the sun's included.
    pub closed spec fn count(&self) -> u32 {
        self.next_light_id
    }

    /// The sun and every added light have a slot in the buffer; added lights
    /// have distinct slots after the sun's and before the first unused one,
    /// and there are as many of them as such slots.
    pub closed spec fn wf(&self) -> bool {
        &&& 1 <= self.next_light_id <= self.buffer@.len()
        &&& self.index@.len() + 1 == self.next_light_id
        &&& forall|h: u64| #[trigger]
            self.index@.contains_key(h) ==> 1 <= self.index@[h] < self.next_light_id
        &&& forall|h: u64, g: u64|
            #![trigger self.index@[h], self.index@[g]]
            self.index@.contains_key(h) && self.index@.contains_key(g) && h != g ==> self.index@[h]
                != self.index@[g]
        &&& self.created@.subset_of(self.index@.dom())
        &&& self.updated@.subset_of(self.index@.dom())
        &&& self.remapped@.dom().subset_of(self.index@.dom())
        &&& forall|h: u64| #[trigger]
            self.remapped@.contains_key(h) ==> self.remapped@[h] < self.buffer@.len()
        &&& forall|s: u32| #[trigger] self.killed@.contains(s) ==> s < self.buffer@.len()
    }

    /// Lights holding only `sun`, in slot 0.
    pub fn new(sun: GpuLight<V>) -> (r: Self)
        ensures
            r.wf(),
            r.lights() == seq![sun],
            r.ids() == Map::<u64, u32>::empty(),
            r.count() == 1,
            r.created_set() == Set::<u64>::empty(),
            r.updated_set() == Set::<u64>::empty(),
            !r.sun_was_updated(),
            r.remapped_map() == Map::<u64, u32>::empty(),
            r.killed_set() == Set::<u32>::empty(),
    {
        let mut buffer = Vec::new();
        buffer.push(sun);
        Lights {
            buffer,
            index: HashMap::new(),
            created: HashSet::new(),
            updated: HashSet::new(),
            sun_updated: false,
            remapped: HashMap::new(),
            killed: HashSet::new(),
            next_light_id: 1,
        }
    }

    /// Number of slots in use, the sun's included.
    pub fn len(&self) -> (r: u32)
        ensures
            r == self.count(),
    {
        self.next_light_id
    }
}


impl<V: Copy + Default> Lights<V> {
    /// Stores `item` under `handle`: over the light the handle already has,
    /// keeping that light's data as the previous data, or in the first unused
    /// slot.
    pub fn insert(&mut self, handle: u64, item: GpuLight<V>)
        requires
            old(self).wf(),
            old(self).count() < u32::MAX,
        ensures
            final(self).wf(),
            final(self).sun_was_updated() == old(self).sun_was_updated(),
            final(self).remapped_map() == old(self).remapped_map(),
            final(self).killed_set() == old(self).killed_set(),
            old(self).ids().contains_key(handle) ==> {
                let id = old(self).ids()[handle];
                &&& final(self).ids() == old(self).ids()
                &&& final(self).lights() == old(self).lights().update(
                    id as int,
                    with_previous(item, old(self).lights()[id as int]),
                )
                &&& final(self).lights()[id as int].prev_d0 == old(self).lights()[id as int].d0
                &&& final(self).lights()[id as int].prev_d1 == old(self).lights()[id as int].d1
                &&& final(self).lights()[id as int].prev_d2 == old(self).lights()[id as int].d2
                &&& final(self).lights()[id as int].d0 == item.d0
                &&& final(self).updated_set() == old(self).updated_set().insert(handle)
                &&& final(self).created_set() == old(self).created_set()
                &&& final(self).count() == old(self).count()
            },
            !old(self).ids().contains_key(handle) ==> {
                let id = old(self).count();
                &&& final(self).ids() == old(self).ids().insert(handle, id)
                &&& final(self).lights() == if id < old(self).lights().len() {
                    old(self).lights().update(id as int, item)
                } else {
                    old(self).lights().push(item)
                }
                &&& final(self).created_set() == old(self).created_set().insert(handle)
                &&& final(self).updated_set() == old(self).updated_set()
                &&& final(self).count() == old(self).count() + 1
            },
    {
        broadcast use vstd::std_specs::hash::group_hash_axioms;

        let existing = match self.index.get(&handle) {
            Some(id) => Some(*id),
            None => None,
        };
        match existing {
            Some(id) => {
                self.update(id as usize, Some(handle), item);
            },
            None => {
                let next = self.next_light_id;
                if (next as usize) < self.buffer.len() {
                    self.buffer.set(next as usize, item);
                    self.index.insert(handle, next);
                } else {
                    let id = self.buffer.len() as u32;

                    self.buffer.push(item);
                    self.index.insert(handle, id);
                }

                self.created.insert(handle);
                self.next_light_id = self.next_light_id + 1;
                proof {
                    assert forall|h: u64, g: u64|
                        #![trigger self.index@[h], self.index@[g]]
                        self.index@.contains_key(h) && self.index@.contains_key(g) && h != g
                            implies self.index@[h] != self.index@[g] by {
                        if h != handle && g != handle {
                            assert(old(self).index@[h] != old(self).index@[g]);
                        } else if h == handle {
                            assert(old(self).index@.contains_key(g));
                        } else {
                            assert(old(self).index@.contains_key(h));
                        }
                    }
                }
            },
        }
    }

    /// Replaces the sun's light, keeping its data as the previous data.
    pub fn update_sun(&mut self, sun: GpuLight<V>)
        requires
            old(self).wf(),
        ensures
            final(self).wf(),
            final(self).lights() == old(self).lights().update(
                0,
                with_previous(sun, old(self).lights()[0]),
            ),
            final(self).lights()[0].prev_d0 == old(self).lights()[0].d0,
            final(self).lights()[0].prev_d1 == old(self).lights()[0].d1,
            final(self).lights()[0].prev_d2 == old(self).lights()[0].d2,
            final(self).sun_was_updated(),
            final(self).ids() == old(self).ids(),
            final(self).count() == old(self).count(),
            final(self).created_set() == old(self).created_set(),
            final(self).updated_set() == old(self).updated_set(),
            final(self).remapped_map() == old(self).remapped_map(),
            final(self).killed_set() == old(self).killed_set(),
    {
        self.update(0, None, sun);
    }

    /// Writes `new` into slot `idx`, with the data that was there as its
    /// previous data, and notes the light (`None` for the sun) as updated.
    fn update(&mut self, idx: usize, handle: Option<u64>, new: GpuLight<V>)
        requires
            old(self).wf(),
            idx < old(self).lights().len(),
            handle matches Some(h) ==> old(self).ids().contains_key(h),
        ensures
            final(self).wf(),
            final(self).lights() == old(self).lights().update(
                idx as int,
                with_previous(new, old(self).lights()[idx as int]),
            ),
            final(self).ids() == old(self).ids(),
            final(self).count() == old(self).count(),
            final(self).created_set() == old(self).created_set(),
            final(self).remapped_map() == old(self).remapped_map(),
            final(self).killed_set() == old(self).killed_set(),
            match handle {
                Some(h) => final(self).updated_set() == old(self).updated_set().insert(h)
                    && final(self).sun_was_updated() == old(self).sun_was_updated(),
                None => final(self).updated_set() == old(self).updated_set()
                    && final(self).sun_was_updated(),
            },
    {
        broadcast use vstd::std_specs::hash::group_hash_axioms;

        let old_light = self.buffer[idx];
        let mut new = new;

        new.prev_d0 = old_light.d0;
        new.prev_d1 = old_light.d1;
        new.prev_d2 = old_light.d2;

        match handle {
            Some(h) => {
                self.updated.insert(h);
            },
            None => {
                self.sun_updated = true;
            },
        }
        self.buffer.set(idx, new);
    }
}


/// Moves every light after slot `removed` one slot down, noting for each
/// moved light the slot it had unless a move was already noted for it.
fn shift_down(index: &mut HashMap<u64, u32>, remapped: &mut HashMap<u64, u32>, removed: u32)
    requires
        forall|h: u64| #[trigger] old(index)@.contains_key(h) ==> old(index)@[h] != removed,
    ensures
        final(index)@ == shifted_down(old(index)@, removed),
        final(remapped)@ == remember_moves(old(remapped)@, old(index)@, removed),
{
    broadcast use vstd::std_specs::hash::group_hash_axioms;

    let ghost ids0 = index@;
    let ghost remapped0 = remapped@;
    let handles = handles_of(index);
    let mut k: usize = 0;
    while k < handles.len()
        invariant
            k <= handles.len(),
            handles@.to_set() == ids0.dom(),
            handles@.no_duplicates(),
            forall|h: u64| #[trigger] ids0.contains_key(h) ==> ids0[h] != removed,
            index@.dom() == ids0.dom(),
            forall|h: u64| #[trigger]
                index@.contains_key(h) ==> index@[h] == if handles@.take(k as int).contains(h) {
                    shifted_down(ids0, removed)[h]
                } else {
                    ids0[h]
                },
            forall|h: u64| #[trigger]
                remapped@.contains_key(h) <==> (remapped0.contains_key(h) || (handles@.take(
                    k as int,
                ).contains(h) && ids0[h] > removed)),
            forall|h: u64| #[trigger]
                remapped@.contains_key(h) ==> remapped@[h] == if remapped0.contains_key(h) {
                    remapped0[h]
                } else {
                    ids0[h]
                },
        decreases handles.len() - k,
    {
        let h = handles[k];
        proof {
            assert(handles@.to_set().contains(h));
            assert(!handles@.take(k as int).contains(h)) by {
                if handles@.take(k as int).contains(h) {
                    let j = choose|j: int| 0 <= j < k && handles@.take(k as int)[j] == h;
                    assert(handles@[j] == handles@[k as int]);
                }
            }
            let before = handles@.take(k as int);
            let after = handles@.take(k + 1);
            assert forall|g: u64| #[trigger] after.contains(g) <==> (before.contains(g) || g == h) by {
                if after.contains(g) {
                    let j = choose|j: int| 0 <= j < after.len() && after[j] == g;
                    if j < k {
                        assert(before[j] == g);
                    }
                }
                if before.contains(g) {
                    let j = choose|j: int| 0 <= j < before.len() && before[j] == g;
                    assert(after[j] == g);
                }
                if g == h {
                    assert(after[k as int] == g);
                }
            }
        }
        let other_id = *index.get(&h).unwrap();
        if other_id > removed {
            if !remapped.contains_key(&h) {
                remapped.insert(h, other_id);
            }
            index.insert(h, other_id - 1);
        }
        k += 1;
    }
    proof {
        assert(handles@.take(handles@.len() as int) =~= handles@);
        assert forall|h: u64| handles@.contains(h) <==> ids0.contains_key(h) by {
            assert(handles@.to_set().contains(h) <==> handles@.contains(h));
        }
        assert(index@ =~= shifted_down(ids0, removed));
        assert(remapped@ =~= remember_moves(remapped0, ids0, removed));
    }
}

/// The handles of `map`, each once, in the order the map walks them.
fn handles_of(map: &HashMap<u64, u32>) -> (r: Vec<u64>)
    ensures
        r@.to_set() == map@.dom(),
        r@.no_duplicates(),
{
    broadcast use vstd::std_specs::hash::group_hash_axioms;

    let ghost ks = vstd::std_specs::hash::spec_keys_iter(map).remaining().unref();
    let mut r: Vec<u64> = Vec::new();
    for k in it: map.keys()
        invariant
            it.seq().unref() == ks,
            r@ == ks.take(it.index() as int),
    {
        r.push(*k);
        proof {
            assert(r@ =~= ks.take(it.index() + 1));
        }
    }
    proof {
        assert(r@.len() == ks.len());
        assert(r@ =~= ks);
    }
    r
}


/// Every vector of `light`, current and previous, is `v`.
pub open spec fn filled_with<V>(light: GpuLight<V>, v: V) -> bool {
    light == (GpuLight { d0: v, d1: v, d2: v, d3: v, prev_d0: v, prev_d1: v, prev_d2: v })
}

/// A light with default data: what fills the last slot when a light goes
/// away. Every one of its vectors is `V`'s default value.
fn blank_light<V: Copy + Default>() -> (r: GpuLight<V>)
    ensures
        filled_with(r, r.d0),
        call_ensures(V::default, (), r.d0),
{
    let v = V::default();
    GpuLight { d0: v, d1: v, d2: v, d3: v, prev_d0: v, prev_d1: v, prev_d2: v }
}

impl<V: Copy + Default> Lights<V> {
    /// Forgets the light under `handle`: the lights after it move one slot
    /// down (noting the slot they had), its slot is noted as gone, and the
    /// last slot gets default data: `V`'s default in each of its vectors.
    pub fn remove(&mut self, handle: u64)
        requires
            old(self).wf(),
        ensures
            final(self).wf(),
            final(self).sun_was_updated() == old(self).sun_was_updated(),
            !old(self).ids().contains_key(handle) ==> {
                &&& final(self).ids() == old(self).ids()
                &&& final(self).lights() == old(self).lights()
                &&& final(self).count() == old(self).count()
                &&& final(self).created_set() == old(self).created_set()
                &&& final(self).updated_set() == old(self).updated_set()
                &&& final(self).remapped_map() == old(self).remapped_map()
                &&& final(self).killed_set() == old(self).killed_set()
            },
            old(self).ids().contains_key(handle) ==> {
                let id = old(self).ids()[handle];
                let others = old(self).ids().remove(handle);
                &&& final(self).ids() == shifted_down(others, id)
                &&& final(self).lights().len() == old(self).lights().len()
                &&& final(self).lights().drop_last() == old(self).lights().remove(id as int)
                &&& filled_with(final(self).lights().last(), final(self).lights().last().d0)
                &&& call_ensures(V::default, (), final(self).lights().last().d0)
                &&& final(self).count() == old(self).count() - 1
                &&& final(self).created_set() == old(self).created_set().remove(handle)
                &&& final(self).updated_set() == old(self).updated_set().remove(handle)
                &&& final(self).remapped_map() == remember_moves(
                    old(self).remapped_map().remove(handle),
                    others,
                    id,
                )
                &&& final(self).killed_set() == old(self).killed_set().insert(id)
            },
    {
        broadcast use vstd::std_specs::hash::group_hash_axioms;

        let Some(id) = self.index.remove(&handle) else {
            return ;
        };

        let idx = id as usize;

        self.buffer.remove(idx);
        self.buffer.push(blank_light());

        self.created.remove(&handle);
        self.updated.remove(&handle);
        self.remapped.remove(&handle);
        self.killed.insert(id);

        self.next_light_id = self.next_light_id - 1;

        let ghost others = self.index@;
        proof {
            assert forall|h: u64| #[trigger] others.contains_key(h) implies others[h] != id by {
                assert(old(self).index@[h] != old(self).index@[handle]);
            }
        }
        shift_down(&mut self.index, &mut self.remapped, id);
        proof {
            assert(others.len() + 1 == old(self).index@.len());
            assert(self.index@.dom() =~= others.dom());
            assert(self.buffer@.drop_last() =~= old(self).buffer@.remove(id as int));
            assert forall|h: u64, g: u64|
                #![trigger self.index@[h], self.index@[g]]
                self.index@.contains_key(h) && self.index@.contains_key(g) && h != g implies self.index@[h]
                    != self.index@[g] by {
                assert(others[h] != others[g]);
            }
        }
    }
}

/// The lights added under handles fill the slots after the sun's without a
/// gap: every slot from 1 up to the count holds one of them.
pub proof fn law_lights_fill_slots_without_gaps<V: Copy + Default>(lights: Lights<V>, slot: u32)
    requires
        lights.wf(),
        1 <= slot < lights.count(),
    ensures
        exists|h: u64| #[trigger] lights.ids().contains_key(h) && lights.ids()[h] == slot,
{
    broadcast use vstd::std_specs::hash::group_hash_axioms;

    let ids = lights.ids();
    let f = |h: u64| ids[h] as int;
    let used = ids.dom().map(f);
    let range = vstd::set_lib::set_int_range(1, lights.count() as int);
    assert(ids.dom().finite());
    assert(vstd::relations::injective_on(f, ids.dom())) by {
        assert forall|a: u64, b: u64| ids.dom().contains(a) && ids.dom().contains(b) && #[trigger] f(a)
            == #[trigger] f(b) implies a == b by {
            if a != b {
                assert(ids[a] != ids[b]);
            }
        }
    }
    vstd::set_lib::lemma_map_size(ids.dom(), used, f);
    vstd::set_lib::lemma_int_range(1, lights.count() as int);
    assert(used.subset_of(range)) by {
        assert forall|i: int| used.contains(i) implies range.contains(i) by {
            let h = choose|h: u64| ids.dom().contains(h) && f(h) == i;
            assert(ids.contains_key(h));
        }
    }
    vstd::set_lib::lemma_subset_equality(used, range);
    assert(range.contains(slot as int));
    assert(used.contains(slot as int));
    let h = choose|h: u64| ids.dom().contains(h) && f(h) == slot as int;
    assert(lights.ids().contains_key(h) && lights.ids()[h] == slot);
}

/// Removing a light keeps the order of the others: a light before another
/// stays before it.
pub proof fn law_remove_keeps_light_order(ids: Map<u64, u32>, removed: u32, h: u64, g: u64)
    requires
        ids.contains_key(h),
        ids.contains_key(g),
        ids[h] != removed,
        ids[g] != removed,
    ensures
        shifted_down(ids, removed)[h] < shifted_down(ids, removed)[g] <==> ids[h] < ids[g],
        shifted_down(ids, removed)[h] == shifted_down(ids, removed)[g] <==> ids[h] == ids[g],
{
}

/// The slots in use, the sun's and every added light's, lie inside the
/// buffer: the count never exceeds the buffer's length, and each added light
/// sits after the sun and before the count.
pub proof fn law_lights_lie_in_the_buffer<V: Copy + Default>(lights: Lights<V>)
    requires
        lights.wf(),
    ensures
        1 <= lights.count() <= lights.lights().len(),
        forall|h: u64| #[trigger]
            lights.ids().contains_key(h) ==> 1 <= lights.ids()[h] < lights.count(),
{
}

/// The slots of the lights `handles`.
pub open spec fn slots_of(handles: Set<u64>, ids: Map<u64, u32>) -> Set<u32> {
    handles.map(|h: u64| ids[h])
}

/// For each light that moved, the slot it had and the slot it has.
pub open spec fn moves(remapped: Map<u64, u32>, ids: Map<u64, u32>) -> Set<(u32, u32)> {
    remapped.dom().map(|h: u64| (remapped[h], ids[h]))
}

/// What the GPU copy of the lights needs around an upload: slots to mark as
/// gone and lights that moved (before it), slots whose data becomes the
/// previous data and slots to clear (after it).
pub struct LightFlushPlan {
    /// Slots whose light went away.
    pub killed: Vec<u32>,
    /// For each light that moved, the slot it had and the slot it has.
    pub remapped: Vec<(u32, u32)>,
    /// Slots of the lights added or updated, the sun's when it was updated.
    pub committed: Vec<u32>,
    /// Slots to clear: those whose light went away and those a light moved
    /// from.
    pub cleared: Vec<u32>,
}

/// The items of `set`, each once, in the order the set walks them.
fn items_u32(set: &HashSet<u32>) -> (r: Vec<u32>)
    ensures
        r@.to_set() == set@,
        r@.no_duplicates(),
{
    broadcast use vstd::std_specs::hash::group_hash_axioms;

    let ghost ks = vstd::std_specs::hash::spec_hash_keys_iter(set).remaining().unref();
    let mut r: Vec<u32> = Vec::new();
    for k in it: set.iter()
        invariant
            it.seq().unref() == ks,
            r@ == ks.take(it.index() as int),
    {
        r.push(*k);
        proof {
            assert(r@ =~= ks.take(it.index() + 1));
        }
    }
    proof {
        assert(r@ =~= ks);
    }
    r
}

/// The items of `set`, each once, in the order the set walks them.
fn items_u64(set: &HashSet<u64>) -> (r: Vec<u64>)
    ensures
        r@.to_set() == set@,
        r@.no_duplicates(),
{
    broadcast use vstd::std_specs::hash::group_hash_axioms;

    let ghost ks = vstd::std_specs::hash::spec_hash_keys_iter(set).remaining().unref();
    let mut r: Vec<u64> = Vec::new();
    for k in it: set.iter()
        invariant
            it.seq().unref() == ks,
            r@ == ks.take(it.index() as int),
    {
        r.push(*k);
        proof {
            assert(r@ =~= ks.take(it.index() + 1));
        }
    }
    proof {
        assert(r@ =~= ks);
    }
    r
}

/// The slots under `handles`, appended to `out`.
fn push_slots(out: &mut Vec<u32>, handles: &Vec<u64>, index: &HashMap<u64, u32>)
    requires
        handles@.to_set().subset_of(index@.dom()),
    ensures
        final(out)@ == old(out)@ + handles@.map_values(|h: u64| index@[h]),
{
    broadcast use vstd::std_specs::hash::group_hash_axioms;

    let ghost out0 = out@;
    let mut k: usize = 0;
    while k < handles.len()
        invariant
            k <= handles.len(),
            handles@.to_set().subset_of(index@.dom()),
            out@ == out0 + handles@.take(k as int).map_values(|h: u64| index@[h]),
        decreases handles.len() - k,
    {
        let h = handles[k];
        assert(handles@.to_set().contains(h));
        let slot = *index.get(&h).unwrap();
        out.push(slot);
        k += 1;
        proof {
            assert(handles@.take(k as int).map_values(|h: u64| index@[h]) =~= handles@.take(
                k - 1,
            ).map_values(|h: u64| index@[h]).push(slot));
        }
    }
    proof {
        assert(handles@.take(k as int) =~= handles@);
    }
}

/// `(a + b).to_set()` is the union of the two.
proof fn lemma_concat_to_set<A>(a: Seq<A>, b: Seq<A>)
    ensures
        (a + b).to_set() == a.to_set().union(b.to_set()),
{
    assert forall|x: A| (a + b).to_set().contains(x) <==> a.to_set().union(b.to_set()).contains(x) by {
        if (a + b).contains(x) {
            let i = choose|i: int| 0 <= i < (a + b).len() && (a + b)[i] == x;
            if i < a.len() {
                assert(a[i] == x);
            } else {
                assert(b[i - a.len()] == x);
            }
        }
        if a.contains(x) {
            let i = choose|i: int| 0 <= i < a.len() && a[i] == x;
            assert((a + b)[i] == x);
        }
        if b.contains(x) {
            let i = choose|i: int| 0 <= i < b.len() && b[i] == x;
            assert((a + b)[a.len() + i] == x);
        }
    }
    assert((a + b).to_set() =~= a.to_set().union(b.to_set()));
}

impl<V: Copy + Default> Lights<V> {
    /// What to do to the GPU copy around the next upload, from the changes
    /// since the last flush; the changes are then forgotten.
    pub fn take_flush_plan(&mut self) -> (r: LightFlushPlan)
        requires
            old(self).wf(),
        ensures
            final(self).wf(),
            r.killed@.no_duplicates(),
            r.killed@.to_set() == old(self).killed_set(),
            r.remapped@.to_set() == moves(old(self).remapped_map(), old(self).ids()),
            r.remapped@.len() == old(self).remapped_map().len(),
            r.committed@.to_set() == slots_of(
                old(self).created_set().union(old(self).updated_set()),
                old(self).ids(),
            ).union(if old(self).sun_was_updated() { set![0u32] } else { Set::<u32>::empty() }),
            r.cleared@.to_set() == old(self).killed_set().union(old(self).remapped_map().values()),
            forall|i: int| 0 <= i < r.committed@.len() ==> #[trigger] r.committed@[i] < old(self).lights().len(),
            forall|i: int| 0 <= i < r.cleared@.len() ==> #[trigger] r.cleared@[i] < old(self).lights().len(),
            final(self).lights() == old(self).lights(),
            final(self).ids() == old(self).ids(),
            final(self).count() == old(self).count(),
            final(self).created_set() == Set::<u64>::empty(),
            final(self).updated_set() == Set::<u64>::empty(),
            !final(self).sun_was_updated(),
            final(self).remapped_map() == Map::<u64, u32>::empty(),
            final(self).killed_set() == Set::<u32>::empty(),
    {
        broadcast use vstd::std_specs::hash::group_hash_axioms;
        broadcast use vstd::seq_lib::group_seq_properties;

        let ghost ids = self.index@;
        let ghost remapped0 = self.remapped@;
        let killed = items_u32(&self.killed);

        let moved = handles_of(&self.remapped);
        let mut remapped: Vec<(u32, u32)> = Vec::new();
        let mut moved_from: Vec<u32> = Vec::new();
        let mut k: usize = 0;
        while k < moved.len()
            invariant
                k <= moved.len(),
                moved@.to_set() == remapped0.dom(),
                self.remapped@ == remapped0,
                self.index@ == ids,
                remapped0.dom().subset_of(ids.dom()),
                remapped@ == moved@.take(k as int).map_values(|h: u64| (remapped0[h], ids[h])),
                moved_from@ == moved@.take(k as int).map_values(|h: u64| remapped0[h]),
            decreases moved.len() - k,
        {
            let h = moved[k];
            assert(moved@.to_set().contains(h));
            let from = *self.remapped.get(&h).unwrap();
            let to = *self.index.get(&h).unwrap();
            remapped.push((from, to));
            moved_from.push(from);
            k += 1;
            proof {
                assert(moved@.take(k as int).map_values(|h: u64| (remapped0[h], ids[h])) =~= moved@.take(
                    k - 1,
                ).map_values(|h: u64| (remapped0[h], ids[h])).push((from, to)));
                assert(moved@.take(k as int).map_values(|h: u64| remapped0[h]) =~= moved@.take(
                    k - 1,
                ).map_values(|h: u64| remapped0[h]).push(from));
            }
        }
        proof {
            assert(moved@.take(k as int) =~= moved@);
        }

        let created = items_u64(&self.created);
        let updated = items_u64(&self.updated);
        let mut committed: Vec<u32> = Vec::new();
        push_slots(&mut committed, &created, &self.index);
        push_slots(&mut committed, &updated, &self.index);
        let ghost before_sun = committed@;
        if self.sun_updated {
            committed.push(0);
        }

        let mut cleared = killed.clone();
        let ghost killed_seq = cleared@;
        cleared.append(&mut moved_from);

        self.created.clear();
        self.updated.clear();
        self.sun_updated = false;
        self.remapped.clear();
        self.killed.clear();
        proof {
            let f = |h: u64| ids[h];
            let cs = created@.map_values(f);
            let us = updated@.map_values(f);
            created@.lemma_to_set_map_commutes(f);
            updated@.lemma_to_set_map_commutes(f);
            lemma_concat_to_set(cs, us);
            assert(before_sun =~= cs + us);
            let both = old(self).created_set().union(old(self).updated_set());
            assert forall|x: u32| #[trigger] slots_of(both, ids).contains(x) <==> cs.to_set().union(
                us.to_set(),
            ).contains(x) by {
                if slots_of(both, ids).contains(x) {
                    let h = choose|h: u64| both.contains(h) && ids[h] == x;
                    if created@.to_set().contains(h) {
                        assert(created@.to_set().map(f).contains(x));
                    } else {
                        assert(updated@.to_set().map(f).contains(x));
                    }
                }
                if created@.to_set().map(f).contains(x) {
                    let h = choose|h: u64| created@.to_set().contains(h) && f(h) == x;
                    assert(both.contains(h));
                }
                if updated@.to_set().map(f).contains(x) {
                    let h = choose|h: u64| updated@.to_set().contains(h) && f(h) == x;
                    assert(both.contains(h));
                }
            }
            assert(slots_of(both, ids) =~= cs.to_set().union(us.to_set()));
            if old(self).sun_was_updated() {
                assert(committed@ =~= before_sun + seq![0u32]);
                lemma_concat_to_set(before_sun, seq![0u32]);
                assert(seq![0u32].to_set() =~= set![0u32]);
            } else {
                assert(before_sun.to_set().union(Set::<u32>::empty()) =~= before_sun.to_set());
            }
            let g = |h: u64| (remapped0[h], ids[h]);
            moved@.lemma_to_set_map_commutes(g);
            assert(moves(remapped0, ids) =~= moved@.to_set().map(g));
            moved@.unique_seq_to_set();
            let fr = |h: u64| remapped0[h];
            moved@.lemma_to_set_map_commutes(fr);
            assert(remapped0.values() =~= moved@.to_set().map(fr)) by {
                assert forall|v: u32| remapped0.values().contains(v) <==> moved@.to_set().map(fr).contains(v) by {
                    if remapped0.values().contains(v) {
                        let h = choose|h: u64| remapped0.contains_key(h) && remapped0[h] == v;
                        assert(moved@.to_set().contains(h));
                    }
                }
            }
            lemma_concat_to_set(killed_seq, moved_from@);
            assert forall|i: int| 0 <= i < committed@.len() implies #[trigger] committed@[i] < old(self).lights().len() by {
                if i < cs.len() {
                    assert(created@.to_set().contains(created@[i]));
                } else if i < cs.len() + us.len() {
                    assert(updated@.to_set().contains(updated@[i - cs.len()]));
                }
            }
            assert forall|i: int| 0 <= i < cleared@.len() implies #[trigger] cleared@[i] < old(self).lights().len() by {
                if i < killed_seq.len() {
                    assert(killed@.to_set().contains(killed@[i]));
                } else {
                    assert(remapped0.contains_key(moved@[i - killed_seq.len()]));
                }
            }
        }
        LightFlushPlan { killed, remapped, committed, cleared }
    }
}

/// Updating a light keeps the new data as the current data and the data
/// the slot held just before, its current `d0`, `d1`, `d2`, as the previous
/// data.
pub proof fn law_update_keeps_previous_data<V>(new: GpuLight<V>, old: GpuLight<V>)
    ensures
        with_previous(new, old).d0 == new.d0,
        with_previous(new, old).d1 == new.d1,
        with_previous(new, old).d2 == new.d2,
        with_previous(new, old).d3 == new.d3,
        with_previous(new, old).prev_d0 == old.d0,
        with_previous(new, old).prev_d1 == old.d1,
        with_previous(new, old).prev_d2 == old.d2,
{
}

/// A light that already remembers a slot keeps it when it moves again; a
/// light moving for the first time remembers the slot it had just before;
/// a light that does not move remembers nothing new.
pub proof fn law_moves_remember_first_slot(
    remapped: Map<u64, u32>,
    ids: Map<u64, u32>,
    removed: u32,
    h: u64,
)
    ensures
        remapped.contains_key(h) ==> remember_moves(remapped, ids, removed).contains_key(h)
            && remember_moves(remapped, ids, removed)[h] == remapped[h],
        !remapped.contains_key(h) && ids.contains_key(h) && ids[h] > removed ==> remember_moves(
            remapped,
            ids,
            removed,
        ).contains_key(h) && remember_moves(remapped, ids, removed)[h] == ids[h],
        !remapped.contains_key(h) && !(ids.contains_key(h) && ids[h] > removed)
            ==> !remember_moves(remapped, ids, removed).contains_key(h),
{
}

/// Over two removals since the last flush, every light that remembers a
/// slot remembers the one it had at the flush: the slot noted then, or else
/// its slot before the first removal, never the slot it passed through.
pub proof fn law_two_removals_remember_flush_slot(
    ids: Map<u64, u32>,
    remapped: Map<u64, u32>,
    first: u64,
    second: u64,
    h: u64,
)
    requires
        ids.contains_key(first),
        forall|g: u64| #[trigger] ids.contains_key(g) && g != first ==> ids[g] != ids[first],
        shifted_down(ids.remove(first), ids[first]).contains_key(second),
        forall|g: u64| #[trigger]
            shifted_down(ids.remove(first), ids[first]).contains_key(g) && g != second
                ==> shifted_down(ids.remove(first), ids[first])[g] != shifted_down(
                ids.remove(first),
                ids[first],
            )[second],
    ensures
        ({
            let a = ids[first];
            let others1 = ids.remove(first);
            let ids1 = shifted_down(others1, a);
            let r1 = remember_moves(remapped.remove(first), others1, a);
            let b = ids1[second];
            let others2 = ids1.remove(second);
            let r2 = remember_moves(r1.remove(second), others2, b);
            r2.contains_key(h) ==> r2[h] == if remapped.contains_key(h) {
                remapped[h]
            } else {
                ids[h]
            }
        }),
{
    let a = ids[first];
    let others1 = ids.remove(first);
    let ids1 = shifted_down(others1, a);
    let r1 = remember_moves(remapped.remove(first), others1, a);
    let b = ids1[second];
    let others2 = ids1.remove(second);
    let r2 = remember_moves(r1.remove(second), others2, b);
    if r2.contains_key(h) {
        assert(h != second);
        assert(h != first) by {
            if h == first {
                assert(!others1.contains_key(h));
                assert(!ids1.contains_key(h));
            }
        }
        if r1.contains_key(h) {
            assert(r2[h] == r1[h]);
        } else {
            assert(others2.contains_key(h) && others2[h] > b);
            assert(!(others1[h] > a));
            assert(ids1[h] == others1[h]);
        }
    }
}

} // verus!
