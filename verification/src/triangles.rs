use std::collections::HashMap;
use std::ops::Range;

use vstd::prelude::*;
use vstd::std_specs::iter::IteratorSpec;

use crate::allocator::{
    law_give_adds_free_slots, law_give_keeps_tidy, law_take_hands_out_free_slots,
    law_take_keeps_tidy, Allocator,
};
use crate::free_list::{
    dirty_after_give, free_units, range_len, range_units, ranges_disjoint, take_outcome, tidy,
};
use crate::tlas::{lemma_disjoint_units, lemma_units_disjoint, splice};

verus! {

/// The slots an instance's triangles occupy, and whether they were written
/// since the last upload.
#[derive(Debug)]
pub struct IndexedInstance {
    pub triangle_ids: Range<usize>,
    pub dirty: bool,
}

/// The triangles of every instance, in one buffer the GPU reads: each
/// instance owns a range of slots; the slots of removed instances become free
/// and are handed to the next instance whose triangles fit. `T` is a
/// triangle as the GPU reads it.
#[derive(Debug)]
pub struct Triangles<T> {
    allocator: Allocator,
    buffer: Vec<T>,
    index: HashMap<u64, IndexedInstance>,
    dirty: bool,
}

impl<T: Copy> Triangles<T> {
    /// The slots, as last written.
    pub closed spec fn items(&self) -> Seq<T> {
        self.buffer@
    }

    /// The range of slots each instance owns.
    pub closed spec fn ranges(&self) -> Map<u64, Range<usize>> {
        self.index@.map_values(|e: IndexedInstance| e.triangle_ids)
    }

    /// Which instances were written since the last upload.
    pub closed spec fn written(&self) -> Map<u64, bool> {
        self.index@.map_values(|e: IndexedInstance| e.dirty)
    }

    /// Whether anything was written since the last upload.
    pub closed spec fn is_dirty(&self) -> bool {
        self.dirty
    }

    /// The free list of slots given back.
    pub closed spec fn free_slots(&self) -> Seq<Range<usize>> {
        self.allocator.free_slots()
    }

    /// Whether the free list may need compacting.
    pub closed spec fn free_list_dirty(&self) -> bool {
        self.allocator.is_dirty()
    }

    /// Every owned range is a nonempty range of slots; no two owners and no
    /// owner and a free range share a slot; free ranges lie inside the slots
    /// and the free list is tidy.
    pub open spec fn wf(&self) -> bool {
        &&& forall|h: u64| #[trigger]
            self.ranges().contains_key(h) ==> self.ranges()[h].start < self.ranges()[h].end
                <= self.items().len()
        &&& forall|h: u64, g: u64|
            #![trigger self.ranges()[h], self.ranges()[g]]
            self.ranges().contains_key(h) && self.ranges().contains_key(g) && h != g
                ==> ranges_disjoint(self.ranges()[h], self.ranges()[g])
        &&& forall|h: u64| #[trigger]
            self.ranges().contains_key(h) ==> range_units(self.ranges()[h]).disjoint(
                free_units(self.free_slots()),
            )
        &&& forall|u: int| #[trigger]
            free_units(self.free_slots()).contains(u) ==> 0 <= u < self.items().len()
        &&& tidy(self.free_slots(), self.free_list_dirty())
    }

    pub fn new() -> (r: Self)
        ensures
            r.wf(),
            r.items() == Seq::<T>::empty(),
            r.ranges() == Map::<u64, Range<usize>>::empty(),
            !r.is_dirty(),
    {
        let r = Triangles {
            allocator: Allocator::default(),
            buffer: Vec::new(),
            index: HashMap::new(),
            dirty: false,
        };
        proof {
            assert(r.ranges() =~= Map::<u64, Range<usize>>::empty());
            assert(free_units(r.free_slots()) =~= Set::<int>::empty());
        }
        r
    }

    /// Number of slots, free ones included.
    pub fn len(&self) -> (r: usize)
        ensures
            r == self.items().len(),
    {
        self.buffer.len()
    }

    /// How many triangles the instance `handle` has, if it has any.
    pub fn count(&self, handle: u64) -> (r: Option<usize>)
        ensures
            r == (if self.ranges().contains_key(handle) {
                Some(range_len(self.ranges()[handle]) as usize)
            } else {
                None
            }),
    {
        broadcast use vstd::std_specs::hash::group_hash_axioms;

        match self.index.get(&handle) {
            Some(entry) => {
                let start = entry.triangle_ids.start;
                let end = entry.triangle_ids.end;
                Some(if start < end { end - start } else { 0 })
            },
            None => None,
        }
    }
}

impl<T: Copy> Triangles<T> {
    /// Stores the triangles of a new instance: in the first free range that
    /// fits them, else in new slots after the last one; the instance, and
    /// the set, are marked written. The slots it got come back.
    #[verifier::spinoff_prover]
    pub fn create(&mut self, handle: u64, triangles: Vec<T>) -> (r: Range<usize>)
        requires
            old(self).wf(),
            !old(self).ranges().contains_key(handle),
            triangles.len() > 0,
            old(self).items().len() + triangles.len() <= usize::MAX,
        ensures
            final(self).wf(),
            final(self).is_dirty(),
            final(self).ranges() == old(self).ranges().insert(handle, r),
            final(self).written() == old(self).written().insert(handle, true),
            exists|got: Option<Range<usize>>|
                #[trigger] take_outcome(
                    old(self).free_slots(),
                    old(self).free_list_dirty(),
                    triangles.len() as nat,
                    got,
                    final(self).free_slots(),
                ) && !final(self).free_list_dirty() && match got {
                    Some(g) => {
                        &&& r == g
                        &&& final(self).items() == splice(old(self).items(), g, triangles@)
                    },
                    None => {
                        &&& r == (Range {
                            start: old(self).items().len() as usize,
                            end: (old(self).items().len() + triangles.len()) as usize,
                        })
                        &&& final(self).items() == old(self).items() + triangles@
                    },
                },
    {
        broadcast use vstd::std_specs::hash::group_hash_axioms;

        let ghost free0 = self.allocator.free_slots();
        let ghost dirty0 = self.allocator.is_dirty();
        let ghost items0 = self.buffer@;
        let n = triangles.len();
        let taken = self.allocator.take(n);
        let ghost got = taken;
        let ghost free1 = self.allocator.free_slots();
        proof {
            law_take_keeps_tidy(free0, dirty0, n as nat, got, free1);
        }
        let triangle_ids = if let Some(ids) = taken {
            proof {
                law_take_hands_out_free_slots(free0, dirty0, n as nat, ids, self.allocator.free_slots());
                assert(ids.end - 1 < items0.len()) by {
                    assert(range_units(ids).contains(ids.end - 1));
                }
            }
            fill_slots(&mut self.buffer, ids.start, ids.end, &triangles);
            proof {
                assert(triangles@.take(n as int) =~= triangles@);
            }
            ids
        } else {
            let a = self.buffer.len();
            append_slots(&mut self.buffer, &triangles);
            let b = self.buffer.len();
            a..b
        };
        let ghost ids = Range { start: triangle_ids.start, end: triangle_ids.end };
        let result = Range { start: triangle_ids.start, end: triangle_ids.end };
        let ghost index0 = self.index@;
        self.index.insert(handle, IndexedInstance { triangle_ids, dirty: true });
        self.dirty = true;
        proof {
            assert(self.index@ == index0.insert(handle, IndexedInstance { triangle_ids: ids, dirty: true }));
            let m = old(self).ranges().insert(handle, ids);
            assert forall|k: u64| #[trigger] self.ranges().contains_key(k) <==> m.contains_key(k) by {}
            assert forall|k: u64| #[trigger] self.ranges().contains_key(k) implies self.ranges()[k]
                == m[k] by {
                if k != handle {
                    assert(self.index@[k] == old(self).index@[k]);
                }
            }
            assert(self.ranges() =~= m);
            let w = old(self).written().insert(handle, true);
            assert forall|k: u64| #[trigger] self.written().contains_key(k) implies self.written()[k]
                == w[k] by {
                if k != handle {
                    assert(self.index@[k] == old(self).index@[k]);
                }
            }
            assert(self.written() =~= w);
            if got is None {
                crate::allocator::law_refused_take_keeps_free_slots(free0, dirty0, n as nat, free1);
            }
            assert forall|u: int| #[trigger] free_units(free1).contains(u) implies 0 <= u
                < self.buffer@.len() by {
                assert(free_units(free0).contains(u));
            }
            assert forall|h: u64| #[trigger] self.ranges().contains_key(h) implies range_units(
                self.ranges()[h],
            ).disjoint(free_units(free1)) by {
                if h != handle {
                    assert(range_units(old(self).ranges()[h]).disjoint(free_units(free0)));
                }
            }
            assert forall|h: u64, g: u64|
                #![trigger self.ranges()[h], self.ranges()[g]]
                self.ranges().contains_key(h) && self.ranges().contains_key(g) && h != g
                    implies ranges_disjoint(self.ranges()[h], self.ranges()[g]) by {
                if h == handle || g == handle {
                    let o = if h == handle { g } else { h };
                    let ro = old(self).ranges()[o];
                    assert(range_units(ro).disjoint(free_units(free0)));
                    assert(range_units(ro).disjoint(range_units(ids))) by {
                        if got is None {
                            assert forall|u: int| range_units(ro).contains(u) implies !range_units(
                                ids,
                            ).contains(u) by {}
                        } else {
                            assert forall|u: int| range_units(ro).contains(u) implies !range_units(
                                ids,
                            ).contains(u) by {
                                if range_units(ids).contains(u) {
                                    assert(free_units(free0).contains(u));
                                }
                            }
                        }
                    }
                    lemma_units_disjoint(ro, ids);
                } else {
                    assert(ranges_disjoint(old(self).ranges()[h], old(self).ranges()[g]));
                }
            }
            assert(take_outcome(
                old(self).free_slots(),
                old(self).free_list_dirty(),
                triangles.len() as nat,
                got,
                self.free_slots(),
            ));
        }
        result
    }

    /// Writes `triangles` over the slots of the instance `handle`, as many as
    /// both have, and marks it, and the set, written.
    pub fn update(&mut self, handle: u64, triangles: Vec<T>)
        requires
            old(self).wf(),
            old(self).ranges().contains_key(handle),
        ensures
            final(self).wf(),
            final(self).is_dirty(),
            final(self).ranges() == old(self).ranges(),
            final(self).written() == old(self).written().insert(handle, true),
            final(self).free_slots() == old(self).free_slots(),
            final(self).free_list_dirty() == old(self).free_list_dirty(),
            ({
                let r = old(self).ranges()[handle];
                let n = if triangles.len() < range_len(r) {
                    triangles.len() as int
                } else {
                    range_len(r) as int
                };
                final(self).items() == splice(
                    old(self).items(),
                    r.start..(r.start + n) as usize,
                    triangles@.take(n),
                )
            }),
    {
        broadcast use vstd::std_specs::hash::group_hash_axioms;

        let ghost index0 = self.index@;
        let entry = self.index.remove(&handle).unwrap();
        let start = entry.triangle_ids.start;
        let end = entry.triangle_ids.end;
        let n = if triangles.len() < end - start {
            triangles.len()
        } else {
            end - start
        };
        fill_slots(&mut self.buffer, start, start + n, &triangles);
        self.index.insert(handle, IndexedInstance { triangle_ids: start..end, dirty: true });
        self.dirty = true;
        proof {
            assert(old(self).ranges()[handle] == (start..end));
            assert(self.index@ == index0.insert(handle, IndexedInstance { triangle_ids: start..end, dirty: true }));
            assert forall|k: u64| #[trigger] self.ranges().contains_key(k) implies self.ranges()[k]
                == old(self).ranges()[k] by {
                if k != handle {
                    assert(self.index@[k] == index0[k]);
                }
            }
            assert(self.ranges() =~= old(self).ranges());
            let w = old(self).written().insert(handle, true);
            assert forall|k: u64| #[trigger] self.written().contains_key(k) implies self.written()[k]
                == w[k] by {
                if k != handle {
                    assert(self.index@[k] == index0[k]);
                }
            }
            assert(self.written() =~= w);
        }
    }

    /// Forgets the triangles of the instance `handle`: its slots become free
    /// and come back, for whatever was built on them to be dropped.
    pub fn remove(&mut self, handle: u64) -> (r: Option<Range<usize>>)
        requires
            old(self).wf(),
        ensures
            final(self).wf(),
            final(self).ranges() == old(self).ranges().remove(handle),
            final(self).written() == old(self).written().remove(handle),
            final(self).items() == old(self).items(),
            final(self).is_dirty() == old(self).is_dirty(),
            r == (if old(self).ranges().contains_key(handle) {
                Some(old(self).ranges()[handle])
            } else {
                None
            }),
            old(self).ranges().contains_key(handle) ==> {
                let g = old(self).ranges()[handle];
                &&& final(self).free_slots() == old(self).free_slots().push(g)
                &&& final(self).free_list_dirty() == dirty_after_give(
                    old(self).free_slots(),
                    old(self).free_list_dirty(),
                    g,
                )
            },
            !old(self).ranges().contains_key(handle) ==> {
                &&& final(self).free_slots() == old(self).free_slots()
                &&& final(self).free_list_dirty() == old(self).free_list_dirty()
            },
    {
        broadcast use vstd::std_specs::hash::group_hash_axioms;

        let ghost index0 = self.index@;
        if let Some(entry) = self.index.remove(&handle) {
            let start = entry.triangle_ids.start;
            let end = entry.triangle_ids.end;
            let ghost r = Range { start, end };
            let ghost free0 = self.allocator.free_slots();
            let ghost dirty0 = self.allocator.is_dirty();
            proof {
                assert(old(self).ranges().contains_key(handle));
                assert(old(self).ranges()[handle] == r);
            }
            self.allocator.give(entry.triangle_ids);
            proof {
                law_give_keeps_tidy(free0, dirty0, r);
                law_give_adds_free_slots(free0, r);
                let m = old(self).ranges().remove(handle);
                assert forall|k: u64| #[trigger] self.ranges().contains_key(k) implies self.ranges()[k]
                    == m[k] by {
                    assert(self.index@[k] == index0[k]);
                }
                assert(self.ranges() =~= m);
                assert forall|k: u64| #[trigger] self.written().contains_key(k) implies self.written()[k]
                    == old(self).written().remove(handle)[k] by {
                    assert(self.index@[k] == index0[k]);
                }
                assert(self.written() =~= old(self).written().remove(handle));
                assert forall|h: u64| #[trigger] self.ranges().contains_key(h) implies range_units(
                    self.ranges()[h],
                ).disjoint(free_units(self.free_slots())) by {
                    assert(range_units(old(self).ranges()[h]).disjoint(free_units(free0)));
                    assert(ranges_disjoint(old(self).ranges()[h], r));
                    lemma_disjoint_units(old(self).ranges()[h], r);
                }
            }
            Some(start..end)
        } else {
            proof {
                assert(self.ranges() =~= old(self).ranges().remove(handle));
                assert(self.written() =~= old(self).written().remove(handle));
            }
            None
        }
    }
}

/// The instance `h` was written since the last upload, and owns `r`.
pub open spec fn written_range(ranges: Map<u64, Range<usize>>, written: Map<u64, bool>, h: u64, r: Range<usize>) -> bool {
    &&& ranges.contains_key(h)
    &&& written[h]
    &&& ranges[h] == r
}

/// Some instance written since the last upload owns `r`.
pub open spec fn owned_by_written(ranges: Map<u64, Range<usize>>, written: Map<u64, bool>, r: Range<usize>) -> bool {
    exists|h: u64| #[trigger] written_range(ranges, written, h, r)
}

impl<T: Copy> Triangles<T> {
    /// Whether anything was written since the last upload; the mark is
    /// taken down.
    pub fn take_dirty(&mut self) -> (r: bool)
        ensures
            r == old(self).is_dirty(),
            !final(self).is_dirty(),
            final(self).items() == old(self).items(),
            final(self).ranges() == old(self).ranges(),
            final(self).written() == old(self).written(),
            final(self).free_slots() == old(self).free_slots(),
            final(self).free_list_dirty() == old(self).free_list_dirty(),
    {
        let r = self.dirty;
        self.dirty = false;
        r
    }

    /// The ranges of the instances written since the last upload, each once,
    /// for them to be uploaded; their marks are taken down.
    pub fn take_written_ranges(&mut self) -> (r: Vec<Range<usize>>)
        requires
            old(self).wf(),
        ensures
            final(self).wf(),
            final(self).items() == old(self).items(),
            final(self).ranges() == old(self).ranges(),
            final(self).is_dirty() == old(self).is_dirty(),
            final(self).free_slots() == old(self).free_slots(),
            final(self).free_list_dirty() == old(self).free_list_dirty(),
            final(self).written().dom() == old(self).written().dom(),
            forall|h: u64| #[trigger] final(self).written().contains_key(h) ==> !final(self).written()[h],
            forall|i: int|
                0 <= i < r@.len() ==> owned_by_written(
                    old(self).ranges(),
                    old(self).written(),
                    #[trigger] r@[i],
                ),
            forall|h: u64|
                #[trigger] old(self).ranges().contains_key(h) && old(self).written()[h]
                    ==> r@.contains(old(self).ranges()[h]),
            r@.no_duplicates(),
    {
        broadcast use vstd::std_specs::hash::group_hash_axioms;

        let ghost index0 = self.index@;
        let ghost ranges0 = self.ranges();
        let ghost written0 = self.written();
        let ghost ks = vstd::std_specs::hash::spec_keys_iter(&self.index).remaining().unref();
        let mut handles: Vec<u64> = Vec::new();
        for k in it: self.index.keys()
            invariant
                it.seq().unref() == ks,
                handles@ == ks.take(it.index() as int),
        {
            handles.push(*k);
            proof {
                assert(handles@ =~= ks.take(it.index() + 1));
            }
        }
        proof {
            assert(handles@ =~= ks);
        }

        let mut out: Vec<Range<usize>> = Vec::new();
        let ghost mut from: Seq<u64> = Seq::empty();
        let mut k: usize = 0;
        while k < handles.len()
            invariant
                k <= handles.len(),
                handles@.to_set() == index0.dom(),
                handles@.no_duplicates(),
                self.wf() == old(self).wf(),
                old(self).wf(),
                self.buffer@ == old(self).buffer@,
                self.allocator == old(self).allocator,
                self.dirty == old(self).dirty,
                index0 == old(self).index@,
                ranges0 == old(self).ranges(),
                written0 == old(self).written(),
                self.index@.dom() == index0.dom(),
                forall|h: u64| #[trigger]
                    self.index@.contains_key(h) ==> self.index@[h].triangle_ids
                        == index0[h].triangle_ids && self.index@[h].dirty == (!handles@.take(
                        k as int,
                    ).contains(h) && index0[h].dirty),
                from.len() == out@.len(),
                from.no_duplicates(),
                forall|i: int|
                    0 <= i < from.len() ==> handles@.take(k as int).contains(#[trigger] from[i])
                        && written_range(ranges0, written0, from[i], out@[i]),
                forall|h: u64|
                    #[trigger] handles@.take(k as int).contains(h) && index0.contains_key(h)
                        && index0[h].dirty ==> from.contains(h),
            decreases handles.len() - k,
        {
            let h = handles[k];
            let ghost before = handles@.take(k as int);
            let ghost after = handles@.take(k + 1);
            proof {
                assert(handles@.to_set().contains(h));
                assert(!before.contains(h)) by {
                    if before.contains(h) {
                        let j = choose|j: int| 0 <= j < k && before[j] == h;
                        assert(handles@[j] == handles@[k as int]);
                    }
                }
                assert forall|g: u64| #[trigger] after.contains(g) <==> (before.contains(g) || g == h) by {
                    if after.contains(g) {
                        let j = choose|j: int| 0 <= j < after.len() && after[j] == g;
                        if j < k {
                            assert(before[j] == g);
                        }
                    }
                    if before.contains(g) {
                        let j = choose|j: int| 0 <= j < before.len() && before[j] == g;
                        assert(after[j] == g);
                    }
                    if g == h {
                        assert(after[k as int] == g);
                    }
                }
            }
            let ghost index1 = self.index@;
            let ghost from0 = from;
            let ghost out0 = out@;
            let entry = self.index.remove(&h).unwrap();
            if entry.dirty {
                let start = entry.triangle_ids.start;
                let end = entry.triangle_ids.end;
                out.push(start..end);
                proof {
                    from = from.push(h);
                    assert(ranges0[h] == index0[h].triangle_ids);
                    assert(written0[h] == index0[h].dirty);
                    assert(!from0.contains(h)) by {
                        if from0.contains(h) {
                            let j = choose|j: int| 0 <= j < from0.len() && from0[j] == h;
                            assert(before.contains(from0[j]));
                        }
                    }
                }
            }
            self.index.insert(h, IndexedInstance { triangle_ids: entry.triangle_ids, dirty: false });
            k += 1;
            proof {
                assert forall|i: int| 0 <= i < from.len() implies after.contains(#[trigger] from[i])
                    && written_range(ranges0, written0, from[i], out@[i]) by {
                    if i < from0.len() {
                        assert(from[i] == from0[i]);
                        assert(out@[i] == out0[i]);
                        assert(before.contains(from0[i]));
                    }
                }
                assert forall|a: int, b: int| 0 <= a < b < from.len() implies from[a] != from[b] by {
                    if b == from0.len() {
                        assert(before.contains(from0[a]));
                    } else {
                        assert(from0[a] != from0[b]);
                    }
                }
                assert forall|g: u64| #[trigger] after.contains(g) && index0.contains_key(g)
                    && index0[g].dirty implies from.contains(g) by {
                    if g != h {
                        assert(before.contains(g));
                        let j = choose|j: int| 0 <= j < from0.len() && from0[j] == g;
                        assert(from[j] == g);
                    } else {
                        assert(from[from.len() - 1] == g);
                    }
                }
                assert forall|g: u64| #[trigger] self.index@.contains_key(g) implies self.index@[g].triangle_ids
                    == index0[g].triangle_ids && self.index@[g].dirty == (!after.contains(g)
                    && index0[g].dirty) by {
                    if g != h {
                        assert(self.index@[g] == index1[g]);
                    }
                }
                assert(self.ranges() =~= ranges0) by {
                    assert forall|g: u64| #[trigger] self.ranges().contains_key(g) implies self.ranges()[g]
                        == ranges0[g] by {
                        assert(self.index@[g].triangle_ids == index0[g].triangle_ids);
                    }
                }
            }
        }
        proof {
            assert(handles@.take(k as int) =~= handles@);
            assert forall|g: u64| handles@.contains(g) <==> index0.contains_key(g) by {
                assert(handles@.to_set().contains(g) <==> handles@.contains(g));
            }
            assert(self.ranges() =~= ranges0) by {
                assert forall|g: u64| #[trigger] self.ranges().contains_key(g) implies self.ranges()[g]
                    == ranges0[g] by {
                    assert(self.index@[g].triangle_ids == index0[g].triangle_ids);
                }
            }
            assert forall|i: int| 0 <= i < out@.len() implies owned_by_written(
                old(self).ranges(),
                old(self).written(),
                #[trigger] out@[i],
            ) by {
                assert(written_range(ranges0, written0, from[i], out@[i]));
                assert(written_range(old(self).ranges(), old(self).written(), from[i], out@[i]));
            }
            assert forall|g: u64| #[trigger] ranges0.contains_key(g) && written0[g] implies out@.contains(
                ranges0[g],
            ) by {
                assert(handles@.contains(g));
                let j = choose|j: int| 0 <= j < from.len() && from[j] == g;
                assert(out@[j] == ranges0[g]);
            }
            assert forall|a: int, b: int| 0 <= a < b < out@.len() implies out@[a] != out@[b] by {
                assert(from[a] != from[b]);
                assert(ranges_disjoint(ranges0[from[a]], ranges0[from[b]]));
            }
        }
        out
    }
}

/// Writes the first `end - start` of `triangles` into `items[start..end]`.
fn fill_slots<T: Copy>(items: &mut Vec<T>, start: usize, end: usize, triangles: &Vec<T>)
    requires
        start <= end <= old(items).len(),
        end - start <= triangles.len(),
    ensures
        final(items)@ == splice(old(items)@, start..end, triangles@.take(end - start)),
{
    let ghost before = items@;
    let mut k = start;
    while k < end
        invariant
            start <= k <= end,
            end <= before.len(),
            end - start <= triangles.len(),
            items@ == before.take(start as int) + triangles@.take(k - start) + before.skip(k as int),
        decreases end - k,
    {
        items.set(k, triangles[k - start]);
        proof {
            assert(items@ =~= before.take(start as int) + triangles@.take(k + 1 - start) + before.skip(
                k + 1,
            ));
        }
        k += 1;
    }
}

/// Appends every one of `triangles` to `items`.
fn append_slots<T: Copy>(items: &mut Vec<T>, triangles: &Vec<T>)
    ensures
        final(items)@ == old(items)@ + triangles@,
{
    let ghost before = items@;
    let mut k: usize = 0;
    while k < triangles.len()
        invariant
            k <= triangles.len(),
            items@ == before + triangles@.take(k as int),
        decreases triangles.len() - k,
    {
        items.push(triangles[k]);
        proof {
            assert(items@ =~= before + triangles@.take(k + 1));
        }
        k += 1;
    }
    proof {
        assert(triangles@.take(triangles.len() as int) =~= triangles@);
    }
}

} // verus!
