use std::collections::HashMap;
use std::ops::Range;

use vstd::prelude::*;

use crate::allocator::{
    law_give_adds_free_slots, law_give_keeps_tidy, law_take_hands_out_free_slots,
    law_take_keeps_tidy, Allocator,
};
use crate::free_list::{
    dirty_after_give, free_units, range_len, range_units, ranges_disjoint, take_outcome, tidy,
};
use crate::materials::MaterialId;
use crate::primitive::{Primitive, PrimitiveId, PrimitivesRef};

verus! {

/// The slots a handle's primitives occupy.
#[derive(Debug)]
pub struct IndexedPrimitive {
    pub primitive_ids: Range<usize>,
}

/// `s` with the range `r` replaced by `p`.
pub open spec fn splice<T>(s: Seq<T>, r: Range<usize>, p: Seq<T>) -> Seq<T> {
    s.take(r.start as int) + p + s.skip(r.end as int)
}

/// `s` with every slot of `r` holding a killed primitive.
pub open spec fn killed<G>(s: Seq<Primitive<G>>, r: Range<usize>) -> Seq<Primitive<G>> {
    Seq::new(s.len(), |k: int| if r.start <= k < r.end { Primitive::Killed } else { s[k] })
}

/// The primitives of the top-level acceleration structure: each handle owns
/// a range of slots; slots of removed handles are killed and handed to the
/// next handle whose primitives fit.
#[derive(Debug)]
pub struct TlasPrimitives<G> {
    allocator: Allocator,
    items: Vec<Primitive<G>>,
    current: Vec<Primitive<G>>,
    previous: Vec<Primitive<G>>,
    index: HashMap<u64, IndexedPrimitive>,
}

impl<G: Copy> TlasPrimitives<G> {
    /// The slots, as last written.
    pub closed spec fn items(&self) -> Seq<Primitive<G>> {
        self.items@
    }

    /// The slots of the frame being built.
    pub closed spec fn current(&self) -> Seq<Primitive<G>> {
        self.current@
    }

    /// The slots of the previous frame.
    pub closed spec fn previous(&self) -> Seq<Primitive<G>> {
        self.previous@
    }

    /// The range of slots each handle owns.
    pub closed spec fn ranges(&self) -> Map<u64, Range<usize>> {
        self.index@.map_values(|e: IndexedPrimitive| e.primitive_ids)
    }

    /// The free list of killed slots.
    pub closed spec fn free_slots(&self) -> Seq<Range<usize>> {
        self.allocator.free_slots()
    }

    /// Whether the free list may need compacting.
    pub closed spec fn free_list_dirty(&self) -> bool {
        self.allocator.is_dirty()
    }

    /// Every owned range is a nonempty range of slots; no two owners and no
    /// owner and a free range share a slot; free ranges lie inside the slots
    /// and the free list is tidy.
    pub open spec fn wf(&self) -> bool {
        &&& forall|h: u64| #[trigger]
            self.ranges().contains_key(h) ==> self.ranges()[h].start < self.ranges()[h].end
                <= self.items().len()
        &&& forall|h: u64, g: u64|
            #![trigger self.ranges()[h], self.ranges()[g]]
            self.ranges().contains_key(h) && self.ranges().contains_key(g) && h != g
                ==> ranges_disjoint(self.ranges()[h], self.ranges()[g])
        &&& forall|h: u64| #[trigger]
            self.ranges().contains_key(h) ==> range_units(self.ranges()[h]).disjoint(
                free_units(self.free_slots()),
            )
        &&& forall|u: int| #[trigger]
            free_units(self.free_slots()).contains(u) ==> 0 <= u < self.items().len()
        &&& tidy(self.free_slots(), self.free_list_dirty())
    }

    pub fn new() -> (r: Self)
        ensures
            r.wf(),
            r.items() == Seq::<Primitive<G>>::empty(),
            r.current() == Seq::<Primitive<G>>::empty(),
            r.previous() == Seq::<Primitive<G>>::empty(),
            r.ranges() == Map::<u64, Range<usize>>::empty(),
    {
        let r = TlasPrimitives {
            allocator: Allocator::default(),
            items: Vec::new(),
            current: Vec::new(),
            previous: Vec::new(),
            index: HashMap::new(),
        };
        proof {
            assert(r.ranges() =~= Map::<u64, Range<usize>>::empty());
            assert(free_units(r.free_slots()) =~= Set::<int>::empty());
        }
        r
    }
}


/// Writing `p` over the slots `r` of `s` keeps the length: the slots of `r`
/// read back as `p`, every other slot as it was.
pub proof fn law_written_slots_read_back<T>(s: Seq<T>, r: Range<usize>, p: Seq<T>)
    requires
        r.start <= r.end <= s.len(),
        p.len() == r.end - r.start,
    ensures
        splice(s, r, p).len() == s.len(),
        splice(s, r, p).subrange(r.start as int, r.end as int) == p,
        forall|k: int|
            0 <= k < s.len() && !(r.start <= k < r.end) ==> #[trigger] splice(s, r, p)[k] == s[k],
{
    let t = splice(s, r, p);
    assert(t.subrange(r.start as int, r.end as int) =~= p);
    assert forall|k: int| 0 <= k < s.len() && !(r.start <= k < r.end) implies #[trigger] t[k]
        == s[k] by {
        if k >= r.end {
            assert(t[k] == s.skip(r.end as int)[k - r.end]);
        }
    }
}

/// Killing the slots `r` of `s` kills exactly those: every other slot is as
/// it was.
pub proof fn law_killed_slots<G>(s: Seq<Primitive<G>>, r: Range<usize>)
    ensures
        killed(s, r).len() == s.len(),
        forall|k: int| 0 <= k < s.len() && r.start <= k < r.end ==> #[trigger] killed(s, r)[k]
            == Primitive::<G>::Killed,
        forall|k: int|
            0 <= k < s.len() && !(r.start <= k < r.end) ==> #[trigger] killed(s, r)[k] == s[k],
{
}

/// Two ranges without a common slot are disjoint.
pub(crate) proof fn lemma_units_disjoint(a: Range<usize>, b: Range<usize>)
    requires
        range_units(a).disjoint(range_units(b)),
    ensures
        ranges_disjoint(a, b),
{
    if !ranges_disjoint(a, b) {
        let w = if a.start < b.start { b.start } else { a.start };
        assert(range_units(a).contains(w as int));
        assert(range_units(b).contains(w as int));
    }
}

/// Disjoint ranges have no common slot.
pub(crate) proof fn lemma_disjoint_units(a: Range<usize>, b: Range<usize>)
    requires
        ranges_disjoint(a, b),
    ensures
        range_units(a).disjoint(range_units(b)),
{
}

/// Writes the first `end - start` of `primitives` into `items[start..end]`.
fn fill_range<G: Copy>(
    items: &mut Vec<Primitive<G>>,
    start: usize,
    end: usize,
    primitives: &Vec<Primitive<G>>,
)
    requires
        start <= end <= old(items).len(),
        end - start <= primitives.len(),
    ensures
        final(items)@ == splice(
            old(items)@,
            start..end,
            primitives@.take(end - start),
        ),
{
    let ghost before = items@;
    let mut k = start;
    while k < end
        invariant
            start <= k <= end,
            end <= before.len(),
            end - start <= primitives.len(),
            items@ == before.take(start as int) + primitives@.take(k - start) + before.skip(k as int),
        decreases end - k,
    {
        items.set(k, primitives[k - start]);
        proof {
            assert(items@ =~= before.take(start as int) + primitives@.take(k + 1 - start) + before.skip(
                k + 1,
            ));
        }
        k += 1;
    }
}

/// Writes a killed primitive into every slot of `items[start..end]`.
fn kill_range<G: Copy>(items: &mut Vec<Primitive<G>>, start: usize, end: usize)
    requires
        start <= end <= old(items).len(),
    ensures
        final(items)@ == killed(old(items)@, start..end),
{
    let ghost before = items@;
    let mut k = start;
    while k < end
        invariant
            start <= k <= end,
            end <= before.len(),
            items@ == killed(before, start..k),
        decreases end - k,
    {
        items.set(k, Primitive::Killed);
        proof {
            assert(items@ =~= killed(before, start..(k + 1) as usize));
        }
        k += 1;
    }
    proof {
        assert(before =~= killed(before, start..start)) by {
            assert(killed(before, start..start) =~= before);
        }
    }
}

/// Copies `len` slots of `src`, from `src_start`, over the slots of `dst`
/// from `dst_start`.
fn copy_slots<G: Copy>(
    dst: &mut Vec<Primitive<G>>,
    dst_start: usize,
    src: &Vec<Primitive<G>>,
    src_start: usize,
    len: usize,
)
    requires
        dst_start + len <= old(dst).len(),
        src_start + len <= src.len(),
    ensures
        final(dst)@ == old(dst)@.take(dst_start as int) + src@.subrange(
            src_start as int,
            src_start + len,
        ) + old(dst)@.skip(dst_start + len),
{
    let ghost before = dst@;
    let mut k: usize = 0;
    while k < len
        invariant
            dst.len() == before.len(),
            dst_start + len <= before.len(),
            src_start + len <= src.len(),
            k <= len,
            dst@ == before.take(dst_start as int) + src@.subrange(src_start as int, src_start + k)
                + before.skip(dst_start + k),
        decreases len - k,
    {
        dst.set(dst_start + k, src[src_start + k]);
        proof {
            assert(dst@ =~= before.take(dst_start as int) + src@.subrange(
                src_start as int,
                src_start + k + 1,
            ) + before.skip(dst_start + k + 1));
        }
        k += 1;
    }
}

/// Appends every one of `primitives` to `items`.
fn append_all<G: Copy>(items: &mut Vec<Primitive<G>>, primitives: &Vec<Primitive<G>>)
    ensures
        final(items)@ == old(items)@ + primitives@,
{
    let ghost before = items@;
    let mut k: usize = 0;
    while k < primitives.len()
        invariant
            k <= primitives.len(),
            items@ == before + primitives@.take(k as int),
        decreases primitives.len() - k,
    {
        items.push(primitives[k]);
        proof {
            assert(items@ =~= before + primitives@.take(k + 1));
        }
        k += 1;
    }
    proof {
        assert(primitives@.take(primitives.len() as int) =~= primitives@);
    }
}

/// A copy of `v`, element by element.
fn copy_all<G: Copy>(v: &Vec<Primitive<G>>) -> (r: Vec<Primitive<G>>)
    ensures
        r@ == v@,
{
    let mut r: Vec<Primitive<G>> = Vec::new();
    let mut k: usize = 0;
    while k < v.len()
        invariant
            k <= v.len(),
            r@ == v@.take(k as int),
        decreases v.len() - k,
    {
        r.push(v[k]);
        proof {
            assert(r@ =~= v@.take(k + 1));
        }
        k += 1;
    }
    proof {
        assert(v@.take(v.len() as int) =~= v@);
    }
    r
}

impl<G: Copy> TlasPrimitives<G> {
    /// Stores `primitives` for `handle`: over the slots it already owns (the
    /// first of `primitives` that fit), else in the first free range that
    /// fits them, else in new slots after the last one.
    #[verifier::spinoff_prover]
    pub fn add(&mut self, handle: u64, primitives: Vec<Primitive<G>>)
        requires
            old(self).wf(),
            old(self).ranges().contains_key(handle) ==> primitives.len() >= range_len(
                old(self).ranges()[handle],
            ),
            !old(self).ranges().contains_key(handle) ==> primitives.len() > 0,
            old(self).items().len() + primitives.len() <= usize::MAX,
        ensures
            final(self).wf(),
            final(self).current() == old(self).current(),
            final(self).previous() == old(self).previous(),
            old(self).ranges().contains_key(handle) ==> {
                let r = old(self).ranges()[handle];
                &&& final(self).ranges() == old(self).ranges()
                &&& final(self).items() == splice(
                    old(self).items(),
                    r,
                    primitives@.take(range_len(r) as int),
                )
                &&& final(self).free_slots() == old(self).free_slots()
                &&& final(self).free_list_dirty() == old(self).free_list_dirty()
            },
            !old(self).ranges().contains_key(handle) ==> exists|got: Option<Range<usize>>|
                #[trigger] take_outcome(
                    old(self).free_slots(),
                    old(self).free_list_dirty(),
                    primitives.len() as nat,
                    got,
                    final(self).free_slots(),
                ) && !final(self).free_list_dirty() && match got {
                    Some(g) => {
                        &&& final(self).ranges() == old(self).ranges().insert(handle, g)
                        &&& final(self).items() == splice(old(self).items(), g, primitives@)
                    },
                    None => {
                        &&& final(self).ranges() == old(self).ranges().insert(
                            handle,
                            Range {
                                start: old(self).items().len() as usize,
                                end: (old(self).items().len() + primitives.len()) as usize,
                            },
                        )
                        &&& final(self).items() == old(self).items() + primitives@
                    },
                },
    {
        broadcast use vstd::std_specs::hash::group_hash_axioms;

        let existing = match self.index.get(&handle) {
            Some(entry) => Some(Range { start: entry.primitive_ids.start, end: entry.primitive_ids.end }),
            None => None,
        };
        if let Some(ids) = existing {
            proof {
                assert(self.ranges()[handle] == ids);
            }
            fill_range(&mut self.items, ids.start, ids.end, &primitives);
            proof {
                assert(ids.end - ids.start == range_len(ids));
            }
        } else {
            let ghost free0 = self.allocator.free_slots();
            let ghost dirty0 = self.allocator.is_dirty();
            let ghost items0 = self.items@;
            let n = primitives.len();
            let taken = self.allocator.take(n);
            let ghost got = taken;
            let ghost free1 = self.allocator.free_slots();
            proof {
                law_take_keeps_tidy(free0, dirty0, n as nat, got, free1);
            }
            let primitive_ids = if let Some(ids) = taken {
                proof {
                    law_take_hands_out_free_slots(free0, dirty0, n as nat, ids, self.allocator.free_slots());
                    assert(ids.end - 1 < items0.len()) by {
                        assert(range_units(ids).contains(ids.end - 1));
                    }
                }
                fill_range(&mut self.items, ids.start, ids.end, &primitives);
                proof {
                    assert(primitives@.take(n as int) =~= primitives@);
                }
                ids
            } else {
                let a = self.items.len();
                append_all(&mut self.items, &primitives);
                let b = self.items.len();

                a..b
            };
            let ghost ids = Range { start: primitive_ids.start, end: primitive_ids.end };
            let ghost index0 = self.index@;
            self.index.insert(handle, IndexedPrimitive { primitive_ids });
            proof {
                assert(self.index@ == index0.insert(handle, IndexedPrimitive { primitive_ids: ids }));
                assert(index0 == old(self).index@);
                let m = old(self).ranges().insert(handle, ids);
                assert forall|k: u64| #[trigger] self.ranges().contains_key(k) <==> m.contains_key(k) by {}
                assert forall|k: u64| #[trigger] self.ranges().contains_key(k) implies self.ranges()[k]
                    == m[k] by {
                    if k != handle {
                        assert(self.index@[k] == old(self).index@[k]);
                    }
                }
                assert(self.ranges() =~= m);
                if got is None {
                    crate::allocator::law_refused_take_keeps_free_slots(free0, dirty0, n as nat, free1);
                }
                assert forall|u: int| #[trigger] free_units(free1).contains(u) implies 0 <= u
                    < self.items@.len() by {
                    assert(free_units(free0).contains(u));
                }
                assert forall|h: u64| #[trigger] self.ranges().contains_key(h) implies range_units(
                    self.ranges()[h],
                ).disjoint(free_units(free1)) by {
                    if h != handle {
                        assert(range_units(old(self).ranges()[h]).disjoint(free_units(free0)));
                    }
                }
                assert forall|h: u64, g: u64|
                    #![trigger self.ranges()[h], self.ranges()[g]]
                    self.ranges().contains_key(h) && self.ranges().contains_key(g) && h != g
                        implies ranges_disjoint(self.ranges()[h], self.ranges()[g]) by {
                    if h == handle || g == handle {
                        let o = if h == handle { g } else { h };
                        let ro = old(self).ranges()[o];
                        assert(range_units(ro).disjoint(free_units(free0)));
                        assert(range_units(ro).disjoint(range_units(ids))) by {
                            if got is None {
                                assert forall|u: int| range_units(ro).contains(u) implies !range_units(
                                    ids,
                                ).contains(u) by {}
                            } else {
                                assert forall|u: int| range_units(ro).contains(u) implies !range_units(
                                    ids,
                                ).contains(u) by {
                                    if range_units(ids).contains(u) {
                                        assert(free_units(free0).contains(u));
                                    }
                                }
                            }
                        }
                        lemma_units_disjoint(ro, ids);
                    } else {
                        assert(ranges_disjoint(old(self).ranges()[h], old(self).ranges()[g]));
                    }
                }
                assert(take_outcome(free0, dirty0, n as nat, got, free1));
                assert(old(self).free_slots() == free0 && old(self).free_list_dirty() == dirty0);
                assert(self.free_slots() == free1 && !self.free_list_dirty());
                assert(take_outcome(
                    old(self).free_slots(),
                    old(self).free_list_dirty(),
                    primitives.len() as nat,
                    got,
                    self.free_slots(),
                ));
                assert(match got {
                    Some(g) => {
                        &&& self.ranges() == old(self).ranges().insert(handle, g)
                        &&& self.items() == splice(old(self).items(), g, primitives@)
                    },
                    None => {
                        &&& self.ranges() == old(self).ranges().insert(
                            handle,
                            Range {
                                start: old(self).items().len() as usize,
                                end: (old(self).items().len() + primitives.len()) as usize,
                            },
                        )
                        &&& self.items() == old(self).items() + primitives@
                    },
                });
            }
        }
    }

    /// Forgets the primitives of `parent`: its slots are killed and become
    /// free.
    pub fn remove(&mut self, parent: u64)
        requires
            old(self).wf(),
        ensures
            final(self).wf(),
            final(self).ranges() == old(self).ranges().remove(parent),
            final(self).current() == old(self).current(),
            final(self).previous() == old(self).previous(),
            old(self).ranges().contains_key(parent) ==> {
                let r = old(self).ranges()[parent];
                &&& final(self).items() == killed(old(self).items(), r)
                &&& final(self).free_slots() == old(self).free_slots().push(r)
                &&& final(self).free_list_dirty() == dirty_after_give(
                    old(self).free_slots(),
                    old(self).free_list_dirty(),
                    r,
                )
            },
            !old(self).ranges().contains_key(parent) ==> {
                &&& final(self).items() == old(self).items()
                &&& final(self).free_slots() == old(self).free_slots()
                &&& final(self).free_list_dirty() == old(self).free_list_dirty()
            },
    {
        broadcast use vstd::std_specs::hash::group_hash_axioms;

        let ghost index0 = self.index@;
        if let Some(entry) = self.index.remove(&parent) {
            let start = entry.primitive_ids.start;
            let end = entry.primitive_ids.end;
            let ghost r = Range { start, end };
            let ghost free0 = self.allocator.free_slots();
            let ghost dirty0 = self.allocator.is_dirty();
            proof {
                assert(old(self).ranges().contains_key(parent));
                assert(old(self).ranges()[parent] == r);
            }
            self.allocator.give(entry.primitive_ids);
            kill_range(&mut self.items, start, end);
            proof {
                law_give_keeps_tidy(free0, dirty0, r);
                law_give_adds_free_slots(free0, r);
                let m = old(self).ranges().remove(parent);
                assert forall|k: u64| #[trigger] self.ranges().contains_key(k) <==> m.contains_key(k) by {}
                assert forall|k: u64| #[trigger] self.ranges().contains_key(k) implies self.ranges()[k]
                    == m[k] by {
                    assert(self.index@[k] == index0[k]);
                }
                assert(self.ranges() =~= m);
                assert forall|h: u64| #[trigger] self.ranges().contains_key(h) implies range_units(
                    self.ranges()[h],
                ).disjoint(free_units(self.free_slots())) by {
                    assert(range_units(old(self).ranges()[h]).disjoint(free_units(free0)));
                    assert(ranges_disjoint(old(self).ranges()[h], r));
                    lemma_disjoint_units(old(self).ranges()[h], r);
                }
            }
        } else {
            proof {
                assert(self.ranges() =~= old(self).ranges().remove(parent));
            }
        }
    }

    /// The range of every slot of the frame being built.
    pub fn all(&self) -> (r: PrimitivesRef)
        ensures
            r.start.0 == 0,
            r.end.0 == self.current().len() as u32,
    {
        PrimitivesRef::range(PrimitiveId::new(0), PrimitiveId::new(self.current.len() as u32))
    }

    /// The slots of `range` in the frame being built.
    pub fn index(&self, range: PrimitivesRef) -> (r: &[Primitive<G>])
        requires
            range.start.0 <= range.end.0 <= self.current().len(),
        ensures
            r@ == self.current().subrange(range.start.0 as int, range.end.0 as int),
    {
        let start = range.start().get() as usize;
        let end = range.end().get() as usize;

        let (_, tail) = self.current.as_slice().split_at(start);
        let (slots, _) = tail.split_at(end - start);
        proof {
            assert(slots@ =~= self.current().subrange(start as int, end as int));
        }
        slots
    }

    /// The slots of `range` in the frame being built, to be written to.
    pub fn index_mut(&mut self, range: PrimitivesRef) -> (r: &mut [Primitive<G>])
        requires
            range.start.0 <= range.end.0 <= old(self).current().len(),
        ensures
            r@ == old(self).current().subrange(range.start.0 as int, range.end.0 as int),
            final(self).current() == old(self).current().take(range.start.0 as int) + final(r)@
                + old(self).current().skip(range.end.0 as int),
            final(self).previous() == old(self).previous(),
            final(self).items() == old(self).items(),
            final(self).ranges() == old(self).ranges(),
            final(self).free_slots() == old(self).free_slots(),
            final(self).free_list_dirty() == old(self).free_list_dirty(),
    {
        let start = range.start().get() as usize;
        let end = range.end().get() as usize;

        let (_, tail) = self.current.as_mut_slice().split_at_mut(start);
        let (slots, _) = tail.split_at_mut(end - start);
        slots
    }

    /// Replaces the slots `current` of the frame being built with the slots
    /// `previous` of the previous frame.
    pub fn copy(&mut self, previous: PrimitivesRef, current: PrimitivesRef)
        requires
            current.start.0 <= current.end.0 <= old(self).current().len(),
            previous.start.0 <= previous.end.0 <= old(self).previous().len(),
            current.end.0 - current.start.0 == previous.end.0 - previous.start.0,
        ensures
            final(self).current() == splice(
                old(self).current(),
                current.as_range_spec(),
                old(self).previous().subrange(previous.start.0 as int, previous.end.0 as int),
            ),
            final(self).previous() == old(self).previous(),
            final(self).items() == old(self).items(),
            final(self).ranges() == old(self).ranges(),
            final(self).free_slots() == old(self).free_slots(),
            final(self).free_list_dirty() == old(self).free_list_dirty(),
    {
        let dst = current.as_range();
        let src = previous.as_range();
        copy_slots(&mut self.current, dst.start, &self.previous, src.start, dst.end - dst.start);
        proof {
            assert(self.current@ =~= splice(
                old(self).current(),
                current.as_range_spec(),
                old(self).previous().subrange(previous.start.0 as int, previous.end.0 as int),
            ));
        }
    }

    /// Starts a frame: its slots are a copy of the slots as last written.
    pub fn begin(&mut self)
        ensures
            final(self).current() == old(self).items(),
            final(self).previous() == old(self).previous(),
            final(self).items() == old(self).items(),
            final(self).ranges() == old(self).ranges(),
            final(self).free_slots() == old(self).free_slots(),
            final(self).free_list_dirty() == old(self).free_list_dirty(),
    {
        self.current = copy_all(&self.items);
    }

    /// Ends a frame: its slots become the previous frame's, and the frame
    /// being built is left empty.
    pub fn commit(&mut self)
        ensures
            final(self).previous() == old(self).current(),
            final(self).current() == Seq::<Primitive<G>>::empty(),
            final(self).items() == old(self).items(),
            final(self).ranges() == old(self).ranges(),
            final(self).free_slots() == old(self).free_slots(),
            final(self).free_list_dirty() == old(self).free_list_dirty(),
    {
        let mut taken: Vec<Primitive<G>> = Vec::new();
        std::mem::swap(&mut taken, &mut self.current);
        self.previous = taken;
    }
}


/// The bottom-level primitives of an instance: the triangles it owns, their
/// bounds and their material.
#[derive(Debug)]
pub struct BlasPrimitives<B> {
    triangle_ids: Range<usize>,
    bounds: B,
    material_id: MaterialId,
}

impl<B: Copy> BlasPrimitives<B> {
    pub fn new(triangle_ids: Range<usize>, bounds: B, material_id: MaterialId) -> (r: Self)
        ensures
            r.triangle_ids_view() == triangle_ids,
            r.bounds_view() == bounds,
            r.material_id_view() == material_id,
    {
        Self { triangle_ids, bounds, material_id }
    }

    pub closed spec fn triangle_ids_view(&self) -> Range<usize> {
        self.triangle_ids
    }

    pub closed spec fn bounds_view(&self) -> B {
        self.bounds
    }

    pub closed spec fn material_id_view(&self) -> MaterialId {
        self.material_id
    }

    pub fn bounds(&self) -> (r: B)
        ensures
            r == self.bounds_view(),
    {
        self.bounds
    }

    pub fn material_id(&self) -> (r: MaterialId)
        ensures
            r == self.material_id_view(),
    {
        self.material_id
    }
}

/// The top-level primitives and, per instance, its bottom-level ones.
#[derive(Debug)]
pub struct Primitives<G, B> {
    tlas: TlasPrimitives<G>,
    blas: HashMap<u64, BlasPrimitives<B>>,
}

impl<G: Copy, B: Copy> Primitives<G, B> {
    pub closed spec fn tlas_view(&self) -> TlasPrimitives<G> {
        self.tlas
    }

    pub closed spec fn blas_view(&self) -> Map<u64, BlasPrimitives<B>> {
        self.blas@
    }

    pub fn tlas(&self) -> (r: &TlasPrimitives<G>)
        ensures
            *r == self.tlas_view(),
    {
        &self.tlas
    }

    pub fn tlas_mut(&mut self) -> (r: &mut TlasPrimitives<G>)
        ensures
            *r == old(self).tlas_view(),
            final(self).tlas_view() == *final(r),
            final(self).blas_view() == old(self).blas_view(),
    {
        &mut self.tlas
    }

    /// Stores the bottom-level primitives of `handle`, replacing those it
    /// had, and returns them.
    pub fn create_blas(&mut self, handle: u64, blas: BlasPrimitives<B>) -> (r: &BlasPrimitives<B>)
        ensures
            final(self).blas_view() == old(self).blas_view().insert(handle, blas),
            final(self).tlas_view() == old(self).tlas_view(),
            *r == blas,
    {
        broadcast use vstd::std_specs::hash::group_hash_axioms;

        self.blas.insert(handle, blas);
        self.blas.get(&handle).unwrap()
    }

    /// The bottom-level primitives of `handle`, which must have some.
    pub fn blas(&self, handle: u64) -> (r: &BlasPrimitives<B>)
        requires
            self.blas_view().contains_key(handle),
        ensures
            *r == self.blas_view()[handle],
    {
        broadcast use vstd::std_specs::hash::group_hash_axioms;

        self.blas.get(&handle).unwrap()
    }

    pub fn delete_blas(&mut self, handle: u64)
        ensures
            final(self).blas_view() == old(self).blas_view().remove(handle),
            final(self).tlas_view() == old(self).tlas_view(),
    {
        broadcast use vstd::std_specs::hash::group_hash_axioms;

        self.blas.remove(&handle);
    }
}

impl<G: Copy, B: Copy> Default for Primitives<G, B> {
    fn default() -> (r: Self)
        ensures
            r.tlas_view().wf(),
            r.tlas_view().items() == Seq::<Primitive<G>>::empty(),
            r.tlas_view().ranges() == Map::<u64, Range<usize>>::empty(),
            r.blas_view() == Map::<u64, BlasPrimitives<B>>::empty(),
    {
        Primitives { tlas: TlasPrimitives::new(), blas: HashMap::new() }
    }
}

} // verus!
