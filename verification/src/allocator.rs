use std::ops::Range;

use vstd::prelude::*;

use crate::free_list::{
    carve, carved, coalesce, compacted, dirty_after_give, free_units, has_free_run, is_first_fit,
    join_all, join_step, lemma_carve, lemma_compacted, lemma_gapped_compacted,
    lemma_gapped_ordered, lemma_insert_by_start_at, lemma_run_in_one_range, lemma_tidy_compacted,
    no_touching_neighbours, pairwise_disjoint, range_len, range_units, ranges_disjoint,
    ranges_well_formed, sort_by_start, sorted_by_start, take_outcome, tidy,
};

verus! {

// ---------------------------------------------------------------------------
// The allocator.
// ---------------------------------------------------------------------------

/// A free list of slot ranges: ranges are given back with `give` and handed
/// out first-fit with `take`.
#[derive(Clone, Debug, PartialEq, Eq)]
pub struct Allocator {
    slots: Vec<Range<usize>>,
    dirty: bool,
}

impl Allocator {
    /// The free ranges, in the order the allocator keeps them.
    pub closed spec fn free_slots(&self) -> Seq<Range<usize>> {
        self.slots@
    }

    /// Whether the free list may need sorting and coalescing before use.
    pub closed spec fn is_dirty(&self) -> bool {
        self.dirty
    }

    /// Adds `slot` to the free list; the list becomes dirty when `slot` does
    /// not start after the end of the last free range.
    pub fn give(&mut self, slot: Range<usize>)
        ensures
            final(self).free_slots() == old(self).free_slots().push(slot),
            final(self).is_dirty() == dirty_after_give(
                old(self).free_slots(),
                old(self).is_dirty(),
                slot,
            ),
    {
        let n = self.slots.len();
        if n > 0 {
            let last_end = self.slots[n - 1].end;
            self.dirty = self.dirty || slot.start <= last_end;
        }
        self.slots.push(slot);
    }

    /// Hands out `len` slots from the first free range that is long enough,
    /// after sorting and coalescing the free list when it is dirty.
    pub fn take(&mut self, len: usize) -> (r: Option<Range<usize>>)
        requires
            len > 0,
        ensures
            take_outcome(
                old(self).free_slots(),
                old(self).is_dirty(),
                len as nat,
                r,
                final(self).free_slots(),
            ),
            !final(self).is_dirty(),
    {
        self.compact();

        let n = self.slots.len();
        let mut slot_id: usize = 0;
        while slot_id < n
            invariant
                len > 0,
                n == self.slots.len(),
                slot_id <= n,
                self.slots@ == compacted(old(self).free_slots(), old(self).is_dirty()),
                !self.dirty,
                forall|j: int| 0 <= j < slot_id ==> range_len(self.slots@[j]) < len,
            decreases n - slot_id,
        {
            let start = self.slots[slot_id].start;
            let end = self.slots[slot_id].end;
            let slot_len = if start < end { end - start } else { 0 };
            if slot_len >= len {
                let remaining_slot_size = slot_len - len;
                if remaining_slot_size > 0 {
                    let shortened = Range { start: start + len, end };
                    let ghost c = self.slots@;
                    self.slots.set(slot_id, shortened);
                    proof {
                        assert(is_first_fit(c, len as nat, slot_id as int));
                        assert(self.slots@ =~= carve(c, slot_id as int, len as nat));
                    }
                    return Some(Range { start, end: start + len });
                } else {
                    let ghost c = self.slots@;
                    let taken = self.slots.remove(slot_id);
                    proof {
                        assert(is_first_fit(c, len as nat, slot_id as int));
                        assert(self.slots@ =~= carve(c, slot_id as int, len as nat));
                        assert(c[slot_id as int].start == start && c[slot_id as int].end == end);
                        assert(taken.start == carved(c, slot_id as int, len as nat).start);
                        assert(taken.end == carved(c, slot_id as int, len as nat).end);
                        assert(taken == carved(c, slot_id as int, len as nat));
                    }
                    return Some(taken);
                }
            }
            slot_id += 1;
        }
        None
    }

    /// Sorts the free list by start and merges touching neighbours, when it
    /// is dirty; clears the flag either way.
    fn compact(&mut self)
        ensures
            final(self).free_slots() == compacted(old(self).free_slots(), old(self).is_dirty()),
            !final(self).is_dirty(),
    {
        let dirty = self.dirty;
        self.dirty = false;
        if !dirty || self.slots.len() == 0 {
            return;
        }
        let mut sorted = sort_slots(&self.slots);
        coalesce_slots(&mut sorted);
        self.slots = sorted;
    }
}

impl Default for Allocator {
    fn default() -> (r: Self)
        ensures
            r.free_slots() == Seq::<Range<usize>>::empty(),
            !r.is_dirty(),
    {
        Allocator { slots: Vec::new(), dirty: false }
    }
}

/// `slots` stably sorted by start.
fn sort_slots(slots: &Vec<Range<usize>>) -> (r: Vec<Range<usize>>)
    ensures
        r@ == sort_by_start(slots@),
{
    let mut sorted: Vec<Range<usize>> = Vec::new();
    let mut k: usize = 0;
    while k < slots.len()
        invariant
            k <= slots.len(),
            sorted@ == sort_by_start(slots@.take(k as int)),
        decreases slots.len() - k,
    {
        let r = Range { start: slots[k].start, end: slots[k].end };
        let mut j = sorted.len();
        while j > 0 && sorted[j - 1].start > r.start
            invariant
                j <= sorted.len(),
                forall|m: int| j <= m < sorted.len() ==> sorted@[m].start > r.start,
            decreases j,
        {
            j -= 1;
        }
        proof {
            lemma_insert_by_start_at(sorted@, r, j as int);
            assert(slots@.take(k + 1).drop_last() =~= slots@.take(k as int));
            assert(slots@.take(k + 1).last() == r);
        }
        sorted.insert(j, r);
        k += 1;
    }
    proof {
        assert(slots@.take(slots.len() as int) =~= slots@);
    }
    sorted
}

/// Merges, from left to right, every range that ends exactly where the next
/// one starts with that next one.
fn coalesce_slots(slots: &mut Vec<Range<usize>>)
    requires
        old(slots).len() > 0,
    ensures
        final(slots)@ == coalesce(old(slots)@),
{
    let ghost s0 = slots@;
    proof {
        assert(join_step(Seq::empty(), s0[0]) =~= s0.take(1));
        assert(s0.drop_first() =~= s0.skip(1));
    }
    let mut idx: usize = 0;
    while idx < slots.len() - 1
        invariant
            slots.len() > 0,
            idx < slots.len(),
            coalesce(s0) == join_all(slots@.take(idx + 1), slots@.skip(idx + 1)),
        decreases slots.len() - idx,
    {
        let ghost s = slots@;
        if slots[idx].end == slots[idx + 1].start {
            let next = slots.remove(idx + 1);
            let merged = Range { start: slots[idx].start, end: next.end };
            slots.set(idx, merged);
            proof {
                assert(s.take(idx + 1).last() == s[idx as int]);
                assert(s.skip(idx + 1)[0] == s[idx + 1]);
                assert(join_step(s.take(idx + 1), s.skip(idx + 1)[0]) =~= slots@.take(idx + 1));
                assert(s.skip(idx + 1).drop_first() =~= slots@.skip(idx + 1));
            }
        } else {
            proof {
                assert(s.take(idx + 1).last() == s[idx as int]);
                assert(s.skip(idx + 1)[0] == s[idx + 1]);
                assert(join_step(s.take(idx + 1), s.skip(idx + 1)[0]) =~= s.take(idx + 2));
                assert(s.skip(idx + 1).drop_first() =~= s.skip(idx + 2));
            }
            idx += 1;
        }
    }
    proof {
        assert(slots@.take(slots.len() as int) =~= slots@);
        assert(slots@.skip(slots.len() as int) =~= Seq::<Range<usize>>::empty());
    }
}


// ---------------------------------------------------------------------------
// Laws of the allocator, over the outcomes that `give` and `take` state.
// ---------------------------------------------------------------------------

/// A successful `take(len)` on a free list whose ranges are well formed and
/// share no slot hands out exactly `len` slots, all of them free, and those
/// slots, and no others, stop being free; the list stays well formed and
/// unshared.
pub proof fn law_take_hands_out_free_slots(
    slots: Seq<Range<usize>>,
    dirty: bool,
    len: nat,
    got: Range<usize>,
    after: Seq<Range<usize>>,
)
    requires
        ranges_well_formed(slots),
        pairwise_disjoint(slots),
        len > 0,
        take_outcome(slots, dirty, len, Some(got), after),
    ensures
        range_len(got) == len,
        got.end == got.start + len,
        range_units(got).subset_of(free_units(slots)),
        free_units(after) == free_units(slots).difference(range_units(got)),
        ranges_well_formed(after),
        pairwise_disjoint(after),
{
    let c = compacted(slots, dirty);
    lemma_compacted(slots, dirty);
    let i = choose|i: int| is_first_fit(c, len, i) && got == carved(c, i, len) && after == carve(
        c,
        i,
        len,
    );
    lemma_carve(c, i, len);
}

/// A `take` that finds no fitting range leaves the free slots as they were.
pub proof fn law_refused_take_keeps_free_slots(
    slots: Seq<Range<usize>>,
    dirty: bool,
    len: nat,
    after: Seq<Range<usize>>,
)
    requires
        ranges_well_formed(slots),
        take_outcome(slots, dirty, len, None, after),
    ensures
        free_units(after) == free_units(slots),
        ranges_well_formed(after),
{
    lemma_compacted(slots, dirty);
}

/// On a tidy free list, `take(len)` succeeds exactly when some `len`
/// consecutive slots are free, and then hands out the run of `len` free slots
/// with the lowest start.
pub proof fn law_take_finds_lowest_free_run(
    slots: Seq<Range<usize>>,
    dirty: bool,
    len: nat,
    got: Option<Range<usize>>,
    after: Seq<Range<usize>>,
)
    requires
        tidy(slots, dirty),
        len > 0,
        take_outcome(slots, dirty, len, got, after),
    ensures
        got is Some <==> exists|u: int| has_free_run(slots, u, len),
        got matches Some(g) ==> has_free_run(slots, g.start as int, len) && forall|u: int|
            has_free_run(slots, u, len) ==> g.start <= u,
{
    let c = compacted(slots, dirty);
    lemma_tidy_compacted(slots, dirty);
    assert forall|u: int| has_free_run(slots, u, len) implies got is Some && (got matches Some(g)
        ==> g.start <= u) by {
        assert(has_free_run(c, u, len));
        let j = lemma_run_in_one_range(c, u, len);
        assert(range_len(c[j]) >= len);
        if let Some(g) = got {
            let i = choose|i: int| is_first_fit(c, len, i) && g == carved(c, i, len) && after
                == carve(c, i, len);
            assert(i <= j);
            if i < j {
                lemma_gapped_ordered(c, i, j);
            }
        }
    }
    if let Some(g) = got {
        law_take_hands_out_free_slots(slots, dirty, len, g, after);
        assert forall|v: int| g.start <= v < g.start + len implies #[trigger] free_units(
            slots,
        ).contains(v) by {
            assert(range_units(g).contains(v));
        }
        assert(has_free_run(slots, g.start as int, len));
    }
}

/// Giving `slot` back makes exactly its slots free, on top of those that
/// already were.
pub proof fn law_give_adds_free_slots(slots: Seq<Range<usize>>, slot: Range<usize>)
    ensures
        free_units(slots.push(slot)) == free_units(slots).union(range_units(slot)),
{
    let t = slots.push(slot);
    assert forall|u: int| free_units(t).contains(u) implies free_units(slots).union(
        range_units(slot),
    ).contains(u) by {
        let k = choose|k: int| 0 <= k < t.len() && range_units(#[trigger] t[k]).contains(u);
        if k < slots.len() {
            assert(t[k] == slots[k]);
        }
    }
    assert forall|u: int| free_units(slots).union(range_units(slot)).contains(u) implies free_units(
        t,
    ).contains(u) by {
        if free_units(slots).contains(u) {
            let k = choose|k: int| 0 <= k < slots.len() && range_units(#[trigger] slots[k]).contains(
                u,
            );
            assert(t[k] == slots[k]);
        } else {
            assert(t[slots.len() as int] == slot);
        }
    }
    assert(free_units(t) =~= free_units(slots).union(range_units(slot)));
}

/// Giving back what a `take` handed out restores the free slots that there
/// were before it, on a free list whose ranges are well formed and unshared.
pub proof fn law_give_back_restores_free_slots(
    slots: Seq<Range<usize>>,
    dirty: bool,
    len: nat,
    got: Range<usize>,
    after: Seq<Range<usize>>,
)
    requires
        ranges_well_formed(slots),
        pairwise_disjoint(slots),
        len > 0,
        take_outcome(slots, dirty, len, Some(got), after),
    ensures
        free_units(after.push(got)) == free_units(slots),
{
    law_take_hands_out_free_slots(slots, dirty, len, got, after);
    law_give_adds_free_slots(after, got);
    assert(free_units(slots).difference(range_units(got)).union(range_units(got)) =~= free_units(
        slots,
    ));
}

/// `take` keeps a tidy free list tidy, and leaves it clean.
pub proof fn law_take_keeps_tidy(
    slots: Seq<Range<usize>>,
    dirty: bool,
    len: nat,
    got: Option<Range<usize>>,
    after: Seq<Range<usize>>,
)
    requires
        tidy(slots, dirty),
        len > 0,
        take_outcome(slots, dirty, len, got, after),
    ensures
        tidy(after, false),
{
    let c = compacted(slots, dirty);
    lemma_tidy_compacted(slots, dirty);
    if let Some(g) = got {
        let i = choose|i: int| is_first_fit(c, len, i) && g == carved(c, i, len) && after == carve(
            c,
            i,
            len,
        );
        lemma_carve(c, i, len);
    }
}

/// Giving back a nonempty range none of whose slots is free keeps a tidy
/// free list tidy.
pub proof fn law_give_keeps_tidy(slots: Seq<Range<usize>>, dirty: bool, slot: Range<usize>)
    requires
        tidy(slots, dirty),
        slot.start < slot.end,
        range_units(slot).disjoint(free_units(slots)),
    ensures
        tidy(slots.push(slot), dirty_after_give(slots, dirty, slot)),
{
    let t = slots.push(slot);
    assert forall|k: int| 0 <= k < slots.len() implies ranges_disjoint(#[trigger] slots[k], slot) by {
        let w = if slots[k].start < slot.start { slot.start } else { slots[k].start };
        if !ranges_disjoint(slots[k], slot) {
            assert(range_units(slots[k]).contains(w as int));
            assert(free_units(slots).contains(w as int));
            assert(range_units(slot).contains(w as int));
        }
    }
    assert forall|a: int, b: int| 0 <= a < t.len() && 0 <= b < t.len() && a != b implies
        ranges_disjoint(t[a], t[b]) by {
        if a == slots.len() {
            assert(ranges_disjoint(slots[b], slot));
        } else if b == slots.len() {
            assert(ranges_disjoint(slots[a], slot));
        } else {
            assert(t[a] == slots[a] && t[b] == slots[b]);
        }
    }
    if !dirty_after_give(slots, dirty, slot) {
        assert forall|k: int| 0 <= k < t.len() - 1 implies t[k].end < #[trigger] t[k + 1].start by {
            if k + 1 < slots.len() {
                assert(t[k] == slots[k]);
                assert(slots[k].end < slots[k + 1].start);
            }
        }
    }
}

/// A tidy list that is not dirty is already sorted and coalesced, so
/// skipping compaction while the flag is clear changes nothing.
pub proof fn law_clean_list_is_compact(slots: Seq<Range<usize>>)
    requires
        tidy(slots, false),
    ensures
        compacted(slots, true) == slots,
{
    lemma_gapped_compacted(slots);
}

/// Compacting keeps the free slots of well-formed ranges, and a dirty list
/// comes out sorted by start with no range ending where the next one starts.
pub proof fn law_compaction_keeps_free_slots(slots: Seq<Range<usize>>, dirty: bool)
    ensures
        ranges_well_formed(slots) ==> free_units(compacted(slots, dirty)) == free_units(slots),
        dirty ==> sorted_by_start(compacted(slots, dirty)) && no_touching_neighbours(
            compacted(slots, dirty),
        ),
{
    lemma_compacted(slots, dirty);
}

} // verus!
