use std::ops::Range;

use vstd::prelude::*;

verus! {

// ---------------------------------------------------------------------------
// The model: a free list is a sequence of half-open ranges of slot indices.
// ---------------------------------------------------------------------------

/// Number of slots in `r`; a range whose end is not after its start holds none.
pub open spec fn range_len(r: Range<usize>) -> nat {
    if r.start < r.end {
        (r.end - r.start) as nat
    } else {
        0
    }
}

/// The slot indices that `r` covers.
pub open spec fn range_units(r: Range<usize>) -> Set<int> {
    Set::new(|u: int| r.start <= u < r.end)
}

/// The slot indices that some range of `s` covers.
pub open spec fn free_units(s: Seq<Range<usize>>) -> Set<int> {
    Set::new(|u: int| exists|k: int| 0 <= k < s.len() && range_units(#[trigger] s[k]).contains(u))
}

/// `a` and `b` share no slot.
pub open spec fn ranges_disjoint(a: Range<usize>, b: Range<usize>) -> bool {
    a.end <= a.start || b.end <= b.start || a.end <= b.start || b.end <= a.start
}

/// No range of `s` ends before it starts.
pub open spec fn ranges_well_formed(s: Seq<Range<usize>>) -> bool {
    forall|k: int| 0 <= k < s.len() ==> s[k].start <= s[k].end
}

/// No two ranges of `s` share a slot.
pub open spec fn pairwise_disjoint(s: Seq<Range<usize>>) -> bool {
    forall|i: int, j: int|
        0 <= i < s.len() && 0 <= j < s.len() && i != j ==> ranges_disjoint(s[i], s[j])
}

/// Ranges are ordered by their start.
pub open spec fn sorted_by_start(s: Seq<Range<usize>>) -> bool {
    forall|i: int, j: int| 0 <= i < j < s.len() ==> s[i].start <= s[j].start
}

/// No range ends exactly where the next one starts.
pub open spec fn no_touching_neighbours(s: Seq<Range<usize>>) -> bool {
    forall|k: int| 0 <= k < s.len() - 1 ==> s[k].end != #[trigger] s[k + 1].start
}

/// Every range ends strictly before the next one starts.
pub open spec fn gapped(s: Seq<Range<usize>>) -> bool {
    forall|k: int| 0 <= k < s.len() - 1 ==> s[k].end < #[trigger] s[k + 1].start
}

/// `r` placed into `s` right after the last range (from the back) whose
/// start is not greater than `r.start`: one step of a stable sort by start.
pub open spec fn insert_by_start(s: Seq<Range<usize>>, r: Range<usize>) -> Seq<Range<usize>>
    decreases s.len(),
{
    if s.len() == 0 {
        seq![r]
    } else if s.last().start <= r.start {
        s.push(r)
    } else {
        insert_by_start(s.drop_last(), r).push(s.last())
    }
}

/// `s` stably sorted by the start of its ranges.
pub open spec fn sort_by_start(s: Seq<Range<usize>>) -> Seq<Range<usize>>
    decreases s.len(),
{
    if s.len() == 0 {
        s
    } else {
        insert_by_start(sort_by_start(s.drop_last()), s.last())
    }
}

/// `x` appended to `acc`, joined to the last range of `acc` when that range
/// ends exactly where `x` starts.
pub open spec fn join_step(acc: Seq<Range<usize>>, x: Range<usize>) -> Seq<Range<usize>> {
    if acc.len() > 0 && acc.last().end == x.start {
        acc.drop_last().push(Range { start: acc.last().start, end: x.end })
    } else {
        acc.push(x)
    }
}

/// The ranges of `rest`, from left to right, joined onto `acc`.
pub open spec fn join_all(acc: Seq<Range<usize>>, rest: Seq<Range<usize>>) -> Seq<Range<usize>>
    decreases rest.len(),
{
    if rest.len() == 0 {
        acc
    } else {
        join_all(join_step(acc, rest[0]), rest.drop_first())
    }
}

/// `s` with every run of touching neighbours merged into one range.
pub open spec fn coalesce(s: Seq<Range<usize>>) -> Seq<Range<usize>> {
    join_all(Seq::empty(), s)
}

/// The free list that a request works on: sorted and coalesced when the
/// list was marked dirty, the list itself otherwise.
pub open spec fn compacted(s: Seq<Range<usize>>, dirty: bool) -> Seq<Range<usize>> {
    if dirty && s.len() > 0 {
        coalesce(sort_by_start(s))
    } else {
        s
    }
}

/// `i` is the first range of `s` that holds at least `len` slots.
pub open spec fn is_first_fit(s: Seq<Range<usize>>, len: nat, i: int) -> bool {
    &&& 0 <= i < s.len()
    &&& range_len(s[i]) >= len
    &&& forall|j: int| 0 <= j < i ==> range_len(s[j]) < len
}

/// No range of `s` holds `len` slots.
pub open spec fn no_fit(s: Seq<Range<usize>>, len: nat) -> bool {
    forall|j: int| 0 <= j < s.len() ==> range_len(s[j]) < len
}

/// The first `len` slots of `s[i]`.
pub open spec fn carved(s: Seq<Range<usize>>, i: int, len: nat) -> Range<usize> {
    Range { start: s[i].start, end: (s[i].start + len) as usize }
}

/// `s` once the first `len` slots of `s[i]` are handed out: the range is
/// shortened from its start, or dropped when nothing of it is left.
pub open spec fn carve(s: Seq<Range<usize>>, i: int, len: nat) -> Seq<Range<usize>> {
    if range_len(s[i]) > len {
        s.update(i, Range { start: (s[i].start + len) as usize, end: s[i].end })
    } else {
        s.remove(i)
    }
}

/// Every range of `s` holds at least one slot.
pub open spec fn all_nonempty(s: Seq<Range<usize>>) -> bool {
    forall|k: int| 0 <= k < s.len() ==> s[k].start < s[k].end
}

/// The free list is in the shape that `give` and `take` keep it in when
/// ranges come back whole and unshared: no empty range, no two ranges sharing
/// a slot, and, while not dirty, every range ending strictly before the next
/// one starts.
pub open spec fn tidy(s: Seq<Range<usize>>, dirty: bool) -> bool {
    &&& all_nonempty(s)
    &&& pairwise_disjoint(s)
    &&& !dirty ==> gapped(s)
}

/// The `len` slots starting at `u` are all free in `s`.
pub open spec fn has_free_run(s: Seq<Range<usize>>, u: int, len: nat) -> bool {
    forall|v: int| u <= v < u + len ==> #[trigger] free_units(s).contains(v)
}

/// The dirty flag once `slot` is given back to the list `s`.
pub open spec fn dirty_after_give(s: Seq<Range<usize>>, dirty: bool, slot: Range<usize>) -> bool {
    dirty || (s.len() > 0 && slot.start <= s.last().end)
}

/// What a request for `len` slots does to the free list `s`: it works on
/// the compacted list; it fails when no range there holds `len` slots, and
/// otherwise carves `got` out of the first range that does.
pub open spec fn take_outcome(
    s: Seq<Range<usize>>,
    dirty: bool,
    len: nat,
    got: Option<Range<usize>>,
    after: Seq<Range<usize>>,
) -> bool {
    let c = compacted(s, dirty);
    &&& got is None <==> no_fit(c, len)
    &&& got is None ==> after == c
    &&& got matches Some(g) ==> exists|i: int|
        #![trigger is_first_fit(c, len, i)]
        is_first_fit(c, len, i) && g == carved(c, i, len) && after == carve(c, i, len)
}

// ---------------------------------------------------------------------------
// Lemmas on the model.
// ---------------------------------------------------------------------------

/// Inserting by start is inserting at the position found by scanning from
/// the back for the first range whose start is not greater than `r.start`.
pub proof fn lemma_insert_by_start_at(s: Seq<Range<usize>>, r: Range<usize>, j: int)
    requires
        0 <= j <= s.len(),
        j > 0 ==> s[j - 1].start <= r.start,
        forall|m: int| j <= m < s.len() ==> s[m].start > r.start,
    ensures
        insert_by_start(s, r) == s.insert(j, r),
    decreases s.len(),
{
    if s.len() == 0 {
        assert(s.insert(j, r) =~= seq![r]);
    } else if s.last().start <= r.start {
        assert(j == s.len());
        assert(s.insert(j, r) =~= s.push(r));
    } else {
        lemma_insert_by_start_at(s.drop_last(), r, j);
        assert(s.drop_last().insert(j, r).push(s.last()) =~= s.insert(j, r));
    }
}


/// Inserting by start puts `r` at some position of `s`.
pub proof fn lemma_insert_by_start_is_insert(s: Seq<Range<usize>>, r: Range<usize>) -> (j: int)
    ensures
        0 <= j <= s.len(),
        insert_by_start(s, r) == s.insert(j, r),
    decreases s.len(),
{
    if s.len() == 0 {
        assert(s.insert(0, r) =~= seq![r]);
        0
    } else if s.last().start <= r.start {
        assert(s.insert(s.len() as int, r) =~= s.push(r));
        s.len() as int
    } else {
        let j = lemma_insert_by_start_is_insert(s.drop_last(), r);
        assert(s.drop_last().insert(j, r).push(s.last()) =~= s.insert(j, r));
        j
    }
}

/// The elements of `s.insert(j, r)` are those of `s` and `r`.
pub proof fn lemma_insert_contains(s: Seq<Range<usize>>, j: int, r: Range<usize>)
    requires
        0 <= j <= s.len(),
    ensures
        forall|x: Range<usize>| s.insert(j, r).contains(x) <==> (s.contains(x) || x == r),
{
    let t = s.insert(j, r);
    assert forall|x: Range<usize>| t.contains(x) <==> (s.contains(x) || x == r) by {
        if t.contains(x) {
            let k = choose|k: int| 0 <= k < t.len() && t[k] == x;
            if k < j {
                assert(s[k] == x);
            } else if k > j {
                assert(s[k - 1] == x);
            }
        }
        if s.contains(x) {
            let k = choose|k: int| 0 <= k < s.len() && s[k] == x;
            if k < j {
                assert(t[k] == x);
            } else {
                assert(t[k + 1] == x);
            }
        }
        if x == r {
            assert(t[j] == x);
        }
    }
}

/// The elements of `s` are those of `s.drop_last()` and its last one.
pub proof fn lemma_drop_last_contains(s: Seq<Range<usize>>)
    requires
        s.len() > 0,
    ensures
        forall|x: Range<usize>| s.contains(x) <==> (s.drop_last().contains(x) || x == s.last()),
{
    assert forall|x: Range<usize>| s.contains(x) <==> (s.drop_last().contains(x) || x == s.last()) by {
        if s.contains(x) {
            let k = choose|k: int| 0 <= k < s.len() && s[k] == x;
            if k < s.len() - 1 {
                assert(s.drop_last()[k] == x);
            }
        }
        if s.drop_last().contains(x) {
            let k = choose|k: int| 0 <= k < s.drop_last().len() && s.drop_last()[k] == x;
            assert(s[k] == x);
        }
        if x == s.last() {
            assert(s[s.len() - 1] == x);
        }
    }
}

/// Inserting a range that shares no slot with any range of a pairwise
/// disjoint list keeps it pairwise disjoint.
pub proof fn lemma_insert_pairwise_disjoint(s: Seq<Range<usize>>, j: int, r: Range<usize>)
    requires
        0 <= j <= s.len(),
        pairwise_disjoint(s),
        forall|m: int| 0 <= m < s.len() ==> ranges_disjoint(#[trigger] s[m], r),
    ensures
        pairwise_disjoint(s.insert(j, r)),
{
    let t = s.insert(j, r);
    assert forall|a: int, b: int| 0 <= a < t.len() && 0 <= b < t.len() && a != b implies
        ranges_disjoint(t[a], t[b]) by {
        let ia = if a < j { a } else { a - 1 };
        let ib = if b < j { b } else { b - 1 };
        if a == j {
            assert(t[b] == s[ib]);
            assert(ranges_disjoint(s[ib], r));
        } else if b == j {
            assert(t[a] == s[ia]);
            assert(ranges_disjoint(s[ia], r));
        } else {
            assert(t[a] == s[ia]);
            assert(t[b] == s[ib]);
        }
    }
}

/// Inserting by start into a sorted list keeps it sorted.
pub proof fn lemma_insert_by_start_sorted(s: Seq<Range<usize>>, r: Range<usize>)
    requires
        sorted_by_start(s),
    ensures
        sorted_by_start(insert_by_start(s, r)),
    decreases s.len(),
{
    if s.len() == 0 {
    } else if s.last().start <= r.start {
        let t = s.push(r);
        assert forall|a: int, b: int| 0 <= a < b < t.len() implies t[a].start <= t[b].start by {
            if b == s.len() {
                assert(s[a].start <= s[s.len() - 1].start);
            }
        }
    } else {
        lemma_insert_by_start_sorted(s.drop_last(), r);
        let j = lemma_insert_by_start_is_insert(s.drop_last(), r);
        let t = insert_by_start(s.drop_last(), r);
        let u = t.push(s.last());
        assert forall|a: int, b: int| 0 <= a < b < u.len() implies u[a].start <= u[b].start by {
            if b == t.len() {
                if a < j {
                    assert(t[a] == s[a]);
                } else if a > j {
                    assert(t[a] == s[a - 1]);
                }
            }
        }
    }
}

/// Sorting by start keeps the elements, their count and their shape, and
/// sorts.
pub proof fn lemma_sort_by_start(s: Seq<Range<usize>>)
    ensures
        sort_by_start(s).len() == s.len(),
        sorted_by_start(sort_by_start(s)),
        forall|x: Range<usize>| sort_by_start(s).contains(x) <==> s.contains(x),
        pairwise_disjoint(s) ==> pairwise_disjoint(sort_by_start(s)),
    decreases s.len(),
{
    if s.len() > 0 {
        let d = s.drop_last();
        lemma_sort_by_start(d);
        let t = sort_by_start(d);
        lemma_insert_by_start_sorted(t, s.last());
        let j = lemma_insert_by_start_is_insert(t, s.last());
        lemma_insert_contains(t, j, s.last());
        lemma_drop_last_contains(s);
        if pairwise_disjoint(s) {
            assert forall|m: int| 0 <= m < t.len() implies ranges_disjoint(#[trigger] t[m], s.last()) by {
                assert(t.contains(t[m]));
                assert(d.contains(t[m]));
                let k = choose|k: int| 0 <= k < d.len() && d[k] == t[m];
                assert(s[k] == t[m]);
                assert(ranges_disjoint(s[k], s[s.len() - 1]));
            }
            assert(pairwise_disjoint(d)) by {
                assert forall|a: int, b: int| 0 <= a < d.len() && 0 <= b < d.len() && a != b implies
                    ranges_disjoint(d[a], d[b]) by {
                    assert(d[a] == s[a] && d[b] == s[b]);
                }
            }
            lemma_insert_pairwise_disjoint(t, j, s.last());
        }
    }
}

/// A property of the elements carries over between lists with the same
/// elements: the free slots.
pub proof fn lemma_free_units_same_elements(s: Seq<Range<usize>>, t: Seq<Range<usize>>)
    requires
        forall|x: Range<usize>| s.contains(x) <==> t.contains(x),
    ensures
        free_units(s) == free_units(t),
        ranges_well_formed(s) ==> ranges_well_formed(t),
        all_nonempty(s) ==> all_nonempty(t),
{
    assert forall|u: int| free_units(s).contains(u) implies free_units(t).contains(u) by {
        let k = choose|k: int| 0 <= k < s.len() && range_units(#[trigger] s[k]).contains(u);
        assert(s.contains(s[k]));
        let m = choose|m: int| 0 <= m < t.len() && t[m] == s[k];
        assert(range_units(t[m]).contains(u));
    }
    assert forall|u: int| free_units(t).contains(u) implies free_units(s).contains(u) by {
        let k = choose|k: int| 0 <= k < t.len() && range_units(#[trigger] t[k]).contains(u);
        assert(t.contains(t[k]));
        let m = choose|m: int| 0 <= m < s.len() && s[m] == t[k];
        assert(range_units(s[m]).contains(u));
    }
    assert(free_units(s) =~= free_units(t));
    assert forall|k: int| 0 <= k < t.len() implies (ranges_well_formed(s) ==> t[k].start <= t[k].end)
        && (all_nonempty(s) ==> t[k].start < t[k].end) by {
        assert(t.contains(t[k]));
        let m = choose|m: int| 0 <= m < s.len() && s[m] == t[k];
    }
}

/// A sorted list is its own stable sort.
pub proof fn lemma_sort_of_sorted(s: Seq<Range<usize>>)
    requires
        sorted_by_start(s),
    ensures
        sort_by_start(s) == s,
    decreases s.len(),
{
    if s.len() > 0 {
        let d = s.drop_last();
        assert(sorted_by_start(d)) by {
            assert forall|a: int, b: int| 0 <= a < b < d.len() implies d[a].start <= d[b].start by {
                assert(d[a] == s[a] && d[b] == s[b]);
            }
        }
        lemma_sort_of_sorted(d);
        if d.len() > 0 {
            assert(d.last().start <= s.last().start);
        }
        assert(d.push(s.last()) =~= s);
    }
}


/// `s` with `s[n - 1]` and `s[n]` replaced by one range from the start of
/// the first to the end of the second.
pub open spec fn merge_at(s: Seq<Range<usize>>, n: int) -> Seq<Range<usize>> {
    s.remove(n).update(n - 1, Range { start: s[n - 1].start, end: s[n].end })
}

/// Merging two touching neighbours keeps the free slots and the shape of
/// the list.
pub proof fn lemma_merge_at(s: Seq<Range<usize>>, n: int)
    requires
        1 <= n < s.len(),
        s[n - 1].end == s[n].start,
    ensures
        ranges_well_formed(s) ==> ranges_well_formed(merge_at(s, n)) && free_units(merge_at(s, n))
            == free_units(s),
        ranges_well_formed(s) && pairwise_disjoint(s) ==> pairwise_disjoint(merge_at(s, n)),
        sorted_by_start(s) ==> sorted_by_start(merge_at(s, n)),
        all_nonempty(s) ==> all_nonempty(merge_at(s, n)),
{
    let t = merge_at(s, n);
    let m = Range { start: s[n - 1].start, end: s[n].end };
    assert(t.len() == s.len() - 1);
    assert(t[n - 1] == m);
    assert forall|k: int| 0 <= k < t.len() && k != n - 1 implies #[trigger] t[k] == s[
        if k < n - 1 { k } else { k + 1 }
    ] by {}
    if ranges_well_formed(s) {
        assert forall|k: int| 0 <= k < t.len() implies t[k].start <= t[k].end by {
            if k != n - 1 {
                assert(t[k] == s[if k < n - 1 { k } else { k + 1 }]);
            }
        }
        assert forall|u: int| free_units(s).contains(u) implies free_units(t).contains(u) by {
            let k = choose|k: int| 0 <= k < s.len() && range_units(#[trigger] s[k]).contains(u);
            if k == n - 1 || k == n {
                assert(range_units(t[n - 1]).contains(u));
            } else if k < n - 1 {
                assert(t[k] == s[k]);
                assert(range_units(t[k]).contains(u));
            } else {
                assert(t[k - 1] == s[k]);
                assert(range_units(t[k - 1]).contains(u));
            }
        }
        assert forall|u: int| free_units(t).contains(u) implies free_units(s).contains(u) by {
            let k = choose|k: int| 0 <= k < t.len() && range_units(#[trigger] t[k]).contains(u);
            if k == n - 1 {
                if u < s[n - 1].end {
                    assert(range_units(s[n - 1]).contains(u));
                } else {
                    assert(range_units(s[n]).contains(u));
                }
            } else if k < n - 1 {
                assert(t[k] == s[k]);
                assert(range_units(s[k]).contains(u));
            } else {
                assert(t[k] == s[k + 1]);
                assert(range_units(s[k + 1]).contains(u));
            }
        }
        assert(free_units(t) =~= free_units(s));
        if pairwise_disjoint(s) {
            assert forall|a: int, b: int| 0 <= a < t.len() && 0 <= b < t.len() && a != b implies
                ranges_disjoint(t[a], t[b]) by {
                let ia = if a < n - 1 { a } else { a + 1 };
                let ib = if b < n - 1 { b } else { b + 1 };
                if a == n - 1 {
                    assert(t[b] == s[ib]);
                    assert(ranges_disjoint(s[ib], s[n - 1]));
                    assert(ranges_disjoint(s[ib], s[n]));
                } else if b == n - 1 {
                    assert(t[a] == s[ia]);
                    assert(ranges_disjoint(s[ia], s[n - 1]));
                    assert(ranges_disjoint(s[ia], s[n]));
                } else {
                    assert(t[a] == s[ia]);
                    assert(t[b] == s[ib]);
                }
            }
        }
    }
    if sorted_by_start(s) {
        assert forall|a: int, b: int| 0 <= a < b < t.len() implies t[a].start <= t[b].start by {
            let ia = if a < n - 1 { a } else { a + 1 };
            let ib = if b < n - 1 { b } else { b + 1 };
            if a == n - 1 {
                assert(t[b] == s[ib]);
                assert(s[n - 1].start <= s[ib].start);
            } else if b == n - 1 {
                assert(t[a] == s[ia]);
                assert(s[ia].start <= s[n - 1].start);
            } else {
                assert(t[a] == s[ia]);
                assert(t[b] == s[ib]);
            }
        }
    }
    if all_nonempty(s) {
        assert forall|k: int| 0 <= k < t.len() implies t[k].start < t[k].end by {
            if k != n - 1 {
                assert(t[k] == s[if k < n - 1 { k } else { k + 1 }]);
            } else {
                assert(s[n - 1].start < s[n - 1].end);
                assert(s[n].start < s[n].end);
            }
        }
    }
}

/// One step of joining, seen on the whole list: it is unchanged, or two
/// touching neighbours at the seam are merged.
pub proof fn lemma_join_step(acc: Seq<Range<usize>>, rest: Seq<Range<usize>>)
    requires
        rest.len() > 0,
    ensures
        ({
            let before = acc + rest;
            let after = join_step(acc, rest[0]) + rest.drop_first();
            ||| after == before
            ||| acc.len() >= 1 && before[acc.len() - 1].end == before[acc.len() as int].start
                && after == merge_at(before, acc.len() as int)
        }),
        join_step(acc, rest[0]).len() >= 1,
        no_touching_neighbours(acc) ==> no_touching_neighbours(join_step(acc, rest[0])),
{
    let before = acc + rest;
    let x = rest[0];
    let j = join_step(acc, x);
    let after = j + rest.drop_first();
    let n = acc.len() as int;
    if acc.len() > 0 && acc.last().end == x.start {
        assert(before[n - 1] == acc.last());
        assert(before[n] == x);
        assert(after =~= merge_at(before, n));
        if no_touching_neighbours(acc) {
            assert forall|k: int| 0 <= k < j.len() - 1 implies j[k].end != #[trigger] j[k + 1].start by {
                assert(j[k] == acc[k]);
                if k + 1 == n - 1 {
                    assert(j[k + 1].start == acc[k + 1].start);
                } else {
                    assert(j[k + 1] == acc[k + 1]);
                }
            }
        }
    } else {
        assert(after =~= before);
        if no_touching_neighbours(acc) {
            assert forall|k: int| 0 <= k < j.len() - 1 implies j[k].end != #[trigger] j[k + 1].start by {
                assert(j[k] == acc[k]);
                if k + 1 == n {
                    assert(j[k + 1] == x);
                } else {
                    assert(j[k + 1] == acc[k + 1]);
                }
            }
        }
    }
}

/// Joining keeps the free slots and the shape of the list, leaves no touching
/// neighbours behind, and changes nothing in a gapped list.
pub proof fn lemma_join_all(acc: Seq<Range<usize>>, rest: Seq<Range<usize>>)
    ensures
        ranges_well_formed(acc + rest) ==> ranges_well_formed(join_all(acc, rest)) && free_units(
            join_all(acc, rest),
        ) == free_units(acc + rest),
        ranges_well_formed(acc + rest) && pairwise_disjoint(acc + rest) ==> pairwise_disjoint(
            join_all(acc, rest),
        ),
        sorted_by_start(acc + rest) ==> sorted_by_start(join_all(acc, rest)),
        all_nonempty(acc + rest) ==> all_nonempty(join_all(acc, rest)),
        no_touching_neighbours(acc) ==> no_touching_neighbours(join_all(acc, rest)),
        gapped(acc + rest) ==> join_all(acc, rest) == acc + rest,
    decreases rest.len(),
{
    if rest.len() == 0 {
        assert(acc + rest =~= acc);
    } else {
        let before = acc + rest;
        let next = join_step(acc, rest[0]);
        let after = next + rest.drop_first();
        lemma_join_step(acc, rest);
        lemma_join_all(next, rest.drop_first());
        if after != before {
            lemma_merge_at(before, acc.len() as int);
            let n = acc.len() as int;
            if gapped(before) {
                assert(before[n - 1].end < before[n].start);
            }
        }
    }
}


/// In a gapped list of well-formed ranges, every range ends strictly before
/// any later range starts.
pub proof fn lemma_gapped_ordered(s: Seq<Range<usize>>, i: int, j: int)
    requires
        gapped(s),
        ranges_well_formed(s),
        0 <= i < j < s.len(),
    ensures
        s[i].end < s[j].start,
    decreases j - i,
{
    if j > i + 1 {
        lemma_gapped_ordered(s, i, j - 1);
        let k = j - 1;
        assert(s[k].end < s[k + 1].start);
    } else {
        assert(s[i].end < s[i + 1].start);
    }
}

/// A gapped list of well-formed ranges is sorted by start.
pub proof fn lemma_gapped_sorted(s: Seq<Range<usize>>)
    requires
        gapped(s),
        ranges_well_formed(s),
    ensures
        sorted_by_start(s),
{
    assert forall|a: int, b: int| 0 <= a < b < s.len() implies s[a].start <= s[b].start by {
        lemma_gapped_ordered(s, a, b);
    }
}

/// A sorted list of nonempty, pairwise disjoint ranges without touching
/// neighbours is gapped.
pub proof fn lemma_canonical_gapped(s: Seq<Range<usize>>)
    requires
        sorted_by_start(s),
        all_nonempty(s),
        pairwise_disjoint(s),
        no_touching_neighbours(s),
    ensures
        gapped(s),
{
    assert forall|k: int| 0 <= k < s.len() - 1 implies s[k].end < #[trigger] s[k + 1].start by {
        assert(ranges_disjoint(s[k], s[k + 1]));
        assert(s[k].start <= s[k + 1].start);
        assert(s[k].end != s[k + 1].start);
    }
}

/// Compaction keeps the free slots and the shape of the list; a dirty list
/// comes out sorted, without touching neighbours.
pub proof fn lemma_compacted(s: Seq<Range<usize>>, dirty: bool)
    ensures
        ranges_well_formed(s) ==> ranges_well_formed(compacted(s, dirty)) && free_units(
            compacted(s, dirty),
        ) == free_units(s),
        ranges_well_formed(s) && pairwise_disjoint(s) ==> pairwise_disjoint(compacted(s, dirty)),
        all_nonempty(s) ==> all_nonempty(compacted(s, dirty)),
        dirty ==> sorted_by_start(compacted(s, dirty)) && no_touching_neighbours(
            compacted(s, dirty),
        ),
{
    if dirty && s.len() > 0 {
        let t = sort_by_start(s);
        lemma_sort_by_start(s);
        lemma_free_units_same_elements(s, t);
        lemma_join_all(Seq::empty(), t);
        assert(Seq::<Range<usize>>::empty() + t =~= t);
    } else if dirty {
        assert(s.len() == 0);
    }
}

/// A tidy list comes out of compaction nonempty, pairwise disjoint and
/// gapped.
pub proof fn lemma_tidy_compacted(s: Seq<Range<usize>>, dirty: bool)
    requires
        tidy(s, dirty),
    ensures
        all_nonempty(compacted(s, dirty)),
        pairwise_disjoint(compacted(s, dirty)),
        gapped(compacted(s, dirty)),
        ranges_well_formed(compacted(s, dirty)),
        free_units(compacted(s, dirty)) == free_units(s),
{
    lemma_compacted(s, dirty);
    if dirty {
        lemma_canonical_gapped(compacted(s, dirty));
    }
}

/// A gapped list of well-formed ranges is left as it is by compaction.
pub proof fn lemma_gapped_compacted(s: Seq<Range<usize>>)
    requires
        gapped(s),
        ranges_well_formed(s),
    ensures
        compacted(s, true) == s,
{
    if s.len() > 0 {
        lemma_gapped_sorted(s);
        lemma_sort_of_sorted(s);
        lemma_join_all(Seq::empty(), s);
        assert(Seq::<Range<usize>>::empty() + s =~= s);
    }
}

/// Carving the first `len` slots out of a range of a well-formed, pairwise
/// disjoint list removes exactly those slots from the free slots.
pub proof fn lemma_carve(s: Seq<Range<usize>>, i: int, len: nat)
    requires
        ranges_well_formed(s),
        pairwise_disjoint(s),
        0 <= i < s.len(),
        range_len(s[i]) >= len,
        len > 0,
    ensures
        range_len(carved(s, i, len)) == len,
        range_units(carved(s, i, len)).subset_of(free_units(s)),
        free_units(carve(s, i, len)) == free_units(s).difference(range_units(carved(s, i, len))),
        ranges_well_formed(carve(s, i, len)),
        pairwise_disjoint(carve(s, i, len)),
        all_nonempty(s) ==> all_nonempty(carve(s, i, len)),
        gapped(s) ==> gapped(carve(s, i, len)),
{
    let g = carved(s, i, len);
    let t = carve(s, i, len);
    let r = s[i];
    assert(r.start + len <= r.end);
    assert(g.start == r.start && g.end == r.start + len);
    // every slot of `g` is a slot of `s[i]`
    assert forall|u: int| range_units(g).contains(u) implies free_units(s).contains(u) by {
        assert(range_units(s[i]).contains(u));
    }
    // the range at `i` is kept shortened, or dropped
    let shortened = range_len(r) > len;
    assert forall|k: int| 0 <= k < t.len() implies #[trigger] t[k] == (if shortened {
        if k == i { Range { start: (r.start + len) as usize, end: r.end } } else { s[k] }
    } else {
        if k < i { s[k] } else { s[k + 1] }
    }) by {}
    // each range of `t` lies inside a range of `s` at the matching index
    assert forall|u: int| free_units(t).contains(u) implies free_units(s).difference(
        range_units(g),
    ).contains(u) by {
        let k = choose|k: int| 0 <= k < t.len() && range_units(#[trigger] t[k]).contains(u);
        let ks = if shortened { k } else if k < i { k } else { k + 1 };
        assert(range_units(s[ks]).contains(u));
        if ks != i {
            assert(ranges_disjoint(s[ks], s[i]));
        }
    }
    assert forall|u: int| free_units(s).difference(range_units(g)).contains(u) implies free_units(
        t,
    ).contains(u) by {
        let k = choose|k: int| 0 <= k < s.len() && range_units(#[trigger] s[k]).contains(u);
        if k == i {
            assert(shortened);
            assert(range_units(t[i]).contains(u));
        } else {
            let kt = if shortened { k } else if k < i { k } else { k - 1 };
            assert(t[kt] == s[k]);
            assert(range_units(t[kt]).contains(u));
        }
    }
    assert(free_units(t) =~= free_units(s).difference(range_units(g)));
    assert forall|a: int, b: int| 0 <= a < t.len() && 0 <= b < t.len() && a != b implies
        ranges_disjoint(t[a], t[b]) by {
        let ia = if shortened { a } else if a < i { a } else { a + 1 };
        let ib = if shortened { b } else if b < i { b } else { b + 1 };
        assert(ranges_disjoint(s[ia], s[ib]));
    }
    if gapped(s) {
        assert forall|k: int| 0 <= k < t.len() - 1 implies t[k].end < #[trigger] t[k + 1].start by {
            if shortened {
                assert(s[k].end < s[k + 1].start);
            } else if k + 1 < i {
                assert(s[k].end < s[k + 1].start);
            } else if k + 1 == i {
                assert(s[k].end < s[k + 1].start);
                let k1 = k + 1;
                assert(s[k1].end < s[k1 + 1].start);
            } else {
                let k1 = k + 1;
                assert(s[k1].end < s[k1 + 1].start);
            }
        }
    }
}

/// In a nonempty, gapped list, a run of free slots lies inside one range.
pub proof fn lemma_run_in_one_range(s: Seq<Range<usize>>, u: int, len: nat) -> (j: int)
    requires
        all_nonempty(s),
        gapped(s),
        len > 0,
        has_free_run(s, u, len),
    ensures
        0 <= j < s.len(),
        s[j].start <= u,
        u + len <= s[j].end,
{
    assert(free_units(s).contains(u));
    let j = choose|j: int| 0 <= j < s.len() && range_units(#[trigger] s[j]).contains(u);
    if u + len > s[j].end {
        let v = s[j].end as int;
        assert(free_units(s).contains(v));
        let k = choose|k: int| 0 <= k < s.len() && range_units(#[trigger] s[k]).contains(v);
        if k > j {
            lemma_gapped_ordered(s, j, k);
        } else if k < j {
            lemma_gapped_ordered(s, k, j);
        }
    }
    j
}

} // verus!
