use std::collections::HashSet;

use vstd::prelude::*;
use vstd::std_specs::iter::IteratorSpec;

verus! {

/// What happened to an asset since the last frame.
#[derive(Clone, Copy, Debug, PartialEq, Eq, Structural)]
pub enum AssetEvent {
    Added { id: u64 },
    Modified { id: u64 },
    Removed { id: u64 },
    LoadedWithDependencies { id: u64 },
}

/// The assets to extract again and the assets to drop, after `events`, in
/// order: added and modified assets are to be extracted, removed ones are
/// dropped (in the order of their removal); when `removal_cancels_change`,
/// a removal also takes the asset off the assets to extract.
pub open spec fn asset_changes(events: Seq<AssetEvent>, removal_cancels_change: bool) -> (
    Set<u64>,
    Seq<u64>,
)
    decreases events.len(),
{
    if events.len() == 0 {
        (Set::empty(), Seq::empty())
    } else {
        let (changed, removed) = asset_changes(events.drop_last(), removal_cancels_change);
        match events.last() {
            AssetEvent::Added { id } => (changed.insert(id), removed),
            AssetEvent::Modified { id } => (changed.insert(id), removed),
            AssetEvent::Removed { id } => (
                if removal_cancels_change {
                    changed.remove(id)
                } else {
                    changed
                },
                removed.push(id),
            ),
            AssetEvent::LoadedWithDependencies { .. } => (changed, removed),
        }
    }
}

/// `e` adds or modifies the asset `id`.
pub open spec fn changes(e: AssetEvent, id: u64) -> bool {
    e == (AssetEvent::Added { id }) || e == (AssetEvent::Modified { id })
}

/// An asset is extracted again exactly when some event added or modified it
/// and, where removals cancel changes, no later event removed it.
pub proof fn law_extracted_assets(events: Seq<AssetEvent>, removal_cancels_change: bool, id: u64)
    ensures
        asset_changes(events, removal_cancels_change).0.contains(id) <==> exists|i: int|
            0 <= i < events.len() && #[trigger] changes(events[i], id) && (removal_cancels_change
                ==> forall|j: int|
                i < j < events.len() ==> events[j] != (AssetEvent::Removed { id })),
    decreases events.len(),
{
    if events.len() > 0 {
        let d = events.drop_last();
        law_extracted_assets(d, removal_cancels_change, id);
        let last = events.last();
        let n = events.len() - 1;
        assert forall|k: int| 0 <= k < d.len() implies events[k] == d[k] by {}
        let e_full = exists|i: int|
            0 <= i < events.len() && #[trigger] changes(events[i], id) && (removal_cancels_change
                ==> forall|j: int|
                i < j < events.len() ==> events[j] != (AssetEvent::Removed { id }));
        let e_prefix = exists|i: int|
            0 <= i < d.len() && #[trigger] changes(d[i], id) && (removal_cancels_change
                ==> forall|j: int| i < j < d.len() ==> d[j] != (AssetEvent::Removed { id }));
        if changes(last, id) {
            assert(changes(events[n], id));
            assert(e_full);
        } else if last == (AssetEvent::Removed { id }) && removal_cancels_change {
            assert(!asset_changes(events, removal_cancels_change).0.contains(id));
            assert forall|i: int| 0 <= i < events.len() && #[trigger] changes(events[i], id) implies !(
            forall|j: int| i < j < events.len() ==> events[j] != (AssetEvent::Removed { id })) by {
                assert(i != n);
                assert(events[n] == (AssetEvent::Removed { id }));
            }
            assert(!e_full);
        } else {
            assert(asset_changes(events, removal_cancels_change).0.contains(id) == asset_changes(
                d,
                removal_cancels_change,
            ).0.contains(id));
            if e_prefix {
                let i = choose|i: int|
                    0 <= i < d.len() && #[trigger] changes(d[i], id) && (removal_cancels_change
                        ==> forall|j: int| i < j < d.len() ==> d[j] != (AssetEvent::Removed { id }));
                assert(changes(events[i], id));
                if removal_cancels_change {
                    assert forall|j: int| i < j < events.len() implies events[j] != (
                    AssetEvent::Removed { id }) by {
                        if j < n {
                            assert(d[j] != (AssetEvent::Removed { id }));
                        }
                    }
                }
                assert(e_full);
            }
            if e_full {
                let i = choose|i: int|
                    0 <= i < events.len() && #[trigger] changes(events[i], id) && (
                    removal_cancels_change ==> forall|j: int|
                        i < j < events.len() ==> events[j] != (AssetEvent::Removed { id }));
                assert(i != n);
                assert(changes(d[i], id));
                if removal_cancels_change {
                    assert forall|j: int| i < j < d.len() implies d[j] != (AssetEvent::Removed { id }) by {
                        assert(events[j] != (AssetEvent::Removed { id }));
                    }
                }
                assert(e_prefix);
            }
        }
    }
}

/// Sorts the asset events of a frame into the assets to extract again and
/// the assets to drop.
pub fn collect_asset_events(events: &[AssetEvent], removal_cancels_change: bool) -> (r: (
    HashSet<u64>,
    Vec<u64>,
))
    ensures
        r.0@ == asset_changes(events@, removal_cancels_change).0,
        r.1@ == asset_changes(events@, removal_cancels_change).1,
{
    broadcast use vstd::std_specs::hash::group_hash_axioms;

    let mut changed: HashSet<u64> = HashSet::new();
    let mut removed: Vec<u64> = Vec::new();
    let mut k: usize = 0;
    while k < events.len()
        invariant
            k <= events@.len(),
            changed@ == asset_changes(events@.take(k as int), removal_cancels_change).0,
            removed@ == asset_changes(events@.take(k as int), removal_cancels_change).1,
        decreases events@.len() - k,
    {
        proof {
            assert(events@.take(k + 1).drop_last() =~= events@.take(k as int));
        }
        match events[k] {
            AssetEvent::Added { id } | AssetEvent::Modified { id } => {
                changed.insert(id);
            },
            AssetEvent::Removed { id } => {
                if removal_cancels_change {
                    changed.remove(&id);
                }
                removed.push(id);
            },
            AssetEvent::LoadedWithDependencies { .. } => {},
        }
        k += 1;
    }
    proof {
        assert(events@.take(events@.len() as int) =~= events@);
    }
    (changed, removed)
}

/// The pixels extracted for an image: its bytes, or, for an image marked as
/// dynamic, the texture it already is on the GPU.
#[derive(Debug)]
pub enum ExtractedImageData {
    Raw { data: Vec<u8> },
    Texture { is_dynamic: bool },
}

/// Notes the images marked as dynamic this frame, then forgets those that
/// the asset events remove.
pub fn track_dynamic_images(dynamic: &mut HashSet<u64>, marked: &[u64], events: &[AssetEvent])
    ensures
        final(dynamic)@ == old(dynamic)@.union(marked@.to_set()).difference(
            asset_changes(events@, true).1.to_set(),
        ),
{
    broadcast use vstd::std_specs::hash::group_hash_axioms;
    broadcast use vstd::seq_lib::group_seq_properties;

    let ghost start = dynamic@;
    let mut k: usize = 0;
    while k < marked.len()
        invariant
            k <= marked@.len(),
            dynamic@ == start.union(marked@.take(k as int).to_set()),
        decreases marked@.len() - k,
    {
        dynamic.insert(marked[k]);
        proof {
            assert(marked@.take(k + 1) =~= marked@.take(k as int).push(marked@[k as int]));
            marked@.take(k as int).lemma_push_to_set_commute(marked@[k as int]);
            assert(dynamic@ =~= start.union(marked@.take(k + 1).to_set()));
        }
        k += 1;
    }
    proof {
        assert(marked@.take(k as int) =~= marked@);
    }
    let ghost with_marks = dynamic@;
    let mut k: usize = 0;
    while k < events.len()
        invariant
            k <= events@.len(),
            dynamic@ == with_marks.difference(asset_changes(events@.take(k as int), true).1.to_set()),
        decreases events@.len() - k,
    {
        proof {
            assert(events@.take(k + 1).drop_last() =~= events@.take(k as int));
        }
        match events[k] {
            AssetEvent::Removed { id } => {
                dynamic.remove(&id);
            },
            _ => {},
        }
        k += 1;
        proof {
            let before = asset_changes(events@.take(k - 1), true).1;
            let after = asset_changes(events@.take(k as int), true).1;
            match events@[k - 1] {
                AssetEvent::Removed { id } => {
                    assert(after == before.push(id));
                    before.lemma_push_to_set_commute(id);
                },
                _ => {
                    assert(after == before);
                },
            }
            assert(dynamic@ =~= with_marks.difference(after.to_set()));
        }
    }
    proof {
        assert(events@.take(events@.len() as int) =~= events@);
    }
}

/// The pixels to extract for an image: the texture itself when it is
/// marked as dynamic (which it may only be when it can be copied from),
/// else its bytes.
pub fn extracted_image_data(is_dynamic: bool, copy_src: bool, data: Vec<u8>) -> (r: ExtractedImageData)
    requires
        is_dynamic ==> copy_src,
    ensures
        is_dynamic ==> r == (ExtractedImageData::Texture { is_dynamic: true }),
        !is_dynamic ==> (r matches ExtractedImageData::Raw { data: d } && d@ == data@),
{
    if is_dynamic {
        ExtractedImageData::Texture { is_dynamic: true }
    } else {
        ExtractedImageData::Raw { data }
    }
}

/// Of the assets to extract again, those the asset store still has, each
/// once; the others are appended to `removed`, each once, as the store no
/// longer has them.
pub fn split_missing(changed: &HashSet<u64>, available: &HashSet<u64>, removed: &mut Vec<u64>) -> (r: Vec<u64>)
    ensures
        r@.no_duplicates(),
        r@.to_set() == changed@.intersect(available@),
        final(removed)@.len() >= old(removed)@.len(),
        final(removed)@.take(old(removed)@.len() as int) == old(removed)@,
        final(removed)@.skip(old(removed)@.len() as int).no_duplicates(),
        final(removed)@.skip(old(removed)@.len() as int).to_set() == changed@.difference(available@),
{
    broadcast use vstd::std_specs::hash::group_hash_axioms;

    let ghost removed0 = removed@;
    let ghost n0 = removed@.len() as int;
    let ghost ks = vstd::std_specs::hash::spec_hash_keys_iter(changed).remaining().unref();
    let mut kept: Vec<u64> = Vec::new();
    for k in it: changed.iter()
        invariant
            it.seq().unref() == ks,
            ks.to_set() == changed@,
            ks.no_duplicates(),
            0 <= n0 <= removed@.len(),
            removed@.take(n0) == removed0,
            kept@.no_duplicates(),
            removed@.skip(n0).no_duplicates(),
            kept@.to_set() == ks.take(it.index() as int).to_set().intersect(available@),
            removed@.skip(n0).to_set() == ks.take(it.index() as int).to_set().difference(available@),
    {
        let ghost i = it.index() as int;
        let ghost x = ks[i];
        proof {
            assert(ks.take(i + 1) =~= ks.take(i).push(x));
            ks.take(i).lemma_push_to_set_commute(x);
            assert(!ks.take(i).to_set().contains(x)) by {
                if ks.take(i).contains(x) {
                    let j = choose|j: int| 0 <= j < i && ks.take(i)[j] == x;
                    assert(ks[j] == ks[i]);
                }
            }
        }
        let ghost kept0 = kept@;
        let ghost rem0 = removed@.skip(n0);
        let ghost rfull = removed@;
        if available.contains(k) {
            kept.push(*k);
            proof {
                kept0.lemma_push_to_set_commute(x);
                assert(!kept0.to_set().contains(x));
                assert(!kept0.contains(x));
                assert forall|a: int, b: int| 0 <= a < b < kept@.len() implies kept@[a] != kept@[b] by {
                    if b == kept0.len() {
                        assert(kept0.contains(kept@[a]));
                    } else {
                        assert(kept0[a] != kept0[b]);
                    }
                }
                assert(kept@.to_set() =~= ks.take(i + 1).to_set().intersect(available@));
                assert(removed@.skip(n0).to_set() =~= ks.take(i + 1).to_set().difference(available@));
            }
        } else {
            removed.push(*k);
            proof {
                assert(removed@ == rfull.push(x));
                assert forall|j: int| 0 <= j < n0 implies #[trigger] removed@.take(n0)[j] == removed0[j] by {
                    assert(rfull.take(n0)[j] == rfull[j]);
                    assert(removed@[j] == rfull[j]);
                }
                assert(removed@.take(n0) =~= removed0);
                assert forall|j: int| 0 <= j < rem0.len() + 1 implies #[trigger] removed@.skip(n0)[j] == rem0.push(x)[j] by {
                    if j < rem0.len() {
                        assert(rfull.skip(n0)[j] == rfull[n0 + j]);
                        assert(removed@[n0 + j] == rfull[n0 + j]);
                    }
                }
                assert(removed@.skip(n0) =~= rem0.push(x));
                rem0.lemma_push_to_set_commute(x);
                assert(!rem0.to_set().contains(x));
                assert(!rem0.contains(x));
                assert forall|a: int, b: int| 0 <= a < b < rem0.push(x).len() implies rem0.push(x)[a] != rem0.push(x)[b] by {
                    if b == rem0.len() {
                        assert(rem0.contains(rem0.push(x)[a]));
                    } else {
                        assert(rem0[a] != rem0[b]);
                    }
                }
                assert(kept@.to_set() =~= ks.take(i + 1).to_set().intersect(available@));
                assert(removed@.skip(n0).to_set() =~= ks.take(i + 1).to_set().difference(available@));
            }
        }
    }
    proof {
        assert(ks.take(ks.len() as int) =~= ks);
    }
    kept
}

} // verus!
