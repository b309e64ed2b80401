use std::collections::HashMap;

use vstd::prelude::*;

verus! {

/// The meshes of a scene, by handle.
#[derive(Debug)]
pub struct Meshes<M> {
    meshes: HashMap<u64, M>,
}

impl<M> Meshes<M> {
    /// The mesh under each handle.
    pub closed spec fn contents(&self) -> Map<u64, M> {
        self.meshes@
    }

    /// Stores `item` under `handle`, replacing the mesh there was.
    pub fn insert(&mut self, handle: u64, item: M)
        ensures
            final(self).contents() == old(self).contents().insert(handle, item),
    {
        broadcast use vstd::std_specs::hash::group_hash_axioms;

        self.meshes.insert(handle, item);
    }

    /// The mesh under `handle`, if any.
    pub fn get(&self, handle: u64) -> (r: Option<&M>)
        ensures
            match r {
                Some(m) => self.contents().contains_key(handle) && *m == self.contents()[handle],
                None => !self.contents().contains_key(handle),
            },
    {
        broadcast use vstd::std_specs::hash::group_hash_axioms;

        self.meshes.get(&handle)
    }

    /// Forgets the mesh under `handle`.
    pub fn remove(&mut self, handle: u64)
        ensures
            final(self).contents() == old(self).contents().remove(handle),
    {
        broadcast use vstd::std_specs::hash::group_hash_axioms;

        self.meshes.remove(&handle);
    }

    /// Forgets the meshes under every one of `handles` (those removed and
    /// those about to be stored again).
    pub fn remove_all(&mut self, handles: &[u64])
        ensures
            final(self).contents() == old(self).contents().remove_keys(handles@.to_set()),
    {
        broadcast use vstd::std_specs::hash::group_hash_axioms;

        let ghost start = self.meshes@;
        let mut k: usize = 0;
        while k < handles.len()
            invariant
                k <= handles@.len(),
                self.meshes@ == start.remove_keys(handles@.take(k as int).to_set()),
            decreases handles@.len() - k,
        {
            self.meshes.remove(&handles[k]);
            proof {
                assert(handles@.take(k + 1) =~= handles@.take(k as int).push(handles@[k as int]));
                handles@.take(k as int).lemma_push_to_set_commute(handles@[k as int]);
                assert(self.meshes@ =~= start.remove_keys(handles@.take(k + 1).to_set()));
            }
            k += 1;
        }
        proof {
            assert(handles@.take(k as int) =~= handles@);
        }
    }

    /// Number of meshes.
    pub fn len(&self) -> (r: usize)
        ensures
            r == self.contents().len(),
    {
        broadcast use vstd::std_specs::hash::group_hash_axioms;

        self.meshes.len()
    }
}

impl<M> Default for Meshes<M> {
    fn default() -> (r: Self)
        ensures
            r.contents() == Map::<u64, M>::empty(),
    {
        Meshes { meshes: HashMap::new() }
    }
}

} // verus!
