//! Per-session registry of remote-visible objects.
use crate::ids::IdFactory;
use std::collections::HashMap;
use vstd::prelude::*;

verus! {

broadcast use vstd::std_specs::hash::group_hash_axioms;

/// Maps object ids that a client holds to the local values that stand for
/// them. Ids come from a factory and are never handed out twice.
pub struct ObjectTracker<T> {
    ids: IdFactory,
    objects: HashMap<u32, T>,
}

impl<T> ObjectTracker<T> {
    /// The live objects, by id.
    pub closed spec fn objects(&self) -> Map<u32, T> {
        self.objects@
    }

    /// The id that `track` hands out next; all ids below it from the
    /// origin on were handed out already.
    pub closed spec fn issued(&self) -> nat {
        self.ids@
    }

    pub closed spec fn wf(&self) -> bool {
        &&& self.ids.wf()
        &&& forall|id: u32| #[trigger] self.objects@.contains_key(id) ==> (id as nat) < self.ids@
    }

    /// An empty tracker whose first id is `origin`.
    pub fn new(origin: u32) -> (r: Self)
        ensures
            r.wf(),
            r.objects() == Map::<u32, T>::empty(),
            r.issued() == origin as nat,
    {
        ObjectTracker { ids: IdFactory::new(origin), objects: HashMap::new() }
    }

    /// Stores `value` under a fresh id and returns the id; `None` once the
    /// id space is used up, and then nothing changes.
    pub fn track(&mut self, value: T) -> (r: Option<u32>)
        requires
            old(self).wf(),
        ensures
            final(self).wf(),
            match r {
                Some(id) => {
                    &&& id as nat == old(self).issued()
                    &&& !old(self).objects().contains_key(id)
                    &&& final(self).objects() == old(self).objects().insert(id, value)
                    &&& final(self).issued() == old(self).issued() + 1
                },
                None => {
                    &&& old(self).issued() > u32::MAX
                    &&& final(self).objects() == old(self).objects()
                    &&& final(self).issued() == old(self).issued()
                },
            },
    {
        match self.ids.next_id() {
            Some(id) => {
                self.objects.insert(id, value);
                Some(id)
            },
            None => None,
        }
    }

    /// The value tracked under `id`, if it is live.
    pub fn get(&self, id: u32) -> (r: Option<&T>)
        ensures
            match r {
                Some(v) => self.objects().contains_key(id) && *v == self.objects()[id],
                None => !self.objects().contains_key(id),
            },
    {
        self.objects.get(&id)
    }

    /// Whether `id` is live.
    pub fn contains(&self, id: u32) -> (r: bool)
        ensures
            r == self.objects().contains_key(id),
    {
        self.objects.contains_key(&id)
    }

    /// Forgets `id`; returns whether it was live. Releasing an unknown id
    /// changes nothing.
    pub fn release(&mut self, id: u32) -> (r: bool)
        requires
            old(self).wf(),
        ensures
            final(self).wf(),
            r == old(self).objects().contains_key(id),
            final(self).objects() == old(self).objects().remove(id),
            final(self).issued() == old(self).issued(),
    {
        let removed = self.objects.remove(&id);
        proof {
            assert(self.objects@ =~= old(self).objects@.remove(id));
        }
        removed.is_some()
    }

    /// Every id that `track` hands out is fresh: no live object holds it,
    /// nor any id handed out later.
    pub proof fn lemma_live_ids_below_issued(&self, id: u32)
        requires
            self.wf(),
            self.objects().contains_key(id),
        ensures
            (id as nat) < self.issued(),
    {
    }
}

/// Two successful `track` calls, with any `track` or `release` calls between
/// them, return different ids: ids are never reused while the tracker lives.
pub proof fn lemma_track_never_repeats(
    first_before: nat,
    first_id: u32,
    first_after: nat,
    second_before: nat,
    second_id: u32,
)
    requires
        first_id as nat == first_before,
        first_after == first_before + 1,
        first_after <= second_before,
        second_id as nat == second_before,
    ensures
        first_id != second_id,
{
}

/// Once `id` is released it is looked up in vain, and releasing it again
/// reports that it was not there.
pub proof fn lemma_release_twice<T>(before: Map<u32, T>, id: u32)
    ensures
        !before.remove(id).contains_key(id),
        before.remove(id).remove(id) == before.remove(id),
{
    assert(before.remove(id).remove(id) =~= before.remove(id));
}

} // verus!
