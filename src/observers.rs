//! Registrations of client objects that observe one setting each.
use crate::ids::IdFactory;
use vstd::prelude::*;

verus! {

/// A client object that observes the setting `name`.
#[derive(Debug, Clone)]
pub struct NamedObserver {
    pub id: u32,
    pub name: String,
    pub session: u32,
    pub object: u32,
}

/// What a registration holds.
pub struct ObserverView {
    pub id: u32,
    pub name: Seq<char>,
    pub session: u32,
    pub object: u32,
}

impl View for NamedObserver {
    type V = ObserverView;

    open spec fn view(&self) -> ObserverView {
        ObserverView { id: self.id, name: self.name@, session: self.session, object: self.object }
    }
}

/// The registrations of `obs` that observe `name`, oldest first.
pub open spec fn observers_of(obs: Seq<ObserverView>, name: Seq<char>) -> Seq<ObserverView>
    decreases obs.len(),
{
    if obs.len() == 0 {
        seq![]
    } else if obs.last().name == name {
        observers_of(obs.drop_last(), name).push(obs.last())
    } else {
        observers_of(obs.drop_last(), name)
    }
}

/// Whether some registration of `obs` has id `id`.
pub open spec fn holds_id(obs: Seq<ObserverView>, id: u32) -> bool {
    exists|i: int| 0 <= i < obs.len() && (#[trigger] obs[i]).id == id
}

/// The observers of every setting, each under its own registration id.
pub struct ObserverRegistry {
    ids: IdFactory,
    entries: Vec<NamedObserver>,
}

impl ObserverRegistry {
    /// The registrations, oldest first.
    pub closed spec fn observers(&self) -> Seq<ObserverView> {
        self.entries@.map_values(|o: NamedObserver| o@)
    }

    /// The registration id that `add` hands out next.
    pub closed spec fn issued(&self) -> nat {
        self.ids@
    }

    pub closed spec fn wf(&self) -> bool {
        &&& self.ids.wf()
        &&& forall|i: int|
            0 <= i < self.entries@.len() ==> (#[trigger] self.entries@[i]).id < self.ids@
        &&& forall|i: int, j: int|
            0 <= i < j < self.entries@.len() ==> (#[trigger] self.entries@[i]).id
                < (#[trigger] self.entries@[j]).id
    }

    /// A registry with no observer.
    pub fn new() -> (r: Self)
        ensures
            r.wf(),
            r.observers() == Seq::<ObserverView>::empty(),
    {
        let r = ObserverRegistry { ids: IdFactory::new(0), entries: Vec::new() };
        proof {
            assert(r.observers() =~= Seq::<ObserverView>::empty());
        }
        r
    }

    /// Registers object `object` of `session` as an observer of `name`.
    /// Returns the registration id, or `None` once ids are used up, and
    /// then nothing changes.
    pub fn add(&mut self, name: String, session: u32, object: u32) -> (r: Option<u32>)
        requires
            old(self).wf(),
        ensures
            final(self).wf(),
            match r {
                Some(id) => {
                    &&& final(self).observers() == old(self).observers().push(
                        ObserverView { id, name: name@, session, object },
                    )
                    &&& !holds_id(old(self).observers(), id)
                },
                None => final(self).observers() == old(self).observers(),
            },
            r is None <==> old(self).issued() > u32::MAX,
            r matches Some(id) ==> id as nat == old(self).issued(),
            final(self).issued() == if old(self).issued() > u32::MAX {
                old(self).issued()
            } else {
                old(self).issued() + 1
            },
    {
        let id = match self.ids.next_id() {
            Some(id) => id,
            None => return None,
        };
        let ghost before = self.entries@;
        self.entries.push(NamedObserver { id, name, session, object });
        proof {
            assert(self.observers() =~= old(self).observers().push(
                ObserverView { id, name: name@, session, object },
            ));
            if holds_id(old(self).observers(), id) {
                let i = choose|i: int|
                    0 <= i < old(self).observers().len() && (#[trigger] old(self).observers()[i]).id == id;
                assert(before[i].id == id);
            }
        }
        Some(id)
    }

    /// Removes registration `id`; returns whether it was there.
    pub fn remove(&mut self, id: u32) -> (r: bool)
        requires
            old(self).wf(),
        ensures
            final(self).wf(),
            r == holds_id(old(self).observers(), id),
            forall|i: int|
                0 <= i < old(self).observers().len() && (#[trigger] old(self).observers()[i]).id
                    == id ==> final(self).observers() == old(self).observers().remove(i),
            !r ==> final(self).observers() == old(self).observers(),
            !holds_id(final(self).observers(), id),
            final(self).issued() == old(self).issued(),
            forall|x: ObserverView|
                #![trigger final(self).observers().contains(x)]
                final(self).observers().contains(x) <==> (old(self).observers().contains(x) && x.id
                    != id),
            forall|other: u32|
                holds_id(final(self).observers(), other) ==> holds_id(old(self).observers(), other),
    {
        let ghost before = self.entries@;
        let n = self.entries.len();
        let mut i: usize = 0;
        while i < n
            invariant
                n == before.len(),
                i <= n,
                self.entries@ == before,
                forall|j: int| 0 <= j < i ==> (#[trigger] before[j]).id != id,
            ensures
                i < n ==> before[i as int].id == id,
                forall|j: int| 0 <= j < i ==> (#[trigger] before[j]).id != id,
            decreases n - i,
        {
            if self.entries[i].id == id {
                break;
            }
            i = i + 1;
        }
        if i == n {
            proof {
                if holds_id(old(self).observers(), id) {
                    let j = choose|j: int|
                        0 <= j < old(self).observers().len() && (#[trigger] old(self).observers()[j]).id == id;
                    assert(before[j].id == id);
                }
                assert forall|x: ObserverView| old(self).observers().contains(x) implies x.id != id by {
                    let j = choose|j: int|
                        0 <= j < old(self).observers().len() && old(self).observers()[j] == x;
                    assert(old(self).observers()[j] == before[j]@);
                }
            }
            return false;
        }
        let ghost removed_at = i as int;
        self.entries.remove(i);
        proof {
            let after = self.entries@;
            assert(old(self).observers()[i as int].id == id);
            assert(self.observers() =~= old(self).observers().remove(i as int));
            assert forall|a: int, b: int| 0 <= a < b < after.len() implies (#[trigger] after[a]).id
                < (#[trigger] after[b]).id by {
                let a0 = if a < i { a } else { a + 1 };
                let b0 = if b < i { b } else { b + 1 };
                assert(after[a] == before[a0]);
                assert(after[b] == before[b0]);
            }
            assert forall|a: int| 0 <= a < after.len() implies (#[trigger] after[a]).id
                < self.ids@ by {
                let a0 = if a < i { a } else { a + 1 };
                assert(after[a] == before[a0]);
            }
            assert forall|t: int|
                0 <= t < old(self).observers().len() && (#[trigger] old(self).observers()[t]).id
                    == id implies t == i by {
                assert(old(self).observers()[t] == before[t]@);
                if t < i {
                    assert(before[t].id < before[i as int].id);
                } else if t > i {
                    assert(before[i as int].id < before[t].id);
                }
            }
            let obs = self.observers();
            let old_obs = old(self).observers();
            assert forall|x: ObserverView| obs.contains(x) <==> (old_obs.contains(x) && x.id != id) by {
                if obs.contains(x) {
                    let j = choose|j: int| 0 <= j < obs.len() && obs[j] == x;
                    let j0 = if j < removed_at { j } else { j + 1 };
                    assert(obs[j] == before[j0]@);
                    assert(old_obs[j0] == before[j0]@);
                    if j0 < removed_at {
                        assert(before[j0].id < before[removed_at].id);
                    } else {
                        assert(before[removed_at].id < before[j0].id);
                    }
                }
                if old_obs.contains(x) && x.id != id {
                    let j = choose|j: int| 0 <= j < old_obs.len() && old_obs[j] == x;
                    if j < removed_at {
                        assert(obs[j] == x);
                    } else {
                        assert(j != removed_at);
                        assert(obs[j - 1] == x);
                    }
                }
            }
            if holds_id(obs, id) {
                let j = choose|j: int| 0 <= j < obs.len() && (#[trigger] obs[j]).id == id;
                let j0 = if j < removed_at { j } else { j + 1 };
                assert(obs[j] == before[j0]@);
                if j0 < removed_at {
                    assert(before[j0].id < before[removed_at].id);
                } else {
                    assert(before[removed_at].id < before[j0].id);
                }
            }
            assert forall|other: u32| holds_id(obs, other) implies holds_id(
                old(self).observers(),
                other,
            ) by {
                let j = choose|j: int| 0 <= j < obs.len() && (#[trigger] obs[j]).id == other;
                let j0 = if j < removed_at { j } else { j + 1 };
                assert(old(self).observers()[j0].id == other);
            }
        }
        true
    }

    /// The registrations that observe `name`, oldest first.
    pub fn observers_of(&self, name: &String) -> (r: Vec<NamedObserver>)
        ensures
            r@.map_values(|o: NamedObserver| o@) == observers_of(self.observers(), name@),
    {
        let mut out: Vec<NamedObserver> = Vec::new();
        let n = self.entries.len();
        let mut i: usize = 0;
        while i < n
            invariant
                n == self.entries@.len(),
                i <= n,
                out@.map_values(|o: NamedObserver| o@) == observers_of(
                    self.observers().subrange(0, i as int),
                    name@,
                ),
            decreases n - i,
        {
            let ghost prev = self.observers().subrange(0, i as int);
            proof {
                assert(self.observers().subrange(0, i + 1).drop_last() =~= prev);
            }
            if self.entries[i].name == *name {
                let o = NamedObserver {
                    id: self.entries[i].id,
                    name: self.entries[i].name.clone(),
                    session: self.entries[i].session,
                    object: self.entries[i].object,
                };
                let ghost before = out@;
                out.push(o);
                proof {
                    assert(out@.map_values(|o: NamedObserver| o@) =~= before.map_values(
                        |o: NamedObserver| o@,
                    ).push(o@));
                }
            }
            i = i + 1;
        }
        proof {
            assert(self.observers().subrange(0, n as int) =~= self.observers());
        }
        out
    }
}

} // verus!
