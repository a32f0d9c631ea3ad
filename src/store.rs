//! The settings store: named JSON values, each name at most once.
use crate::json::JsonValue;
use vstd::prelude::*;

verus! {

/// One named setting.
#[derive(Debug)]
pub struct SettingInfo {
    pub name: String,
    pub value: JsonValue,
}

/// A setting as a name and the text of its value.
pub struct SettingView {
    pub name: Seq<char>,
    pub value: Seq<char>,
}

impl View for SettingInfo {
    type V = SettingView;

    open spec fn view(&self) -> SettingView {
        SettingView { name: self.name@, value: self.value@ }
    }
}

impl SettingInfo {
    /// A copy of the setting.
    pub fn duplicate(&self) -> (r: SettingInfo)
        ensures
            r@ == self@,
    {
        SettingInfo { name: self.name.clone(), value: self.value.duplicate() }
    }
}

/// Whether some entry of `s` is named `n`.
pub open spec fn holds_name(s: Seq<SettingView>, n: Seq<char>) -> bool {
    exists|i: int| 0 <= i < s.len() && (#[trigger] s[i]).name == n
}

/// No two entries of `s` share a name.
pub open spec fn names_unique(s: Seq<SettingView>) -> bool {
    forall|i: int, j: int|
        0 <= i < s.len() && 0 <= j < s.len() && (#[trigger] s[i]).name == (#[trigger] s[j]).name
            ==> i == j
}

/// The value of the entry of `s` named `n`.
pub open spec fn value_of(s: Seq<SettingView>, n: Seq<char>) -> Seq<char> {
    s[choose|i: int| 0 <= i < s.len() && (#[trigger] s[i]).name == n].value
}

/// The settings that `s` holds, by name.
pub open spec fn as_map(s: Seq<SettingView>) -> Map<Seq<char>, Seq<char>> {
    Map::new(|n: Seq<char>| holds_name(s, n), |n: Seq<char>| value_of(s, n))
}

/// The settings after setting each of `updates` in turn.
pub open spec fn apply_updates(
    m: Map<Seq<char>, Seq<char>>,
    updates: Seq<SettingView>,
) -> Map<Seq<char>, Seq<char>>
    decreases updates.len(),
{
    if updates.len() == 0 {
        m
    } else {
        apply_updates(m, updates.drop_last()).insert(updates.last().name, updates.last().value)
    }
}

/// The settings of `m` that `names` asks for, in that order; names that `m`
/// does not hold are left out.
pub open spec fn batch_of(m: Map<Seq<char>, Seq<char>>, names: Seq<Seq<char>>) -> Seq<SettingView>
    decreases names.len(),
{
    if names.len() == 0 {
        seq![]
    } else if m.contains_key(names.last()) {
        batch_of(m, names.drop_last()).push(
            SettingView { name: names.last(), value: m[names.last()] },
        )
    } else {
        batch_of(m, names.drop_last())
    }
}

/// The backing store of the settings service.
pub struct SettingsDb {
    entries: Vec<SettingInfo>,
}

impl SettingsDb {
    pub closed spec fn entries(&self) -> Seq<SettingView> {
        self.entries@.map_values(|e: SettingInfo| e@)
    }

    /// The settings, by name.
    pub open spec fn settings(&self) -> Map<Seq<char>, Seq<char>> {
        as_map(self.entries())
    }

    pub open spec fn wf(&self) -> bool {
        names_unique(self.entries())
    }

    /// An empty store.
    pub fn new() -> (r: Self)
        ensures
            r.wf(),
            r.settings() == Map::<Seq<char>, Seq<char>>::empty(),
    {
        let r = SettingsDb { entries: Vec::new() };
        proof {
            assert(r.settings() =~= Map::<Seq<char>, Seq<char>>::empty());
        }
        r
    }

    /// How many settings the store holds.
    pub fn count(&self) -> (r: usize)
        requires
            self.wf(),
        ensures
            r == self.settings().dom().len(),
    {
        proof {
            self.lemma_dom_len();
        }
        self.entries.len()
    }

    proof fn lemma_dom_len(&self)
        requires
            self.wf(),
        ensures
            self.settings().dom().len() == self.entries().len(),
    {
        let s = self.entries();
        let names = s.map_values(|e: SettingView| e.name);
        assert(self.settings().dom() =~= names.to_set()) by {
            assert forall|n: Seq<char>| #[trigger] holds_name(s, n) implies names.contains(n) by {
                let i = choose|i: int| 0 <= i < s.len() && (#[trigger] s[i]).name == n;
                assert(names[i] == n);
            }
            assert forall|n: Seq<char>| names.contains(n) implies holds_name(s, n) by {
                let i = choose|i: int| 0 <= i < names.len() && names[i] == n;
                assert(s[i].name == n);
            }
        }
        assert(names.no_duplicates()) by {
            assert forall|i: int, j: int|
                0 <= i < names.len() && 0 <= j < names.len() && i != j implies names[i]
                != names[j] by {
                assert(names[i] == s[i].name);
                assert(names[j] == s[j].name);
            }
        }
        names.unique_seq_to_set();
    }

    /// Index of the entry named `name`, if any.
    fn find(&self, name: &String) -> (r: Option<usize>)
        requires
            self.wf(),
        ensures
            match r {
                Some(i) => i < self.entries().len() && self.entries()[i as int].name == name@,
                None => !holds_name(self.entries(), name@),
            },
    {
        let n = self.entries.len();
        let mut i: usize = 0;
        while i < n
            invariant
                n == self.entries@.len(),
                i <= n,
                forall|j: int| 0 <= j < i ==> (#[trigger] self.entries()[j]).name != name@,
            decreases n - i,
        {
            if self.entries[i].name == *name {
                return Some(i);
            }
            i = i + 1;
        }
        None
    }

    proof fn lemma_value_at(&self, i: int)
        requires
            self.wf(),
            0 <= i < self.entries().len(),
        ensures
            self.settings().contains_key(self.entries()[i].name),
            self.settings()[self.entries()[i].name] == self.entries()[i].value,
    {
        let s = self.entries();
        let n = s[i].name;
        assert(holds_name(s, n));
        let j = choose|j: int| 0 <= j < s.len() && (#[trigger] s[j]).name == n;
        assert(j == i);
    }

    /// The setting named `name`, if the store holds one.
    pub fn get(&self, name: &String) -> (r: Option<SettingInfo>)
        requires
            self.wf(),
        ensures
            match r {
                Some(s) => self.settings().contains_key(name@) && s@ == (SettingView {
                    name: name@,
                    value: self.settings()[name@],
                }),
                None => !self.settings().contains_key(name@),
            },
    {
        match self.find(name) {
            Some(i) => {
                proof {
                    self.lemma_value_at(i as int);
                }
                Some(self.entries[i].duplicate())
            },
            None => None,
        }
    }

    /// Sets `setting`, adding it or replacing the value under its name.
    pub fn set_one(&mut self, setting: SettingInfo)
        requires
            old(self).wf(),
        ensures
            final(self).wf(),
            final(self).settings() == old(self).settings().insert(setting@.name, setting@.value),
    {
        let ghost before = self.entries();
        let ghost v = setting@;
        match self.find(&setting.name) {
            Some(i) => {
                self.entries.set(i, setting);
                proof {
                    let s = self.entries();
                    assert(s =~= before.update(i as int, v));
                    assert forall|a: int, b: int|
                        0 <= a < s.len() && 0 <= b < s.len() && (#[trigger] s[a]).name == (
                        #[trigger] s[b]).name implies a == b by {
                        assert(s[a].name == before[a].name);
                        assert(s[b].name == before[b].name);
                    }
                    self.lemma_map_update(before, i as int, v);
                }
            },
            None => {
                self.entries.push(setting);
                proof {
                    let s = self.entries();
                    assert(s =~= before.push(v));
                    assert forall|a: int, b: int|
                        0 <= a < s.len() && 0 <= b < s.len() && (#[trigger] s[a]).name == (
                        #[trigger] s[b]).name implies a == b by {
                        if a < before.len() && b < before.len() {
                            assert(s[a] == before[a]);
                            assert(s[b] == before[b]);
                        } else if a < before.len() {
                            assert(s[a] == before[a]);
                        } else if b < before.len() {
                            assert(s[b] == before[b]);
                        }
                    }
                    self.lemma_map_push(before, v);
                }
            },
        }
    }

    proof fn lemma_map_update(&self, before: Seq<SettingView>, i: int, v: SettingView)
        requires
            names_unique(before),
            self.wf(),
            0 <= i < before.len(),
            before[i].name == v.name,
            self.entries() == before.update(i, v),
        ensures
            self.settings() == as_map(before).insert(v.name, v.value),
    {
        let s = self.entries();
        assert forall|n: Seq<char>| holds_name(s, n) == holds_name(before, n) by {
            if holds_name(s, n) {
                let j = choose|j: int| 0 <= j < s.len() && (#[trigger] s[j]).name == n;
                assert(before[j].name == n);
            }
            if holds_name(before, n) {
                let j = choose|j: int| 0 <= j < before.len() && (#[trigger] before[j]).name == n;
                assert(s[j].name == n);
            }
        }
        assert forall|n: Seq<char>| holds_name(s, n) && n != v.name implies value_of(s, n)
            == value_of(before, n) by {
            let j = choose|j: int| 0 <= j < s.len() && (#[trigger] s[j]).name == n;
            let k = choose|k: int| 0 <= k < before.len() && (#[trigger] before[k]).name == n;
            assert(before[j].name == n);
            assert(j != i);
            assert(j == k);
        }
        self.lemma_value_at(i);
        assert(self.settings() =~= as_map(before).insert(v.name, v.value));
    }

    proof fn lemma_map_push(&self, before: Seq<SettingView>, v: SettingView)
        requires
            names_unique(before),
            self.wf(),
            !holds_name(before, v.name),
            self.entries() == before.push(v),
        ensures
            self.settings() == as_map(before).insert(v.name, v.value),
    {
        let s = self.entries();
        let last = before.len() as int;
        assert forall|n: Seq<char>| holds_name(s, n) == (holds_name(before, n) || n == v.name) by {
            if holds_name(s, n) {
                let j = choose|j: int| 0 <= j < s.len() && (#[trigger] s[j]).name == n;
                if j < last {
                    assert(before[j].name == n);
                }
            }
            if holds_name(before, n) {
                let j = choose|j: int| 0 <= j < before.len() && (#[trigger] before[j]).name == n;
                assert(s[j].name == n);
            }
            if n == v.name {
                assert(s[last].name == n);
            }
        }
        assert forall|n: Seq<char>| holds_name(s, n) && n != v.name implies value_of(s, n)
            == value_of(before, n) by {
            let j = choose|j: int| 0 <= j < s.len() && (#[trigger] s[j]).name == n;
            let k = choose|k: int| 0 <= k < before.len() && (#[trigger] before[k]).name == n;
            assert(s[k].name == n);
            assert(j == k);
        }
        self.lemma_value_at(last);
        assert(self.settings() =~= as_map(before).insert(v.name, v.value));
    }

    /// Sets each of `settings` in turn.
    pub fn set(&mut self, settings: &Vec<SettingInfo>)
        requires
            old(self).wf(),
        ensures
            final(self).wf(),
            final(self).settings() == apply_updates(
                old(self).settings(),
                settings@.map_values(|e: SettingInfo| e@),
            ),
    {
        let n = settings.len();
        let mut i: usize = 0;
        let ghost all = settings@.map_values(|e: SettingInfo| e@);
        while i < n
            invariant
                n == settings@.len(),
                i <= n,
                self.wf(),
                all == settings@.map_values(|e: SettingInfo| e@),
                self.settings() == apply_updates(old(self).settings(), all.subrange(0, i as int)),
            decreases n - i,
        {
            let s = settings[i].duplicate();
            self.set_one(s);
            proof {
                assert(all.subrange(0, i + 1).drop_last() =~= all.subrange(0, i as int));
            }
            i = i + 1;
        }
        proof {
            assert(all.subrange(0, n as int) =~= all);
        }
    }

    /// The settings that `names` asks for, in that order, leaving out names
    /// that the store does not hold.
    pub fn get_batch(&self, names: &Vec<String>) -> (r: Vec<SettingInfo>)
        requires
            self.wf(),
        ensures
            r@.map_values(|e: SettingInfo| e@) == batch_of(
                self.settings(),
                names@.map_values(|n: String| n@),
            ),
    {
        let mut out: Vec<SettingInfo> = Vec::new();
        let n = names.len();
        let mut i: usize = 0;
        let ghost all = names@.map_values(|n: String| n@);
        while i < n
            invariant
                n == names@.len(),
                i <= n,
                self.wf(),
                all == names@.map_values(|n: String| n@),
                out@.map_values(|e: SettingInfo| e@) == batch_of(
                    self.settings(),
                    all.subrange(0, i as int),
                ),
            decreases n - i,
        {
            let ghost before = out@;
            proof {
                assert(all.subrange(0, i + 1).drop_last() =~= all.subrange(0, i as int));
            }
            match self.get(&names[i]) {
                Some(s) => {
                    out.push(s);
                    proof {
                        assert(out@.map_values(|e: SettingInfo| e@) =~= before.map_values(
                            |e: SettingInfo| e@,
                        ).push(s@));
                    }
                },
                None => {},
            }
            i = i + 1;
        }
        proof {
            assert(all.subrange(0, n as int) =~= all);
        }
        out
    }

    /// Removes every setting.
    pub fn clear(&mut self)
        ensures
            final(self).wf(),
            final(self).settings() == Map::<Seq<char>, Seq<char>>::empty(),
    {
        self.entries.clear();
        proof {
            assert(self.settings() =~= Map::<Seq<char>, Seq<char>>::empty());
        }
    }
}

} // verus!
