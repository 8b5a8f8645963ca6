//! Values filed under types: at most one value for each key.

use core::any::TypeId;

use vstd::prelude::*;

use crate::keys::same_key;

verus! {

/// Where `key` stands in `entries`.
pub open spec fn index_of<V>(entries: Seq<(TypeId, V)>, key: TypeId) -> int {
    choose|i: int| 0 <= i < entries.len() && entries[i].0 == key
}

/// What `entries` files under each key.
pub open spec fn map_of<V>(entries: Seq<(TypeId, V)>) -> Map<TypeId, V> {
    Map::new(
        |key: TypeId| exists|i: int| 0 <= i < entries.len() && entries[i].0 == key,
        |key: TypeId| entries[index_of(entries, key)].1,
    )
}

/// No key filed twice.
pub open spec fn distinct<V>(entries: Seq<(TypeId, V)>) -> bool {
    forall|i: int, j: int| 0 <= i < j < entries.len() ==> #[trigger] entries[i].0 != #[trigger] entries[j].0
}

pub(crate) proof fn lemma_index<V>(entries: Seq<(TypeId, V)>, i: int)
    requires
        distinct(entries),
        0 <= i < entries.len(),
    ensures
        index_of(entries, entries[i].0) == i,
        map_of(entries).dom().contains(entries[i].0),
        map_of(entries)[entries[i].0] == entries[i].1,
{
    let w = index_of(entries, entries[i].0);
    assert(0 <= w < entries.len() && entries[w].0 == entries[i].0);
    if w < i {
        assert(entries[w].0 != entries[i].0);
    } else if w > i {
        assert(entries[i].0 != entries[w].0);
    }
}

proof fn lemma_pushed<V>(entries: Seq<(TypeId, V)>, key: TypeId, value: V)
    requires
        distinct(entries),
        !map_of(entries).dom().contains(key),
    ensures
        distinct(entries.push((key, value))),
        map_of(entries.push((key, value))) =~= map_of(entries).insert(key, value),
{
    let after = entries.push((key, value));
    assert(forall|i: int| 0 <= i < entries.len() ==> #[trigger] entries[i].0 != key);
    assert(distinct(after)) by {
        assert forall|i: int, j: int| 0 <= i < j < after.len() implies #[trigger] after[i].0 != #[trigger] after[j].0 by {
            if j < entries.len() {
                assert(entries[i].0 != entries[j].0);
            }
        }
    }
    lemma_index(after, entries.len() as int);
    assert forall|k: TypeId| #[trigger] map_of(after).dom().contains(k) implies k == key || map_of(entries).dom().contains(k) by {
        let i = choose|i: int| 0 <= i < after.len() && after[i].0 == k;
        if i < entries.len() {
            assert(entries[i].0 == k);
        }
    }
    assert forall|k: TypeId| k != key && #[trigger] map_of(entries).dom().contains(k) implies map_of(after).dom().contains(k)
        && map_of(after)[k] == map_of(entries)[k] by {
        let i = choose|i: int| 0 <= i < entries.len() && entries[i].0 == k;
        lemma_index(entries, i);
        assert(after[i] == entries[i]);
        lemma_index(after, i);
    }
}

proof fn lemma_updated<V>(entries: Seq<(TypeId, V)>, i: int, value: V)
    requires
        distinct(entries),
        0 <= i < entries.len(),
    ensures
        distinct(entries.update(i, (entries[i].0, value))),
        map_of(entries.update(i, (entries[i].0, value))) =~= map_of(entries).insert(entries[i].0, value),
{
    let key = entries[i].0;
    let after = entries.update(i, (key, value));
    assert(distinct(after)) by {
        assert forall|a: int, b: int| 0 <= a < b < after.len() implies #[trigger] after[a].0 != #[trigger] after[b].0 by {
            assert(entries[a].0 != entries[b].0);
        }
    }
    lemma_index(after, i);
    lemma_index(entries, i);
    assert forall|k: TypeId| #[trigger] map_of(after).dom().contains(k) implies map_of(entries).dom().contains(k) by {
        let j = choose|j: int| 0 <= j < after.len() && after[j].0 == k;
        assert(entries[j].0 == k);
    }
    assert forall|k: TypeId| k != key && #[trigger] map_of(entries).dom().contains(k) implies map_of(after).dom().contains(k)
        && map_of(after)[k] == map_of(entries)[k] by {
        let j = choose|j: int| 0 <= j < entries.len() && entries[j].0 == k;
        lemma_index(entries, j);
        assert(after[j] == entries[j]);
        lemma_index(after, j);
    }
}

proof fn lemma_removed<V>(entries: Seq<(TypeId, V)>, i: int)
    requires
        distinct(entries),
        0 <= i < entries.len(),
    ensures
        distinct(entries.remove(i)),
        map_of(entries.remove(i)) =~= map_of(entries).remove(entries[i].0),
{
    let key = entries[i].0;
    let after = entries.remove(i);
    assert(distinct(after)) by {
        assert forall|a: int, b: int| 0 <= a < b < after.len() implies #[trigger] after[a].0 != #[trigger] after[b].0 by {
            let oa = if a < i { a } else { a + 1 };
            let ob = if b < i { b } else { b + 1 };
            assert(entries[oa].0 != entries[ob].0);
        }
    }
    assert forall|k: TypeId| #[trigger] map_of(after).dom().contains(k) implies k != key && map_of(entries).dom().contains(k) by {
        let j = choose|j: int| 0 <= j < after.len() && after[j].0 == k;
        let oj = if j < i { j } else { j + 1 };
        assert(entries[oj].0 == k);
        assert(entries[oj].0 != entries[i].0);
    }
    assert forall|k: TypeId| k != key && #[trigger] map_of(entries).dom().contains(k) implies map_of(after).dom().contains(k)
        && map_of(after)[k] == map_of(entries)[k] by {
        let j = choose|j: int| 0 <= j < entries.len() && entries[j].0 == k;
        lemma_index(entries, j);
        let aj = if j < i { j } else { j - 1 };
        assert(after[aj] == entries[j]);
        lemma_index(after, aj);
    }
}

/// Values filed under types, at most one under each.
pub struct Keyed<V> {
    entries: Vec<(TypeId, V)>,
}

impl<V> View for Keyed<V> {
    type V = Map<TypeId, V>;

    open spec fn view(&self) -> Map<TypeId, V> {
        self.filed()
    }
}

impl<V> Keyed<V> {
    pub closed spec fn filed(&self) -> Map<TypeId, V> {
        map_of(self.entries@)
    }

    pub closed spec fn wf(&self) -> bool {
        distinct(self.entries@)
    }

    /// Nothing filed.
    pub fn new() -> (r: Keyed<V>)
        ensures
            r.wf(),
            r@ == Map::<TypeId, V>::empty(),
    {
        let r = Keyed { entries: Vec::new() };
        proof {
            assert(r@ =~= Map::<TypeId, V>::empty());
        }
        r
    }

    fn find(&self, key: &TypeId) -> (r: Option<usize>)
        requires
            self.wf(),
        ensures
            match r {
                Some(i) => i < self.entries@.len() && self.entries@[i as int].0 == *key,
                None => !self@.dom().contains(*key),
            },
    {
        let mut k: usize = 0;
        while k < self.entries.len()
            invariant
                k <= self.entries.len(),
                forall|j: int| 0 <= j < k ==> self.entries@[j].0 != *key,
            decreases self.entries.len() - k,
        {
            if same_key(&self.entries[k].0, key) {
                return Some(k);
            }
            k = k + 1;
        }
        None
    }

    /// Whether anything is filed under `key`.
    pub fn contains(&self, key: &TypeId) -> (r: bool)
        requires
            self.wf(),
        ensures
            r == self@.dom().contains(*key),
    {
        match self.find(key) {
            Some(i) => {
                proof {
                    lemma_index(self.entries@, i as int);
                }
                true
            },
            None => false,
        }
    }

    /// What is filed under `key`.
    pub fn get(&self, key: &TypeId) -> (r: Option<&V>)
        requires
            self.wf(),
        ensures
            match r {
                Some(v) => self@.dom().contains(*key) && *v == self@[*key],
                None => !self@.dom().contains(*key),
            },
    {
        match self.find(key) {
            Some(i) => {
                proof {
                    lemma_index(self.entries@, i as int);
                }
                Some(&self.entries[i].1)
            },
            None => None,
        }
    }

    /// Files `value` under `key`, in place of whatever was there.
    pub fn insert(&mut self, key: TypeId, value: V)
        requires
            old(self).wf(),
        ensures
            final(self).wf(),
            final(self)@ == old(self)@.insert(key, value),
    {
        match self.find(&key) {
            Some(i) => {
                proof {
                    lemma_updated(self.entries@, i as int, value);
                }
                self.entries.set(i, (key, value));
            },
            None => {
                proof {
                    lemma_pushed(self.entries@, key, value);
                }
                self.entries.push((key, value));
            },
        }
    }

    /// Takes out what is filed under `key`.
    pub fn take(&mut self, key: &TypeId) -> (r: Option<V>)
        requires
            old(self).wf(),
        ensures
            final(self).wf(),
            final(self)@ == old(self)@.remove(*key),
            match r {
                Some(v) => old(self)@.dom().contains(*key) && v == old(self)@[*key],
                None => !old(self)@.dom().contains(*key),
            },
    {
        match self.find(key) {
            Some(i) => {
                proof {
                    lemma_index(self.entries@, i as int);
                    lemma_removed(self.entries@, i as int);
                }
                let (_, value) = self.entries.remove(i);
                Some(value)
            },
            None => {
                proof {
                    assert(old(self)@.remove(*key) =~= old(self)@);
                }
                None
            },
        }
    }

    /// Every key with its value.
    pub fn pairs(&self) -> (r: &Vec<(TypeId, V)>)
        requires
            self.wf(),
        ensures
            distinct(r@),
            map_of(r@) == self@,
    {
        &self.entries
    }
}

} // verus!
