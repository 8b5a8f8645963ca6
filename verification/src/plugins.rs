//! Which plugins are built, which are being built, and which features ran:
//! what decides whether pulling a plugin builds it, finds it built, or is a
//! mistake.
//!
//! A plugin is pulled by its id - by the application or by another plugin
//! while that one builds - and built once, however many pull it. Pulling one
//! that is still being built further down is a dependency cycle; pulling an
//! id that another kind of plugin already took is a collision.

use core::any::TypeId;

use vstd::prelude::*;

use crate::keys::same_key;
use crate::text::same_text;

verus! {

/// What pulling a plugin comes to.
#[derive(Debug)]
pub enum Pull {
    /// Build it now; it is being built until [`Registry::finish`].
    Build,
    /// It is built already: nothing to do.
    Built,
    /// Another kind of plugin took this id.
    Collision,
    /// It is still being built further down: the ids from where it started,
    /// through every plugin that pulled the next, back to itself.
    Cycle(Vec<String>),
}

/// A plugin as the registry keeps it: its id and its kind.
pub open spec fn entry_view(entry: (String, TypeId)) -> (Seq<char>, TypeId) {
    (entry.0@, entry.1)
}

/// The registry as its laws speak of it.
pub struct RegistryView {
    /// Built, in the order they finished.
    pub built: Seq<(Seq<char>, TypeId)>,
    /// Being built, the one that pulled the next first.
    pub building: Seq<(Seq<char>, TypeId)>,
    /// The features that ran.
    pub features: Seq<TypeId>,
}

/// Which plugins are built, and which are being built.
pub struct Registry {
    built: Vec<(String, TypeId)>,
    building: Vec<(String, TypeId)>,
    features: Vec<TypeId>,
}

impl View for Registry {
    type V = RegistryView;

    open spec fn view(&self) -> RegistryView {
        self.registry_view()
    }
}

/// Where the first entry of `entries` with the id `id` stands.
pub open spec fn first_with(entries: Seq<(Seq<char>, TypeId)>, id: Seq<char>) -> Option<int>
    decreases entries.len(),
{
    if entries.len() == 0 {
        None
    } else if entries[0].0 == id {
        Some(0)
    } else {
        match first_with(entries.drop_first(), id) {
            Some(i) => Some(i + 1),
            None => None,
        }
    }
}

/// The ids of a cycle that closes on `at`: from there up the chain being
/// built, and back to the start.
pub open spec fn cycle_through(building: Seq<(Seq<char>, TypeId)>, at: int) -> Seq<Seq<char>> {
    building.subrange(at, building.len() as int).map_values(|entry: (Seq<char>, TypeId)| entry.0).push(
        building[at].0,
    )
}

/// What pulling the plugin `id` of the kind `kind` comes to.
pub open spec fn pulled(view: RegistryView, id: Seq<char>, kind: TypeId) -> Option<Pull> {
    match first_with(view.building, id) {
        Some(i) => if view.building[i].1 == kind {
            None
        } else {
            Some(Pull::Collision)
        },
        None => match first_with(view.built, id) {
            Some(j) => if view.built[j].1 == kind {
                Some(Pull::Built)
            } else {
                Some(Pull::Collision)
            },
            None => Some(Pull::Build),
        },
    }
}

proof fn lemma_first_with(entries: Seq<(Seq<char>, TypeId)>, id: Seq<char>)
    ensures
        match first_with(entries, id) {
            Some(i) => 0 <= i < entries.len() && entries[i].0 == id && forall|j: int|
                0 <= j < i ==> entries[j].0 != id,
            None => forall|j: int| 0 <= j < entries.len() ==> entries[j].0 != id,
        },
    decreases entries.len(),
{
    if entries.len() > 0 {
        lemma_first_with(entries.drop_first(), id);
        assert forall|j: int| 1 <= j < entries.len() implies entries[j] == entries.drop_first()[j - 1] by {}
    }
}

fn find(entries: &Vec<(String, TypeId)>, id: &str) -> (r: Option<usize>)
    ensures
        match r {
            Some(i) => first_with(entries@.map_values(|e: (String, TypeId)| entry_view(e)), id@) == Some(i as int),
            None => first_with(entries@.map_values(|e: (String, TypeId)| entry_view(e)), id@) is None,
        },
{
    let ghost all = entries@.map_values(|e: (String, TypeId)| entry_view(e));
    proof {
        lemma_first_with(all, id@);
    }
    let mut k: usize = 0;
    while k < entries.len()
        invariant
            k <= entries.len(),
            all == entries@.map_values(|e: (String, TypeId)| entry_view(e)),
            forall|j: int| 0 <= j < k ==> all[j].0 != id@,
            match first_with(all, id@) {
                Some(i) => 0 <= i < all.len() && all[i].0 == id@ && forall|j: int| 0 <= j < i ==> all[j].0 != id@,
                None => forall|j: int| 0 <= j < all.len() ==> all[j].0 != id@,
            },
        decreases entries.len() - k,
    {
        if same_text(entries[k].0.as_str(), id) {
            proof {
                let i = first_with(all, id@)->0;
                if i < k {
                } else if i > k {
                    assert(all[k as int].0 == id@);
                }
            }
            return Some(k);
        }
        k = k + 1;
    }
    None
}

impl Registry {
    pub closed spec fn registry_view(&self) -> RegistryView {
        RegistryView {
            built: self.built@.map_values(|e: (String, TypeId)| entry_view(e)),
            building: self.building@.map_values(|e: (String, TypeId)| entry_view(e)),
            features: self.features@,
        }
    }

    /// Nothing built, nothing being built, no feature run.
    pub fn new() -> (r: Registry)
        ensures
            r@.built.len() == 0,
            r@.building.len() == 0,
            r@.features.len() == 0,
    {
        Registry { built: Vec::new(), building: Vec::new(), features: Vec::new() }
    }

    /// Pulls the plugin `id` of the kind `kind`: builds it, finds it built,
    /// or says what is wrong - a cycle, with its path, or a collision.
    pub fn pull(&mut self, id: &str, kind: TypeId) -> (r: Pull)
        ensures
            match pulled(old(self)@, id@, kind) {
                Some(Pull::Build) => r is Build && final(self)@ == (RegistryView {
                    building: old(self)@.building.push((id@, kind)),
                    ..old(self)@
                }),
                Some(outcome) => final(self)@ == old(self)@ && match outcome {
                    Pull::Built => r is Built,
                    _ => r is Collision,
                },
                None => final(self)@ == old(self)@ && match r {
                    Pull::Cycle(path) => path@.map_values(|s: String| s@) == cycle_through(
                        old(self)@.building,
                        first_with(old(self)@.building, id@)->0,
                    ),
                    _ => false,
                },
            },
    {
        proof {
            lemma_first_with(self@.building, id@);
            lemma_first_with(self@.built, id@);
        }
        match find(&self.building, id) {
            Some(i) => {
                if same_key(&self.building[i].1, &kind) {
                    let mut path: Vec<String> = Vec::new();
                    let mut k: usize = i;
                    let ghost building = self@.building;
                    while k < self.building.len()
                        invariant
                            i <= k <= self.building.len(),
                            building == self.building@.map_values(|e: (String, TypeId)| entry_view(e)),
                            path@.map_values(|s: String| s@) == building.subrange(i as int, k as int).map_values(
                                |entry: (Seq<char>, TypeId)| entry.0,
                            ),
                        decreases self.building.len() - k,
                    {
                        let name = self.building[k].0.clone();
                        let ghost prev = path@;
                        path.push(name);
                        proof {
                            assert(building[k as int] == entry_view(self.building@[k as int]));
                            assert(name@ == building[k as int].0);
                            assert(path@ == prev.push(name));
                            let before = building.subrange(i as int, k as int).map_values(
                                |entry: (Seq<char>, TypeId)| entry.0,
                            );
                            let after = building.subrange(i as int, k + 1).map_values(
                                |entry: (Seq<char>, TypeId)| entry.0,
                            );
                            assert(prev.map_values(|s: String| s@).len() == prev.len());
                            assert(before.len() == k - i);
                            assert(prev.len() == k - i);
                            assert(after.len() == path@.len());
                            assert forall|t: int| 0 <= t < after.len() implies after[t] == path@[t]@ by {
                                assert(building.subrange(i as int, k + 1)[t] == building[i + t]);
                                if t < prev.len() {
                                    assert(prev.map_values(|s: String| s@)[t] == before[t]);
                                    assert(building.subrange(i as int, k as int)[t] == building[i + t]);
                                }
                            }
                            assert(path@.map_values(|s: String| s@) =~= building.subrange(i as int, k + 1).map_values(
                                |entry: (Seq<char>, TypeId)| entry.0,
                            ));
                        }
                        k = k + 1;
                    }
                    let back = self.building[i].0.clone();
                    path.push(back);
                    proof {
                        assert(path@.map_values(|s: String| s@) =~= cycle_through(building, i as int));
                    }
                    Pull::Cycle(path)
                } else {
                    Pull::Collision
                }
            },
            None => match find(&self.built, id) {
                Some(j) => {
                    if same_key(&self.built[j].1, &kind) {
                        Pull::Built
                    } else {
                        Pull::Collision
                    }
                },
                None => {
                    self.building.push((String::from_str(id), kind));
                    proof {
                        assert(self@.building =~= old(self)@.building.push((id@, kind)));
                    }
                    Pull::Build
                },
            },
        }
    }

    /// The plugin built last is done: built, when it succeeded; not built,
    /// and free to be pulled again, when it failed.
    pub fn finish(&mut self, succeeded: bool)
        requires
            old(self)@.building.len() > 0,
        ensures
            final(self)@ == (RegistryView {
                built: if succeeded {
                    old(self)@.built.push(old(self)@.building.last())
                } else {
                    old(self)@.built
                },
                building: old(self)@.building.drop_last(),
                ..old(self)@
            }),
    {
        let ghost before = self@;
        let done = self.building.pop();
        match done {
            Some(entry) => {
                if succeeded {
                    self.built.push(entry);
                }
            },
            None => {},
        }
        proof {
            assert(self@.building =~= before.building.drop_last());
            if succeeded {
                assert(self@.built =~= before.built.push(before.building.last()));
            }
        }
    }

    /// Who is asking, when a service is required: the plugin being built
    /// last, or nobody - the application itself.
    pub fn wanted_by(&self) -> (r: Option<&String>)
        ensures
            match r {
                Some(id) => self@.building.len() > 0 && id@ == self@.building.last().0,
                None => self@.building.len() == 0,
            },
    {
        let n = self.building.len();
        if n == 0 {
            None
        } else {
            Some(&self.building[n - 1].0)
        }
    }

    /// Runs the feature `kind` once: `true` the first time, and it is
    /// counted as run from then on; `false` every time after.
    pub fn feature(&mut self, kind: TypeId) -> (r: bool)
        ensures
            r == !old(self)@.features.contains(kind),
            final(self)@ == (RegistryView {
                features: if r {
                    old(self)@.features.push(kind)
                } else {
                    old(self)@.features
                },
                ..old(self)@
            }),
    {
        let mut k: usize = 0;
        while k < self.features.len()
            invariant
                k <= self.features.len(),
                forall|j: int| 0 <= j < k ==> self.features@[j] != kind,
            decreases self.features.len() - k,
        {
            if same_key(&self.features[k], &kind) {
                proof {
                    assert(self@.features[k as int] == kind);
                }
                return false;
            }
            k = k + 1;
        }
        self.features.push(kind);
        true
    }
}

proof fn lemma_first_with_push(entries: Seq<(Seq<char>, TypeId)>, entry: (Seq<char>, TypeId))
    requires
        first_with(entries, entry.0) is None,
    ensures
        first_with(entries.push(entry), entry.0) == Some(entries.len() as int),
    decreases entries.len(),
{
    if entries.len() > 0 {
        assert(entries.push(entry).drop_first() =~= entries.drop_first().push(entry));
        lemma_first_with_push(entries.drop_first(), entry);
    }
}

/// A plugin is built once, however many pull it: once one that was pulled
/// to be built has finished, pulling it again finds it built.
pub proof fn law_a_plugin_is_built_once(view: RegistryView, id: Seq<char>, kind: TypeId)
    requires
        pulled(view, id, kind) == Some(Pull::Build),
    ensures
        pulled(
            RegistryView { built: view.built.push((id, kind)), ..view },
            id,
            kind,
        ) == Some(Pull::Built),
{
    lemma_first_with_push(view.built, (id, kind));
}

/// A cycle is named by its path: it starts and ends with the plugin pulled
/// again, and runs through every plugin being built since it started.
pub proof fn law_a_cycle_names_its_path(view: RegistryView, id: Seq<char>, kind: TypeId)
    requires
        pulled(view, id, kind) is None,
    ensures
        ({
            let at = first_with(view.building, id)->0;
            let path = cycle_through(view.building, at);
            &&& path.len() == view.building.len() - at + 1
            &&& path[0] == id
            &&& path.last() == id
            &&& forall|t: int| 0 <= t < view.building.len() - at ==> #[trigger] path[t] == view.building[at + t].0
        }),
{
    lemma_first_with(view.building, id);
}

} // verus!
