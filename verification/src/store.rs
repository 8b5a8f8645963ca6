//! One cell per feature: its state, the bindings a view and its install
//! code share, and what the cell owns - tasks to abort and an actor to
//! dispose when it goes.

use core::any::TypeId;

use vstd::prelude::*;

use crate::keyed::Keyed;

verus! {

/// A feature's cell.
pub struct StoreCell<S, B, T, D> {
    pub state: S,
    /// Made on first use, then shared.
    pub bindings: Option<B>,
    /// Aborted when the cell goes.
    pub tasks: Vec<T>,
    /// Run when the cell goes.
    pub actor_teardown: Option<D>,
}

pub struct StoreCellView<S, B, T, D> {
    pub state: S,
    pub bindings: Option<B>,
    pub tasks: Seq<T>,
    pub actor_teardown: Option<D>,
}

impl<S, B, T, D> View for StoreCell<S, B, T, D> {
    type V = StoreCellView<S, B, T, D>;

    open spec fn view(&self) -> StoreCellView<S, B, T, D> {
        StoreCellView {
            state: self.state,
            bindings: self.bindings,
            tasks: self.tasks@,
            actor_teardown: self.actor_teardown,
        }
    }
}

pub open spec fn store_cell_view<S, B, T, D>(cell: StoreCell<S, B, T, D>) -> StoreCellView<S, B, T, D> {
    cell@
}

/// A cell with nothing in it but its state.
pub open spec fn bare<S, B, T, D>(state: S) -> StoreCellView<S, B, T, D> {
    StoreCellView { state, bindings: None, tasks: Seq::empty(), actor_teardown: None }
}

/// Feature state, one cell per feature.
pub struct Store<S, B, T, D> {
    cells: Keyed<StoreCell<S, B, T, D>>,
}

impl<S, B, T, D> View for Store<S, B, T, D> {
    type V = Map<TypeId, StoreCellView<S, B, T, D>>;

    open spec fn view(&self) -> Map<TypeId, StoreCellView<S, B, T, D>> {
        self.store_view()
    }
}

impl<S, B, T, D> Store<S, B, T, D> {
    pub closed spec fn store_view(&self) -> Map<TypeId, StoreCellView<S, B, T, D>> {
        self.cells@.map_values(|cell: StoreCell<S, B, T, D>| store_cell_view(cell))
    }

    pub closed spec fn wf(&self) -> bool {
        self.cells.wf()
    }

    /// No cells.
    pub fn new() -> (r: Store<S, B, T, D>)
        ensures
            r.wf(),
            r@ == Map::<TypeId, StoreCellView<S, B, T, D>>::empty(),
    {
        let r = Store { cells: Keyed::new() };
        proof {
            assert(r@ =~= Map::<TypeId, StoreCellView<S, B, T, D>>::empty());
        }
        r
    }

    fn put(&mut self, feature: TypeId, cell: StoreCell<S, B, T, D>)
        requires
            old(self).wf(),
        ensures
            final(self).wf(),
            final(self)@ == old(self)@.insert(feature, cell@),
    {
        let ghost view = cell@;
        self.cells.insert(feature, cell);
        proof {
            assert(self@ =~= old(self)@.insert(feature, view));
        }
    }

    fn take(&mut self, feature: &TypeId) -> (r: Option<StoreCell<S, B, T, D>>)
        requires
            old(self).wf(),
        ensures
            final(self).wf(),
            final(self)@ == old(self)@.remove(*feature),
            match r {
                Some(cell) => old(self)@.dom().contains(*feature) && cell@ == old(self)@[*feature],
                None => !old(self)@.dom().contains(*feature),
            },
    {
        let r = self.cells.take(feature);
        proof {
            assert(self@ =~= old(self)@.remove(*feature));
        }
        r
    }

    /// Makes sure `feature` has a cell, starting one with what `make` gives
    /// when there is none; a cell that is there stays as it is - which is
    /// how state survives a view unmounting and mounting again.
    pub fn cell<F: FnOnce() -> S>(&mut self, feature: TypeId, make: F)
        requires
            old(self).wf(),
            make.requires(()),
        ensures
            final(self).wf(),
            old(self)@.dom().contains(feature) ==> final(self)@ == old(self)@,
            !old(self)@.dom().contains(feature) ==> make.ensures((), final(self)@[feature].state) && final(self)@
                == old(self)@.insert(feature, bare(final(self)@[feature].state)),
    {
        if !self.cells.contains(&feature) {
            let state = make();
            let cell = StoreCell { state, bindings: None, tasks: Vec::new(), actor_teardown: None };
            proof {
                assert(cell@ == bare::<S, B, T, D>(state));
            }
            self.put(feature, cell);
        }
    }

    /// The state of `feature`, if it has a cell.
    pub fn state(&self, feature: &TypeId) -> (r: Option<&S>)
        requires
            self.wf(),
        ensures
            match r {
                Some(state) => self@.dom().contains(*feature) && *state == self@[*feature].state,
                None => !self@.dom().contains(*feature),
            },
    {
        match self.cells.get(feature) {
            Some(cell) => Some(&cell.state),
            None => None,
        }
    }

    /// Makes sure `feature`'s cell has its bindings, made by `make` the
    /// first time and shared from then on.
    pub fn ensure_bindings<F: FnOnce() -> S, G: FnOnce() -> B>(&mut self, feature: TypeId, make: F, bindings: G)
        requires
            old(self).wf(),
            make.requires(()),
            bindings.requires(()),
        ensures
            final(self).wf(),
            final(self)@.dom() == old(self)@.dom().insert(feature),
            old(self)@.dom().contains(feature) && old(self)@[feature].bindings is Some ==> final(self)@ == old(self)@,
            old(self)@.dom().contains(feature) && old(self)@[feature].bindings is None ==> {
                &&& final(self)@[feature].bindings matches Some(made) && bindings.ensures((), made)
                &&& final(self)@ == old(self)@.insert(
                    feature,
                    StoreCellView { bindings: final(self)@[feature].bindings, ..old(self)@[feature] },
                )
            },
            !old(self)@.dom().contains(feature) ==> {
                &&& make.ensures((), final(self)@[feature].state)
                &&& final(self)@[feature].bindings matches Some(made) && bindings.ensures((), made)
                &&& final(self)@ == old(self)@.insert(
                    feature,
                    StoreCellView { bindings: final(self)@[feature].bindings, ..bare(final(self)@[feature].state) },
                )
            },
    {
        self.cell(feature, make);
        let ghost mid = self@;
        match self.take(&feature) {
            Some(mut cell) => {
                if cell.bindings.is_none() {
                    cell.bindings = Some(bindings());
                }
                self.put(feature, cell);
                proof {
                    if mid[feature].bindings is Some {
                        assert(self@ =~= mid);
                    }
                }
            },
            None => {},
        }
        proof {
            assert(self@.dom() =~= old(self)@.dom().insert(feature));
            if !old(self)@.dom().contains(feature) {
                assert(mid[feature] == bare::<S, B, T, D>(mid[feature].state));
                assert(self@ =~= old(self)@.insert(
                    feature,
                    StoreCellView { bindings: self@[feature].bindings, ..bare(self@[feature].state) },
                ));
            } else if old(self)@[feature].bindings is None {
                assert(self@ =~= old(self)@.insert(
                    feature,
                    StoreCellView { bindings: self@[feature].bindings, ..old(self)@[feature] },
                ));
            }
        }
    }

    /// The bindings of `feature`, once made.
    pub fn bindings(&self, feature: &TypeId) -> (r: Option<&B>)
        requires
            self.wf(),
        ensures
            match r {
                Some(made) => self@.dom().contains(*feature) && self@[*feature].bindings == Some(*made),
                None => !self@.dom().contains(*feature) || self@[*feature].bindings is None,
            },
    {
        match self.cells.get(feature) {
            Some(cell) => match &cell.bindings {
                Some(made) => Some(made),
                None => None,
            },
            None => None,
        }
    }

    /// Hands `task` to `feature`'s cell, to be aborted when the cell goes.
    pub fn own_task<F: FnOnce() -> S>(&mut self, feature: TypeId, make: F, task: T)
        requires
            old(self).wf(),
            make.requires(()),
        ensures
            final(self).wf(),
            old(self)@.dom().contains(feature) ==> final(self)@ == old(self)@.insert(
                feature,
                StoreCellView { tasks: old(self)@[feature].tasks.push(task), ..old(self)@[feature] },
            ),
            !old(self)@.dom().contains(feature) ==> make.ensures((), final(self)@[feature].state) && final(self)@
                == old(self)@.insert(
                feature,
                StoreCellView { tasks: seq![task], ..bare(final(self)@[feature].state) },
            ),
    {
        self.cell(feature, make);
        let ghost mid = self@;
        match self.take(&feature) {
            Some(mut cell) => {
                cell.tasks.push(task);
                self.put(feature, cell);
            },
            None => {},
        }
        proof {
            if old(self)@.dom().contains(feature) {
                assert(self@ =~= old(self)@.insert(
                    feature,
                    StoreCellView { tasks: old(self)@[feature].tasks.push(task), ..old(self)@[feature] },
                ));
            } else {
                assert(mid[feature] == bare::<S, B, T, D>(mid[feature].state));
                assert(Seq::<T>::empty().push(task) =~= seq![task]);
                assert(self@ =~= old(self)@.insert(
                    feature,
                    StoreCellView { tasks: seq![task], ..bare(self@[feature].state) },
                ));
            }
        }
    }

    /// Gives `feature`'s cell the actor to dispose when it goes, in place of
    /// any it had - which is handed back, not disposed.
    pub fn own_actor<F: FnOnce() -> S>(&mut self, feature: TypeId, make: F, teardown: D) -> (r: Option<D>)
        requires
            old(self).wf(),
            make.requires(()),
        ensures
            final(self).wf(),
            old(self)@.dom().contains(feature) ==> r == old(self)@[feature].actor_teardown && final(self)@
                == old(self)@.insert(
                feature,
                StoreCellView { actor_teardown: Some(teardown), ..old(self)@[feature] },
            ),
            !old(self)@.dom().contains(feature) ==> r is None && make.ensures((), final(self)@[feature].state)
                && final(self)@ == old(self)@.insert(
                feature,
                StoreCellView { actor_teardown: Some(teardown), ..bare(final(self)@[feature].state) },
            ),
    {
        self.cell(feature, make);
        let ghost mid = self@;
        let mut previous: Option<D> = None;
        match self.take(&feature) {
            Some(mut cell) => {
                previous = cell.actor_teardown.take();
                cell.actor_teardown = Some(teardown);
                self.put(feature, cell);
            },
            None => {},
        }
        proof {
            if old(self)@.dom().contains(feature) {
                assert(self@ =~= old(self)@.insert(
                    feature,
                    StoreCellView { actor_teardown: Some(teardown), ..old(self)@[feature] },
                ));
            } else {
                assert(mid[feature] == bare::<S, B, T, D>(mid[feature].state));
                assert(self@ =~= old(self)@.insert(
                    feature,
                    StoreCellView { actor_teardown: Some(teardown), ..bare(self@[feature].state) },
                ));
            }
        }
        previous
    }

    /// Takes the cell of `feature` out, for whoever tears it down.
    pub fn remove(&mut self, feature: &TypeId) -> (r: Option<StoreCell<S, B, T, D>>)
        requires
            old(self).wf(),
        ensures
            final(self).wf(),
            final(self)@ == old(self)@.remove(*feature),
            match r {
                Some(cell) => old(self)@.dom().contains(*feature) && cell@ == old(self)@[*feature],
                None => !old(self)@.dom().contains(*feature),
            },
    {
        self.take(feature)
    }

    /// The features that have a cell.
    pub fn features(&self) -> (r: Vec<TypeId>)
        requires
            self.wf(),
        ensures
            forall|i: int| 0 <= i < r@.len() ==> self@.dom().contains(#[trigger] r@[i]),
            forall|key: TypeId| #[trigger] self@.dom().contains(key) ==> r@.contains(key),
    {
        let pairs = self.cells.pairs();
        let mut out: Vec<TypeId> = Vec::new();
        let mut k: usize = 0;
        while k < pairs.len()
            invariant
                crate::keyed::distinct(pairs@),
                crate::keyed::map_of(pairs@) == self.cells@,
                k <= pairs.len(),
                out@.len() == k,
                forall|i: int| 0 <= i < k ==> (#[trigger] out@[i]) == pairs@[i].0,
            decreases pairs.len() - k,
        {
            out.push(pairs[k].0);
            k = k + 1;
        }
        proof {
            assert forall|i: int| 0 <= i < out@.len() implies self@.dom().contains(#[trigger] out@[i]) by {
                crate::keyed::lemma_index(pairs@, i);
            }
            assert forall|key: TypeId| #[trigger] self@.dom().contains(key) implies out@.contains(key) by {
                let i = choose|i: int| 0 <= i < pairs@.len() && pairs@[i].0 == key;
                assert(out@[i] == key);
            }
        }
        out
    }
}

} // verus!
