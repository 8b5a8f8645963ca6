//! What one scope knows: the reducer cells it holds and who listens to them,
//! the features installed in it, what it exports, and which installed
//! feature answers which action.
//!
//! Everything here is filed under a type's key. The values - a cell's state,
//! a listener, an observer, an answerer - are whatever the runtime keeps for
//! them; this module decides where they go and what is handed back.

use core::any::TypeId;

use vstd::prelude::*;

use crate::keyed::Keyed;

verus! {

/// One reducer's cell: its state, and who is told when it changes.
pub struct Cell<S, L, O> {
    pub state: S,
    /// Told that the cell changed, each under its subscription number.
    pub listeners: Vec<(u64, L)>,
    /// Handed the update itself, each under its subscription number.
    pub observers: Vec<(u64, O)>,
}

pub struct CellView<S, L, O> {
    pub state: S,
    pub listeners: Seq<(u64, L)>,
    pub observers: Seq<(u64, O)>,
}

impl<S, L, O> View for Cell<S, L, O> {
    type V = CellView<S, L, O>;

    open spec fn view(&self) -> CellView<S, L, O> {
        CellView { state: self.state, listeners: self.listeners@, observers: self.observers@ }
    }
}

pub open spec fn cell_view<S, L, O>(cell: Cell<S, L, O>) -> CellView<S, L, O> {
    cell@
}

/// A cell that nobody listens to yet.
pub open spec fn fresh_cell<S, L, O>(state: S) -> CellView<S, L, O> {
    CellView { state, listeners: Seq::empty(), observers: Seq::empty() }
}

/// The scope as its laws speak of it.
pub struct ScopeView<S, L, O, A> {
    pub cells: Map<TypeId, CellView<S, L, O>>,
    /// Features, and reducers, marked as owned here.
    pub installed: Set<TypeId>,
    /// Reducers readable from the segments below.
    pub exports: Set<TypeId>,
    /// What answers each action, one map per installed feature; the first is
    /// the segment's own.
    pub sections: Seq<Map<TypeId, A>>,
    /// Which section claimed each reducer.
    pub owners: Map<TypeId, usize>,
    /// The sections being installed, innermost last.
    pub installing: Seq<usize>,
    /// The number the next subscription gets.
    pub next_subscriber: u64,
}

/// What one scope knows.
pub struct Scope<S, L, O, A> {
    cells: Keyed<Cell<S, L, O>>,
    installed: Keyed<()>,
    exports: Keyed<()>,
    sections: Vec<Keyed<A>>,
    owners: Keyed<usize>,
    installing: Vec<usize>,
    next_subscriber: u64,
}

impl<S, L, O, A> View for Scope<S, L, O, A> {
    type V = ScopeView<S, L, O, A>;

    open spec fn view(&self) -> ScopeView<S, L, O, A> {
        self.scope_view()
    }
}

pub open spec fn keyed_view<A>(section: Keyed<A>) -> Map<TypeId, A> {
    section@
}

/// The section being installed, or the segment's own when none is.
pub open spec fn current(installing: Seq<usize>) -> usize {
    if installing.len() == 0 {
        0
    } else {
        installing.last()
    }
}

/// The sections once another one is opened: the segment's own comes
/// first, before the first feature's.
pub open spec fn opened<A>(sections: Seq<Map<TypeId, A>>) -> Seq<Map<TypeId, A>> {
    if sections.len() == 0 {
        seq![Map::empty(), Map::empty()]
    } else {
        sections.push(Map::empty())
    }
}

/// The sections, grown with empty ones until `at` is among them.
pub open spec fn grown<A>(sections: Seq<Map<TypeId, A>>, at: usize) -> Seq<Map<TypeId, A>> {
    if at < sections.len() {
        sections
    } else {
        sections + Seq::new((at + 1 - sections.len()) as nat, |i: int| Map::<TypeId, A>::empty())
    }
}

/// The sections once the section `at` answers `action` with `answer`.
pub open spec fn answered<A>(sections: Seq<Map<TypeId, A>>, at: usize, action: TypeId, answer: A) -> Seq<
    Map<TypeId, A>,
> {
    grown(sections, at).update(at as int, grown(sections, at)[at as int].insert(action, answer))
}

/// The owners once `section` claims `reducer`: the first claim stands.
pub open spec fn claimed(owners: Map<TypeId, usize>, reducer: TypeId, section: usize) -> Map<TypeId, usize> {
    if owners.dom().contains(reducer) {
        owners
    } else {
        owners.insert(reducer, section)
    }
}

/// The cell with `listener` added under the number `id`.
pub open spec fn listened<S, L, O>(cell: CellView<S, L, O>, id: u64, listener: L) -> CellView<S, L, O> {
    CellView { listeners: cell.listeners.push((id, listener)), ..cell }
}

/// The cell with `observer` added under the number `id`.
pub open spec fn observed<S, L, O>(cell: CellView<S, L, O>, id: u64, observer: O) -> CellView<S, L, O> {
    CellView { observers: cell.observers.push((id, observer)), ..cell }
}

pub open spec fn other_than<T>(id: u64) -> spec_fn((u64, T)) -> bool {
    |entry: (u64, T)| entry.0 != id
}

/// The cell without what was subscribed under the number `id`.
pub open spec fn unheard<S, L, O>(cell: CellView<S, L, O>, id: u64) -> CellView<S, L, O> {
    CellView {
        listeners: cell.listeners.filter(other_than::<L>(id)),
        observers: cell.observers.filter(other_than::<O>(id)),
        ..cell
    }
}

/// The cells once those in `states` are put back, each with nobody
/// listening, later ones over earlier ones.
pub open spec fn restored<S, L, O>(cells: Map<TypeId, CellView<S, L, O>>, states: Seq<(TypeId, S)>) -> Map<
    TypeId,
    CellView<S, L, O>,
>
    decreases states.len(),
{
    if states.len() == 0 {
        cells
    } else {
        restored(cells, states.drop_last()).insert(states.last().0, fresh_cell(states.last().1))
    }
}

fn without_number<T>(entries: Vec<(u64, T)>, id: u64) -> (r: Vec<(u64, T)>)
    ensures
        r@ == entries@.filter(other_than::<T>(id)),
{
    let mut rest = entries;
    let ghost all = rest@;
    let mut kept: Vec<(u64, T)> = Vec::new();
    let mut k: usize = 0;
    assert(all.len() == rest.len());
    while rest.len() > 0
        invariant
            k <= all.len(),
            rest.len() + k == all.len(),
            all.len() <= usize::MAX,
            rest@ == all.skip(k as int),
            kept@ == all.take(k as int).filter(other_than::<T>(id)),
        decreases rest.len(),
    {
        let entry = rest.remove(0);
        proof {
            assert(entry == all[k as int]);
            let taken = all.take(k + 1);
            assert(taken.drop_last() =~= all.take(k as int));
            assert(taken.last() == all[k as int]);
            reveal(Seq::filter);
            assert(rest@ =~= all.skip(k + 1));
        }
        if entry.0 != id {
            kept.push(entry);
        }
        k = k + 1;
    }
    proof {
        assert(all.take(k as int) =~= all);
    }
    kept
}

impl<S, L, O, A> Scope<S, L, O, A> {
    pub closed spec fn scope_view(&self) -> ScopeView<S, L, O, A> {
        ScopeView {
            cells: self.cells@.map_values(|cell: Cell<S, L, O>| cell_view(cell)),
            installed: self.installed@.dom(),
            exports: self.exports@.dom(),
            sections: self.sections@.map_values(|section: Keyed<A>| keyed_view(section)),
            owners: self.owners@,
            installing: self.installing@,
            next_subscriber: self.next_subscriber,
        }
    }

    pub closed spec fn wf(&self) -> bool {
        &&& self.cells.wf()
        &&& self.installed.wf()
        &&& self.exports.wf()
        &&& self.owners.wf()
        &&& forall|i: int| 0 <= i < self.sections.len() ==> (#[trigger] self.sections@[i]).wf()
    }

    /// Whether another subscription can be given a number of its own.
    pub open spec fn can_subscribe(&self) -> bool {
        self@.next_subscriber < u64::MAX
    }

    /// Nothing held, nothing installed.
    pub fn new() -> (r: Scope<S, L, O, A>)
        ensures
            r.wf(),
            r@.cells == Map::<TypeId, CellView<S, L, O>>::empty(),
            r@.installed == Set::<TypeId>::empty(),
            r@.exports == Set::<TypeId>::empty(),
            r@.sections == Seq::<Map<TypeId, A>>::empty(),
            r@.owners == Map::<TypeId, usize>::empty(),
            r@.installing == Seq::<usize>::empty(),
            r@.next_subscriber == 0,
    {
        let r = Scope {
            cells: Keyed::new(),
            installed: Keyed::new(),
            exports: Keyed::new(),
            sections: Vec::new(),
            owners: Keyed::new(),
            installing: Vec::new(),
            next_subscriber: 0,
        };
        proof {
            assert(r@.cells =~= Map::<TypeId, CellView<S, L, O>>::empty());
            assert(r@.installed =~= Set::<TypeId>::empty());
            assert(r@.exports =~= Set::<TypeId>::empty());
            assert(r@.sections =~= Seq::<Map<TypeId, A>>::empty());
        }
        r
    }

    /// Whether another subscription can be given a number of its own.
    pub fn subscribable(&self) -> (r: bool)
        ensures
            r == self.can_subscribe(),
    {
        self.next_subscriber < u64::MAX
    }

    /// Whether the feature `feature` was marked installed in this very
    /// scope.
    pub fn has_feature(&self, feature: &TypeId) -> (r: bool)
        requires
            self.wf(),
        ensures
            r == self@.installed.contains(*feature),
    {
        self.installed.contains(feature)
    }

    /// Marks the feature `feature` as owned by this scope. Installing one
    /// feature twice in one scope is a setup bug, so it must not be marked
    /// already.
    pub fn mark_feature_installed(&mut self, feature: TypeId)
        requires
            old(self).wf(),
            !old(self)@.installed.contains(feature),
        ensures
            final(self).wf(),
            final(self)@ == (ScopeView { installed: old(self)@.installed.insert(feature), ..old(self)@ }),
    {
        self.installed.insert(feature, ());
        proof {
            assert(self@.installed =~= old(self)@.installed.insert(feature));
        }
    }

    /// Whether anything in this scope has claimed the reducer `reducer`:
    /// what tells an export that was earned from one that was only declared.
    pub fn claims(&self, reducer: &TypeId) -> (r: bool)
        requires
            self.wf(),
        ensures
            r == self@.owners.dom().contains(*reducer),
    {
        self.owners.contains(reducer)
    }

    /// The section being installed, or the segment's own when none is.
    pub fn current_section(&self) -> (r: usize)
        ensures
            r == current(self@.installing),
    {
        let n = self.installing.len();
        if n == 0 {
            0
        } else {
            self.installing[n - 1]
        }
    }

    /// Marks the reducer `reducer` as owned by this scope, by the section
    /// being installed - unless a section claimed it first, which keeps it.
    pub fn note_reducer_owner(&mut self, reducer: TypeId)
        requires
            old(self).wf(),
        ensures
            final(self).wf(),
            final(self)@ == (ScopeView {
                installed: old(self)@.installed.insert(reducer),
                owners: claimed(old(self)@.owners, reducer, current(old(self)@.installing)),
                ..old(self)@
            }),
    {
        self.installed.insert(reducer, ());
        if !self.owners.contains(&reducer) {
            let section = self.current_section();
            self.owners.insert(reducer, section);
        }
        proof {
            assert(self@.installed =~= old(self)@.installed.insert(reducer));
        }
    }

    /// Which section owns the reducer `reducer`: the instance whose
    /// dispatcher a reader of it is handed. The segment's own when nothing
    /// claimed it.
    pub fn section_of(&self, reducer: &TypeId) -> (r: usize)
        requires
            self.wf(),
        ensures
            r == if self@.owners.dom().contains(*reducer) {
                self@.owners[*reducer]
            } else {
                0
            },
    {
        match self.owners.get(reducer) {
            Some(section) => *section,
            None => 0,
        }
    }

    /// Marks the reducer `reducer` as readable from the segments below.
    pub fn note_export(&mut self, reducer: TypeId)
        requires
            old(self).wf(),
        ensures
            final(self).wf(),
            final(self)@ == (ScopeView { exports: old(self)@.exports.insert(reducer), ..old(self)@ }),
    {
        self.exports.insert(reducer, ());
        proof {
            assert(self@.exports =~= old(self)@.exports.insert(reducer));
        }
    }

    /// Opens a section for a feature about to install, and returns it.
    pub fn open_section(&mut self) -> (r: usize)
        requires
            old(self).wf(),
        ensures
            final(self).wf(),
            r == opened(old(self)@.sections).len() - 1,
            final(self)@ == (ScopeView {
                sections: opened(old(self)@.sections),
                installing: old(self)@.installing.push(r),
                ..old(self)@
            }),
    {
        if self.sections.len() == 0 {
            self.sections.push(Keyed::new());
        }
        self.sections.push(Keyed::new());
        let index = self.sections.len() - 1;
        self.installing.push(index);
        proof {
            assert(self@.sections =~= opened(old(self)@.sections));
        }
        index
    }

    /// Closes the section installed last.
    pub fn close_section(&mut self)
        requires
            old(self).wf(),
        ensures
            final(self).wf(),
            final(self)@ == (ScopeView {
                installing: if old(self)@.installing.len() == 0 {
                    old(self)@.installing
                } else {
                    old(self)@.installing.drop_last()
                },
                ..old(self)@
            }),
    {
        let _ = self.installing.pop();
    }

    /// Says that the section being installed answers `action`, with
    /// `answer`. Each installed feature has a section of its own, so two
    /// instances of one feature each answer for themselves.
    pub fn answers(&mut self, action: TypeId, answer: A)
        requires
            old(self).wf(),
        ensures
            final(self).wf(),
            final(self)@ == (ScopeView {
                sections: answered(old(self)@.sections, current(old(self)@.installing), action, answer),
                ..old(self)@
            }),
    {
        let section = self.current_section();
        let ghost start = self@.sections;
        while self.sections.len() <= section
            invariant
                forall|i: int| 0 <= i < self.sections.len() ==> (#[trigger] self.sections@[i]).wf(),
                self.sections.len() <= section + 1 || self@.sections == start,
                self.cells == old(self).cells,
                self.installed == old(self).installed,
                self.exports == old(self).exports,
                self.owners == old(self).owners,
                self.installing == old(self).installing,
                self.next_subscriber == old(self).next_subscriber,
                old(self).wf(),
                section == current(old(self)@.installing),
                start == old(self)@.sections,
                start.len() <= self@.sections.len(),
                self@.sections =~= start + Seq::new(
                    (self@.sections.len() - start.len()) as nat,
                    |i: int| Map::<TypeId, A>::empty(),
                ),
            decreases section + 1 - self.sections.len(),
        {
            let ghost before = self@.sections;
            self.sections.push(Keyed::new());
            proof {
                assert(self@.sections =~= before.push(Map::empty()));
            }
        }
        proof {
            assert(self@.sections =~= grown(start, section));
        }
        let ghost grown_vec = self.sections@;
        let mut kept = self.sections.remove(section);
        proof {
            assert(kept == grown_vec[section as int]);
            assert(kept.wf());
        }
        kept.insert(action, answer);
        self.sections.insert(section, kept);
        proof {
            assert forall|i: int| 0 <= i < self.sections.len() implies (#[trigger] self.sections@[i]).wf() by {
                if i != section {
                    assert(self.sections@[i] == grown_vec[i]);
                }
            }
            assert(self@.sections =~= answered(old(self)@.sections, section, action, answer));
        }
    }

    /// What answers `action` in the section `section`, if anything does.
    pub fn answerer(&self, section: usize, action: &TypeId) -> (r: Option<&A>)
        requires
            self.wf(),
        ensures
            match r {
                Some(answer) => section < self@.sections.len() && self@.sections[section as int].dom().contains(*action)
                    && *answer == self@.sections[section as int][*action],
                None => !(section < self@.sections.len() && self@.sections[section as int].dom().contains(*action)),
            },
    {
        if section < self.sections.len() {
            self.sections[section].get(action)
        } else {
            None
        }
    }

    fn put_cell(&mut self, reducer: TypeId, cell: Cell<S, L, O>)
        requires
            old(self).wf(),
        ensures
            final(self).wf(),
            final(self)@ == (ScopeView { cells: old(self)@.cells.insert(reducer, cell@), ..old(self)@ }),
    {
        let ghost cell_view_now = cell@;
        self.cells.insert(reducer, cell);
        proof {
            assert(self@.cells =~= old(self)@.cells.insert(reducer, cell_view_now));
        }
    }

    fn take_cell(&mut self, reducer: &TypeId) -> (r: Option<Cell<S, L, O>>)
        requires
            old(self).wf(),
        ensures
            final(self).wf(),
            final(self)@ == (ScopeView { cells: old(self)@.cells.remove(*reducer), ..old(self)@ }),
            match r {
                Some(cell) => old(self)@.cells.dom().contains(*reducer) && cell@ == old(self)@.cells[*reducer],
                None => !old(self)@.cells.dom().contains(*reducer),
            },
    {
        let r = self.cells.take(reducer);
        proof {
            assert(self@.cells =~= old(self)@.cells.remove(*reducer));
        }
        r
    }

    /// Makes sure the reducer `reducer` has a cell, starting one with what
    /// `make` gives when there is none; a cell that is there stays as it is.
    pub fn ensure_cell<F: FnOnce() -> S>(&mut self, reducer: TypeId, make: F)
        requires
            old(self).wf(),
            make.requires(()),
        ensures
            final(self).wf(),
            old(self)@.cells.dom().contains(reducer) ==> final(self)@ == old(self)@,
            !old(self)@.cells.dom().contains(reducer) ==> {
                &&& make.ensures((), final(self)@.cells[reducer].state)
                &&& final(self)@ == (ScopeView {
                    cells: old(self)@.cells.insert(reducer, fresh_cell(final(self)@.cells[reducer].state)),
                    ..old(self)@
                })
            },
    {
        if !self.cells.contains(&reducer) {
            let state = make();
            let cell = Cell { state, listeners: Vec::new(), observers: Vec::new() };
            proof {
                assert(cell@ == fresh_cell::<S, L, O>(state));
            }
            self.put_cell(reducer, cell);
        }
    }

    /// The state of the reducer `reducer`, if it has a cell.
    pub fn peek(&self, reducer: &TypeId) -> (r: Option<&S>)
        requires
            self.wf(),
        ensures
            match r {
                Some(state) => self@.cells.dom().contains(*reducer) && *state == self@.cells[*reducer].state,
                None => !self@.cells.dom().contains(*reducer),
            },
    {
        match self.cells.get(reducer) {
            Some(cell) => Some(&cell.state),
            None => None,
        }
    }

    /// Starts the reducer `reducer` from `state` instead of its default: a
    /// cell that was there goes, with whoever listened to it.
    pub fn seed(&mut self, reducer: TypeId, state: S)
        requires
            old(self).wf(),
        ensures
            final(self).wf(),
            final(self)@ == (ScopeView {
                cells: old(self)@.cells.insert(reducer, fresh_cell(state)),
                ..old(self)@
            }),
    {
        let cell = Cell { state, listeners: Vec::new(), observers: Vec::new() };
        proof {
            assert(cell@ == fresh_cell::<S, L, O>(state));
        }
        self.put_cell(reducer, cell);
    }

    /// Tells `listener` whenever the reducer `reducer` changes, under a new
    /// number, which is returned. The cell is started with what `make` gives
    /// when there is none.
    pub fn subscribe<F: FnOnce() -> S>(&mut self, reducer: TypeId, make: F, listener: L) -> (id: u64)
        requires
            old(self).wf(),
            old(self).can_subscribe(),
            make.requires(()),
        ensures
            final(self).wf(),
            id == old(self)@.next_subscriber,
            old(self)@.cells.dom().contains(reducer) ==> final(self)@ == (ScopeView {
                cells: old(self)@.cells.insert(reducer, listened(old(self)@.cells[reducer], id, listener)),
                next_subscriber: (id + 1) as u64,
                ..old(self)@
            }),
            !old(self)@.cells.dom().contains(reducer) ==> {
                &&& make.ensures((), final(self)@.cells[reducer].state)
                &&& final(self)@ == (ScopeView {
                    cells: old(self)@.cells.insert(
                        reducer,
                        listened(fresh_cell(final(self)@.cells[reducer].state), id, listener),
                    ),
                    next_subscriber: (id + 1) as u64,
                    ..old(self)@
                })
            },
    {
        self.ensure_cell(reducer, make);
        let id = self.next_subscriber;
        self.next_subscriber = id + 1;
        let ghost mid = self@;
        match self.take_cell(&reducer) {
            Some(mut cell) => {
                cell.listeners.push((id, listener));
                proof {
                    assert(cell@ == listened(mid.cells[reducer], id, listener));
                }
                self.put_cell(reducer, cell);
            },
            None => {},
        }
        proof {
            if old(self)@.cells.dom().contains(reducer) {
                assert(mid.cells[reducer] == old(self)@.cells[reducer]);
                assert(self@.cells =~= old(self)@.cells.insert(reducer, listened(old(self)@.cells[reducer], id, listener)));
            } else {
                let state = mid.cells[reducer].state;
                assert(mid.cells[reducer] == fresh_cell::<S, L, O>(state));
                assert(self@.cells =~= old(self)@.cells.insert(reducer, listened(fresh_cell(state), id, listener)));
                assert(self@.cells[reducer].state == state);
            }
        }
        id
    }

    /// Hands `observer` every update of the reducer `reducer`, under a new
    /// number, which is returned. The cell is started with what `make` gives
    /// when there is none.
    pub fn observe<F: FnOnce() -> S>(&mut self, reducer: TypeId, make: F, observer: O) -> (id: u64)
        requires
            old(self).wf(),
            old(self).can_subscribe(),
            make.requires(()),
        ensures
            final(self).wf(),
            id == old(self)@.next_subscriber,
            old(self)@.cells.dom().contains(reducer) ==> final(self)@ == (ScopeView {
                cells: old(self)@.cells.insert(reducer, observed(old(self)@.cells[reducer], id, observer)),
                next_subscriber: (id + 1) as u64,
                ..old(self)@
            }),
            !old(self)@.cells.dom().contains(reducer) ==> {
                &&& make.ensures((), final(self)@.cells[reducer].state)
                &&& final(self)@ == (ScopeView {
                    cells: old(self)@.cells.insert(
                        reducer,
                        observed(fresh_cell(final(self)@.cells[reducer].state), id, observer),
                    ),
                    next_subscriber: (id + 1) as u64,
                    ..old(self)@
                })
            },
    {
        self.ensure_cell(reducer, make);
        let id = self.next_subscriber;
        self.next_subscriber = id + 1;
        let ghost mid = self@;
        match self.take_cell(&reducer) {
            Some(mut cell) => {
                cell.observers.push((id, observer));
                proof {
                    assert(cell@ == observed(mid.cells[reducer], id, observer));
                }
                self.put_cell(reducer, cell);
            },
            None => {},
        }
        proof {
            if old(self)@.cells.dom().contains(reducer) {
                assert(mid.cells[reducer] == old(self)@.cells[reducer]);
                assert(self@.cells =~= old(self)@.cells.insert(reducer, observed(old(self)@.cells[reducer], id, observer)));
            } else {
                let state = mid.cells[reducer].state;
                assert(mid.cells[reducer] == fresh_cell::<S, L, O>(state));
                assert(self@.cells =~= old(self)@.cells.insert(reducer, observed(fresh_cell(state), id, observer)));
                assert(self@.cells[reducer].state == state);
            }
        }
        id
    }

    /// Ends what was subscribed to the reducer `reducer` under the number
    /// `id`, and only that: everyone else stays, in the same order.
    pub fn unsubscribe(&mut self, reducer: TypeId, id: u64)
        requires
            old(self).wf(),
        ensures
            final(self).wf(),
            final(self)@ == (ScopeView {
                cells: if old(self)@.cells.dom().contains(reducer) {
                    old(self)@.cells.insert(reducer, unheard(old(self)@.cells[reducer], id))
                } else {
                    old(self)@.cells
                },
                ..old(self)@
            }),
    {
        match self.take_cell(&reducer) {
            Some(cell) => {
                let Cell { state, listeners, observers } = cell;
                let listeners = without_number(listeners, id);
                let observers = without_number(observers, id);
                let cell = Cell { state, listeners, observers };
                proof {
                    assert(cell@ == unheard(old(self)@.cells[reducer], id));
                }
                self.put_cell(reducer, cell);
                proof {
                    assert(self@.cells =~= old(self)@.cells.insert(reducer, unheard(old(self)@.cells[reducer], id)));
                }
            },
            None => {
                proof {
                    assert(self@.cells =~= old(self)@.cells);
                }
            },
        }
    }

    /// Whether anything observes the reducer `reducer`: only then is a copy
    /// of an update kept for the observers.
    pub fn is_observed(&self, reducer: &TypeId) -> (r: bool)
        requires
            self.wf(),
        ensures
            r == (self@.cells.dom().contains(*reducer) && self@.cells[*reducer].observers.len() > 0),
    {
        match self.cells.get(reducer) {
            Some(cell) => cell.observers.len() > 0,
            None => false,
        }
    }

    /// Who listens to the reducer `reducer`, in the order they subscribed.
    pub fn listeners_of(&self, reducer: &TypeId) -> (r: Vec<&L>)
        requires
            self.wf(),
        ensures
            self@.cells.dom().contains(*reducer) ==> r@.len() == self@.cells[*reducer].listeners.len()
                && forall|i: int| 0 <= i < r@.len() ==> *#[trigger] r@[i] == self@.cells[*reducer].listeners[i].1,
            !self@.cells.dom().contains(*reducer) ==> r@.len() == 0,
    {
        let mut out: Vec<&L> = Vec::new();
        match self.cells.get(reducer) {
            Some(cell) => {
                let mut k: usize = 0;
                while k < cell.listeners.len()
                    invariant
                        k <= cell.listeners.len(),
                        out@.len() == k,
                        forall|i: int| 0 <= i < k ==> *#[trigger] out@[i] == cell.listeners@[i].1,
                    decreases cell.listeners.len() - k,
                {
                    out.push(&cell.listeners[k].1);
                    k = k + 1;
                }
            },
            None => {},
        }
        out
    }

    /// Who observes the reducer `reducer`, in the order they subscribed.
    pub fn observers_of(&self, reducer: &TypeId) -> (r: Vec<&O>)
        requires
            self.wf(),
        ensures
            self@.cells.dom().contains(*reducer) ==> r@.len() == self@.cells[*reducer].observers.len()
                && forall|i: int| 0 <= i < r@.len() ==> *#[trigger] r@[i] == self@.cells[*reducer].observers[i].1,
            !self@.cells.dom().contains(*reducer) ==> r@.len() == 0,
    {
        let mut out: Vec<&O> = Vec::new();
        match self.cells.get(reducer) {
            Some(cell) => {
                let mut k: usize = 0;
                while k < cell.observers.len()
                    invariant
                        k <= cell.observers.len(),
                        out@.len() == k,
                        forall|i: int| 0 <= i < k ==> *#[trigger] out@[i] == cell.observers@[i].1,
                    decreases cell.observers.len() - k,
                {
                    out.push(&cell.observers[k].1);
                    k = k + 1;
                }
            },
            None => {},
        }
        out
    }

    /// The state of every cell, each under its reducer's key: what a page
    /// keeps while it is not mounted.
    pub fn snapshot_states(&self) -> (r: Vec<(TypeId, &S)>)
        requires
            self.wf(),
        ensures
            forall|i: int, j: int| 0 <= i < j < r@.len() ==> #[trigger] r@[i].0 != #[trigger] r@[j].0,
            forall|i: int| 0 <= i < r@.len() ==> self@.cells.dom().contains(#[trigger] r@[i].0)
                && *r@[i].1 == self@.cells[r@[i].0].state,
            forall|key: TypeId| #[trigger] self@.cells.dom().contains(key) ==> exists|i: int| 0 <= i < r@.len() && r@[i].0 == key,
    {
        let pairs = self.cells.pairs();
        let mut out: Vec<(TypeId, &S)> = Vec::new();
        let mut k: usize = 0;
        while k < pairs.len()
            invariant
                crate::keyed::distinct(pairs@),
                crate::keyed::map_of(pairs@) == self.cells@,
                k <= pairs.len(),
                out@.len() == k,
                forall|i: int| 0 <= i < k ==> (#[trigger] out@[i]).0 == pairs@[i].0 && *out@[i].1 == pairs@[i].1.state,
            decreases pairs.len() - k,
        {
            out.push((pairs[k].0, &pairs[k].1.state));
            k = k + 1;
        }
        proof {
            assert forall|i: int| 0 <= i < out@.len() implies self@.cells.dom().contains(#[trigger] out@[i].0)
                && *out@[i].1 == self@.cells[out@[i].0].state by {
                crate::keyed::lemma_index(pairs@, i);
            }
            assert forall|key: TypeId| #[trigger] self@.cells.dom().contains(key) implies exists|i: int|
                0 <= i < out@.len() && out@[i].0 == key by {
                let i = choose|i: int| 0 <= i < pairs@.len() && pairs@[i].0 == key;
                assert(out@[i].0 == key);
            }
        }
        out
    }

    /// Puts back the states a snapshot kept, each in a cell that nobody
    /// listens to yet: what a page finds when it is mounted again.
    pub fn restore_states(&mut self, states: Vec<(TypeId, S)>)
        requires
            old(self).wf(),
        ensures
            final(self).wf(),
            final(self)@ == (ScopeView { cells: restored(old(self)@.cells, states@), ..old(self)@ }),
    {
        let mut rest = states;
        let ghost all = rest@;
        let mut k: usize = 0;
        assert(all.len() == rest.len());
        while rest.len() > 0
            invariant
                self.wf(),
                k <= all.len(),
                rest.len() + k == all.len(),
                all.len() <= usize::MAX,
                rest@ == all.skip(k as int),
                self@ == (ScopeView { cells: restored(old(self)@.cells, all.take(k as int)), ..old(self)@ }),
            decreases rest.len(),
        {
            let (reducer, state) = rest.remove(0);
            proof {
                let taken = all.take(k + 1);
                assert(taken.drop_last() =~= all.take(k as int));
                assert(taken.last() == all[k as int]);
                assert(rest@ =~= all.skip(k + 1));
            }
            self.seed(reducer, state);
            k = k + 1;
        }
        proof {
            assert(all.take(k as int) =~= all);
        }
    }

    /// Whether the reducer `reducer` is readable from below this scope.
    pub fn exports(&self, reducer: &TypeId) -> (r: bool)
        requires
            self.wf(),
        ensures
            r == self@.exports.contains(*reducer),
    {
        self.exports.contains(reducer)
    }
}

/// Which scope an observer of a reducer watches.
#[derive(Clone, Copy, Debug, PartialEq, Eq, Structural)]
pub enum Owning {
    /// The scope doing the observing: it claimed the reducer itself.
    Here,
    /// The ancestor at this place, counting from the root.
    Above(usize),
}

/// The scope an observer of `reducer` in `here` watches: `here` when it
/// claimed the reducer, else the nearest ancestor that exports it - the last
/// of `ancestors`, which run from the root down. `None` when no scope does.
pub fn owner_of<S, L, O, A>(
    here: &Scope<S, L, O, A>,
    ancestors: &Vec<&Scope<S, L, O, A>>,
    reducer: &TypeId,
) -> (r: Option<Owning>)
    requires
        here.wf(),
        forall|i: int| 0 <= i < ancestors@.len() ==> (#[trigger] ancestors@[i]).wf(),
    ensures
        here@.installed.contains(*reducer) ==> r == Some(Owning::Here),
        !here@.installed.contains(*reducer) ==> match r {
            Some(Owning::Here) => false,
            Some(Owning::Above(i)) => i < ancestors@.len() && ancestors@[i as int]@.exports.contains(*reducer)
                && forall|j: int| i < j < ancestors@.len() ==> !(#[trigger] ancestors@[j])@.exports.contains(*reducer),
            None => forall|j: int| 0 <= j < ancestors@.len() ==> !(#[trigger] ancestors@[j])@.exports.contains(*reducer),
        },
{
    if here.has_feature(reducer) {
        return Some(Owning::Here);
    }
    let mut k: usize = ancestors.len();
    while k > 0
        invariant
            k <= ancestors.len(),
            !here@.installed.contains(*reducer),
            forall|i: int| 0 <= i < ancestors@.len() ==> (#[trigger] ancestors@[i]).wf(),
            forall|j: int| k <= j < ancestors@.len() ==> !(#[trigger] ancestors@[j])@.exports.contains(*reducer),
        decreases k,
    {
        let at = k - 1;
        if ancestors[at].exports(reducer) {
            return Some(Owning::Above(at));
        }
        k = at;
    }
    None
}

/// The first of `listed` that `here` never claimed: an export that was only
/// declared, which a page below would read as the reducer's default forever.
pub fn unclaimed<S, L, O, A>(here: &Scope<S, L, O, A>, listed: &Vec<TypeId>) -> (r: Option<usize>)
    requires
        here.wf(),
    ensures
        match r {
            Some(i) => i < listed@.len() && !here@.owners.dom().contains(listed@[i as int])
                && forall|j: int| 0 <= j < i ==> here@.owners.dom().contains(#[trigger] listed@[j]),
            None => forall|j: int| 0 <= j < listed@.len() ==> here@.owners.dom().contains(#[trigger] listed@[j]),
        },
{
    let mut k: usize = 0;
    while k < listed.len()
        invariant
            here.wf(),
            k <= listed.len(),
            forall|j: int| 0 <= j < k ==> here@.owners.dom().contains(#[trigger] listed@[j]),
        decreases listed.len() - k,
    {
        if !here.claims(&listed[k]) {
            return Some(k);
        }
        k = k + 1;
    }
    None
}

/// Two instances of one feature each answer for themselves: an answer
/// given in one section leaves every other section as it was, and the
/// section that gave it answers with it.
pub proof fn law_each_section_answers_for_itself<A>(
    sections: Seq<Map<TypeId, A>>,
    at: usize,
    action: TypeId,
    answer: A,
    other: int,
)
    requires
        0 <= other < sections.len(),
        other != at,
    ensures
        answered(sections, at, action, answer)[other] == sections[other],
        answered(sections, at, action, answer)[at as int][action] == answer,
        answered(sections, at, action, answer).len() == grown(sections, at).len(),
{
}

/// The first section to claim a reducer owns it, whatever claims it later.
pub proof fn law_the_first_claim_stands(owners: Map<TypeId, usize>, reducer: TypeId, first: usize, later: usize)
    requires
        !owners.dom().contains(reducer),
    ensures
        claimed(claimed(owners, reducer, first), reducer, later)[reducer] == first,
        claimed(owners, reducer, first).remove(reducer) == owners,
{
    assert(claimed(owners, reducer, first).remove(reducer) =~= owners);
}

/// Ending a subscription ends that one only: everyone subscribed under
/// another number is still told, and nobody is left under the ended one.
pub proof fn law_unsubscribing_touches_only_its_own<S, L, O>(cell: CellView<S, L, O>, id: u64)
    ensures
        forall|i: int|
            0 <= i < cell.listeners.len() && cell.listeners[i].0 != id ==> unheard(cell, id).listeners.contains(
                #[trigger] cell.listeners[i],
            ),
        forall|i: int|
            0 <= i < cell.observers.len() && cell.observers[i].0 != id ==> unheard(cell, id).observers.contains(
                #[trigger] cell.observers[i],
            ),
        forall|i: int| 0 <= i < unheard(cell, id).listeners.len() ==> #[trigger] unheard(cell, id).listeners[i].0 != id,
        forall|i: int| 0 <= i < unheard(cell, id).observers.len() ==> #[trigger] unheard(cell, id).observers[i].0 != id,
        unheard(cell, id).state == cell.state,
{
    assert forall|i: int| 0 <= i < cell.listeners.len() && cell.listeners[i].0 != id implies unheard(
        cell,
        id,
    ).listeners.contains(#[trigger] cell.listeners[i]) by {
        cell.listeners.lemma_filter_contains(other_than::<L>(id), i);
    }
    assert forall|i: int| 0 <= i < cell.observers.len() && cell.observers[i].0 != id implies unheard(
        cell,
        id,
    ).observers.contains(#[trigger] cell.observers[i]) by {
        cell.observers.lemma_filter_contains(other_than::<O>(id), i);
    }
    assert forall|i: int| 0 <= i < unheard(cell, id).listeners.len() implies #[trigger] unheard(cell, id).listeners[i].0
        != id by {
        cell.listeners.lemma_filter_pred(other_than::<L>(id), i);
    }
    assert forall|i: int| 0 <= i < unheard(cell, id).observers.len() implies #[trigger] unheard(cell, id).observers[i].0
        != id by {
        cell.observers.lemma_filter_pred(other_than::<O>(id), i);
    }
}

} // verus!
