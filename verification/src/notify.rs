//! Where a reducer's change becomes a redraw - after the turn that made it.
//!
//! A push applies the update and marks the cell. The listeners run when the
//! current *turn* ends: a turn is one delivery of messages to an actor, or,
//! when nothing opened one, the push itself. A burst of pushes inside one
//! turn costs one notification per cell rather than one per push, because
//! bare marks are deduplicated.
//!
//! This is what decides when, and what: a [`Notifier`] keeps the marks and
//! the depth of turns, and a [`Drain`] walks one round of notifications.
//! Whoever holds the scopes runs the observers and listeners it names.

use core::any::TypeId;

use vstd::prelude::*;

use crate::keys::same_key;

verus! {

/// How many times state may settle before it is no longer chased: an
/// observer that feeds a cell another observer watches is a chain, and a
/// chain that never ends is a bug that surfaces here rather than as a hang.
pub const SETTLE_ROUNDS: usize = 16;

/// One applied update, on its way to whoever is watching: the scope it was
/// made in, the cell, and the update itself when observers are to see it.
pub struct Change<U> {
    pub scope: usize,
    pub cell: TypeId,
    pub update: Option<U>,
}

/// The marks waiting to be drained and where in a turn this thread is.
pub struct Notifier<U> {
    marked: Vec<Change<U>>,
    depth: u32,
    draining: bool,
}

/// What a [`Notifier`] holds, as its contracts speak of it.
pub struct NotifierView<U> {
    pub marked: Seq<Change<U>>,
    pub depth: u32,
    pub draining: bool,
}

impl<U> View for Notifier<U> {
    type V = NotifierView<U>;

    open spec fn view(&self) -> NotifierView<U> {
        self.held()
    }
}

/// Whether `marked` already holds a mark of `cell` in `scope`.
pub open spec fn is_marked<U>(marked: Seq<Change<U>>, scope: usize, cell: TypeId) -> bool {
    exists|i: int| 0 <= i < marked.len() && #[trigger] marked[i].scope == scope && marked[i].cell == cell
}

/// The marks once `change` is made: an observed update is kept whole, and a
/// bare mark only when the cell is not marked yet - one of those is as good
/// as ten.
pub open spec fn marked_with<U>(marked: Seq<Change<U>>, change: Change<U>) -> Seq<Change<U>> {
    if change.update is Some || !is_marked(marked, change.scope, change.cell) {
        marked.push(change)
    } else {
        marked
    }
}

/// One round of a drain: what it has touched and how many rounds it took.
pub struct Drain {
    touched: Vec<(usize, TypeId)>,
    rounds: usize,
}

/// What the next round of a drain is.
pub enum Batch<U> {
    /// These changes, in the order they were marked: run their observers.
    Changes(Vec<Change<U>>),
    /// Nothing is marked: state has settled.
    Settled,
    /// State did not settle in [`SETTLE_ROUNDS`] rounds: an observer is
    /// feeding itself, and what was marked is dropped.
    Unsettled,
}

impl<U> Notifier<U> {
    pub closed spec fn held(&self) -> NotifierView<U> {
        NotifierView { marked: self.marked@, depth: self.depth, draining: self.draining }
    }

    /// Nothing marked, outside any turn, not draining.
    pub fn new() -> (r: Notifier<U>)
        ensures
            r@.marked.len() == 0,
            r@.depth == 0,
            !r@.draining,
    {
        Notifier { marked: Vec::new(), depth: 0, draining: false }
    }

    /// Whether any cell is waiting to be drained.
    pub fn pending(&self) -> (r: bool)
        ensures
            r == (self@.marked.len() > 0),
    {
        self.marked.len() > 0
    }

    /// A turn starts; turns nest.
    pub fn enter_turn(&mut self)
        requires
            old(self)@.depth < u32::MAX,
        ensures
            final(self)@ == (NotifierView { depth: (old(self)@.depth + 1) as u32, ..old(self)@ }),
    {
        self.depth = self.depth + 1;
    }

    /// A turn ends: `true` when it was the outermost one, and what it marked
    /// is to be drained now.
    pub fn leave_turn(&mut self) -> (drain_now: bool)
        ensures
            final(self)@ == (NotifierView {
                depth: if old(self)@.depth == 0 { 0 } else { (old(self)@.depth - 1) as u32 },
                ..old(self)@
            }),
            drain_now == (final(self)@.depth == 0),
    {
        self.depth = if self.depth == 0 { 0 } else { self.depth - 1 };
        self.depth == 0
    }

    /// Marks a change: `true` when it is to be drained at once, which is when
    /// no turn is under way and no drain is running - a push outside a turn
    /// has no frame beneath it to protect, and a push from a listener waits
    /// for the next drain rather than extending this one.
    pub fn mark(&mut self, change: Change<U>) -> (drain_now: bool)
        ensures
            final(self)@.marked == marked_with(old(self)@.marked, change),
            final(self)@.depth == old(self)@.depth,
            final(self)@.draining == old(self)@.draining,
            drain_now == (old(self)@.depth == 0 && !old(self)@.draining),
    {
        let mut seen = false;
        let mut k: usize = 0;
        while k < self.marked.len()
            invariant
                k <= self.marked.len(),
                self.marked@ == old(self).marked@,
                seen == exists|i: int| 0 <= i < k && #[trigger] self.marked@[i].scope == change.scope && self.marked@[i].cell == change.cell,
            decreases self.marked.len() - k,
        {
            if self.marked[k].scope == change.scope && same_key(&self.marked[k].cell, &change.cell) {
                seen = true;
            }
            k = k + 1;
        }
        let observed = change.update.is_some();
        if observed || !seen {
            self.marked.push(change);
        }
        self.depth == 0 && !self.draining
    }

    /// Starts draining, if anything is marked: the drain that starts is told
    /// nothing yet, and until it finishes, marks wait for the next one.
    pub fn begin_drain(&mut self) -> (r: Option<Drain>)
        ensures
            old(self)@.marked.len() == 0 ==> r is None && final(self)@ == old(self)@,
            old(self)@.marked.len() > 0 ==> (r matches Some(drain) && drain@.0.len() == 0 && drain@.1 == 0
                && final(self)@ == (NotifierView { draining: true, ..old(self)@ })),
    {
        if self.marked.len() == 0 {
            return None;
        }
        self.draining = true;
        Some(Drain { touched: Vec::new(), rounds: 0 })
    }

    /// The next round: every change marked since the last one, or word that
    /// state has settled, or that it never will.
    pub fn next_batch(&mut self, drain: &mut Drain) -> (r: Batch<U>)
        ensures
            final(self)@.depth == old(self)@.depth,
            final(self)@.draining == old(self)@.draining,
            final(drain)@.0 == old(drain)@.0,
            old(self)@.marked.len() == 0 ==> r is Settled && final(self)@.marked == old(self)@.marked && final(drain)@.1 == old(drain)@.1,
            old(self)@.marked.len() > 0 && old(drain)@.1 >= SETTLE_ROUNDS ==> r is Unsettled && final(self)@.marked.len() == 0
                && final(drain)@.1 == SETTLE_ROUNDS + 1,
            old(self)@.marked.len() > 0 && old(drain)@.1 < SETTLE_ROUNDS ==> (r matches Batch::Changes(batch) && batch@ == old(self)@.marked
                && final(self)@.marked.len() == 0 && final(drain)@.1 == old(drain)@.1 + 1),
    {
        if self.marked.len() == 0 {
            return Batch::Settled;
        }
        if drain.rounds >= SETTLE_ROUNDS {
            drain.rounds = SETTLE_ROUNDS + 1;
            self.marked.clear();
            return Batch::Unsettled;
        }
        drain.rounds = drain.rounds + 1;
        let mut batch: Vec<Change<U>> = Vec::new();
        std::mem::swap(&mut batch, &mut self.marked);
        Batch::Changes(batch)
    }

    /// The drain is over, listeners and all: marks drain as they come again.
    pub fn finish_drain(&mut self)
        ensures
            final(self)@ == (NotifierView { draining: false, ..old(self)@ }),
    {
        self.draining = false;
    }
}

impl View for Drain {
    type V = (Seq<(usize, TypeId)>, usize);

    open spec fn view(&self) -> (Seq<(usize, TypeId)>, usize) {
        self.walked()
    }
}

impl Drain {
    pub closed spec fn walked(&self) -> (Seq<(usize, TypeId)>, usize) {
        (self.touched@, self.rounds)
    }

    /// Notes that `cell` in `scope` changed in this drain; each cell is
    /// noted once, in the order it was first touched.
    pub fn touch(&mut self, scope: usize, cell: TypeId)
        ensures
            final(self)@.1 == old(self)@.1,
            final(self)@.0 == if old(self)@.0.contains((scope, cell)) {
                old(self)@.0
            } else {
                old(self)@.0.push((scope, cell))
            },
    {
        let mut k: usize = 0;
        while k < self.touched.len()
            invariant
                k <= self.touched.len(),
                self.touched@ == old(self).touched@,
                forall|i: int| 0 <= i < k ==> self.touched@[i] != (scope, cell),
            decreases self.touched.len() - k,
        {
            if self.touched[k].0 == scope && same_key(&self.touched[k].1, &cell) {
                proof {
                    assert(self@.0[k as int] == (scope, cell));
                }
                return;
            }
            k = k + 1;
        }
        self.touched.push((scope, cell));
    }

    /// The cells this drain touched, each once, in the order first touched:
    /// whose listeners run now that state has settled.
    pub fn touched(&self) -> (r: &Vec<(usize, TypeId)>)
        ensures
            r@ == self@.0,
    {
        &self.touched
    }

    /// How many rounds it took state to settle.
    pub fn rounds(&self) -> (r: usize)
        ensures
            r == self@.1,
    {
        self.rounds
    }
}

/// The marks after `changes` are made one after another.
pub open spec fn marked_after<U>(marked: Seq<Change<U>>, changes: Seq<Change<U>>) -> Seq<Change<U>>
    decreases changes.len(),
{
    if changes.len() == 0 {
        marked
    } else {
        marked_with(marked_after(marked, changes.drop_last()), changes.last())
    }
}

/// How many of `marked` are marks of `cell` in `scope`.
pub open spec fn marks_of<U>(marked: Seq<Change<U>>, scope: usize, cell: TypeId) -> nat
    decreases marked.len(),
{
    if marked.len() == 0 {
        0
    } else {
        marks_of(marked.drop_last(), scope, cell) + if marked.last().scope == scope && marked.last().cell == cell { 1nat } else { 0nat }
    }
}

proof fn lemma_no_marks<U>(marked: Seq<Change<U>>, scope: usize, cell: TypeId)
    requires
        !is_marked(marked, scope, cell),
    ensures
        marks_of(marked, scope, cell) == 0,
    decreases marked.len(),
{
    if marked.len() > 0 {
        assert forall|i: int| 0 <= i < marked.drop_last().len() implies !(#[trigger] marked.drop_last()[i].scope == scope && marked.drop_last()[i].cell == cell) by {
            assert(marked.drop_last()[i] == marked[i]);
        }
        lemma_no_marks(marked.drop_last(), scope, cell);
        assert(!(marked[marked.len() - 1].scope == scope && marked[marked.len() - 1].cell == cell));
    }
}

proof fn lemma_some_mark<U>(marked: Seq<Change<U>>, scope: usize, cell: TypeId)
    requires
        is_marked(marked, scope, cell),
    ensures
        marks_of(marked, scope, cell) >= 1,
    decreases marked.len(),
{
    let i = choose|i: int| 0 <= i < marked.len() && #[trigger] marked[i].scope == scope && marked[i].cell == cell;
    if i < marked.len() - 1 {
        assert(marked.drop_last()[i] == marked[i]);
        lemma_some_mark(marked.drop_last(), scope, cell);
    }
}

/// A burst of bare pushes to one cell costs one notification: however many
/// are made, the cell is marked once - or as often as it already was.
pub proof fn law_a_burst_is_marked_once<U>(marked: Seq<Change<U>>, changes: Seq<Change<U>>, scope: usize, cell: TypeId)
    requires
        changes.len() > 0,
        forall|i: int| 0 <= i < changes.len() ==> (#[trigger] changes[i]).scope == scope && changes[i].cell == cell && changes[i].update is None,
    ensures
        marks_of(marked_after(marked, changes), scope, cell) == if is_marked(marked, scope, cell) {
            marks_of(marked, scope, cell)
        } else {
            1
        },
    decreases changes.len(),
{
    let before = marked_after(marked, changes.drop_last());
    let last = changes.last();
    assert(last == changes[changes.len() - 1]);
    if changes.len() == 1 {
        assert(changes.drop_last() =~= Seq::<Change<U>>::empty());
        assert(before == marked);
        if !is_marked(marked, scope, cell) {
            lemma_no_marks(marked, scope, cell);
            assert(marked.push(last).drop_last() =~= marked);
        }
    } else {
        assert forall|i: int| 0 <= i < changes.drop_last().len() implies (#[trigger] changes.drop_last()[i]).scope == scope
            && changes.drop_last()[i].cell == cell && changes.drop_last()[i].update is None by {
            assert(changes.drop_last()[i] == changes[i]);
        }
        law_a_burst_is_marked_once(marked, changes.drop_last(), scope, cell);
        if !is_marked(before, scope, cell) {
            if is_marked(marked, scope, cell) {
                lemma_some_mark(marked, scope, cell);
            }
            lemma_no_marks(before, scope, cell);
        }
    }
}

} // verus!
