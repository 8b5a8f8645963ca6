//! How long between a timer's ticks.

use core::time::Duration;

use vstd::prelude::*;

verus! {

/// How long between ticks.
pub enum Period<F> {
    Fixed(Duration),
    /// Asked again before every tick: for a period the user can change.
    Varying(F),
}

impl<F: Fn() -> Duration> Period<F> {
    /// A period asked for again before every tick.
    pub fn varying(period: F) -> (r: Period<F>)
        ensures
            r == Period::Varying(period),
    {
        Period::Varying(period)
    }

    /// The wait before the next tick: the fixed one, or whatever the varying
    /// one answers now.
    pub fn next(&self) -> (r: Duration)
        requires
            self matches Period::Varying(f) ==> f.requires(()),
        ensures
            match self {
                Period::Fixed(period) => r == *period,
                Period::Varying(f) => f.ensures((), r),
            },
    {
        match self {
            Period::Fixed(period) => *period,
            Period::Varying(f) => f(),
        }
    }
}

/// Where a timer was set up in the application's source.
#[derive(Clone, Copy, Debug)]
pub struct Place {
    pub file: &'static str,
    pub line: u32,
    pub column: u32,
}

/// What is known about a running timer.
#[derive(Clone, Copy, Debug)]
pub struct TimerInfo {
    pub id: u64,
    pub name: Option<&'static str>,
    /// Where it was set up.
    pub place: Place,
    /// The feature that set it up.
    pub feature: Option<&'static str>,
    /// The scope that owns it; `None` for the application.
    pub scope: Option<usize>,
    /// The period of the last tick, or of the first one to come.
    pub period: Duration,
}

/// One running timer as the table keeps it.
#[derive(Clone, Copy, Debug)]
pub struct TimerState {
    pub info: TimerInfo,
    /// Which chain of wake-ups is the live one. Changing the period starts a
    /// new chain, and whatever the old one had already queued is dropped
    /// when it comes due.
    pub generation: u64,
    /// Whether it shows up in devtools and leaves a trace when it ticks.
    pub traced: bool,
}

/// The table as its laws speak of it: the running timers, oldest first, and
/// every id ever handed out.
pub struct TimersView {
    pub live: Seq<TimerState>,
    pub issued: Set<u64>,
}

/// The timers running on one thread.
pub struct Timers {
    next: u64,
    live: Vec<TimerState>,
}

impl View for Timers {
    type V = TimersView;

    open spec fn view(&self) -> TimersView {
        self.table_view()
    }
}

/// Where the timer `id` stands among `live`, if it is running.
pub open spec fn spot(live: Seq<TimerState>, id: u64) -> Option<int> {
    if exists|i: int| 0 <= i < live.len() && live[i].info.id == id {
        Some(choose|i: int| 0 <= i < live.len() && live[i].info.id == id)
    } else {
        None
    }
}

/// Whether a wake-up armed under `armed` for the timer `id` is the live one.
pub open spec fn due(live: Seq<TimerState>, id: u64, armed: u64) -> bool {
    match spot(live, id) {
        Some(i) => live[i].generation == armed,
        None => false,
    }
}

/// A timer just started: no name, traced, on its first chain.
pub open spec fn fresh(
    id: u64,
    place: Place,
    feature: Option<&'static str>,
    scope: Option<usize>,
    first: Duration,
) -> TimerState {
    TimerState {
        info: TimerInfo { id, name: None, place, feature, scope, period: first },
        generation: 0,
        traced: true,
    }
}

/// `live` with the timer `id` changed by `change`, if it is running.
pub open spec fn changed(
    live: Seq<TimerState>,
    id: u64,
    change: spec_fn(TimerState) -> TimerState,
) -> Seq<TimerState> {
    match spot(live, id) {
        Some(i) => live.update(i, change(live[i])),
        None => live,
    }
}

pub open spec fn with_name(name: &'static str) -> spec_fn(TimerState) -> TimerState {
    |t: TimerState|
        TimerState {
            info: TimerInfo {
                id: t.info.id,
                name: Some(name),
                place: t.info.place,
                feature: t.info.feature,
                scope: t.info.scope,
                period: t.info.period,
            },
            generation: t.generation,
            traced: t.traced,
        }
}

pub open spec fn with_period(period: Duration) -> spec_fn(TimerState) -> TimerState {
    |t: TimerState|
        TimerState {
            info: TimerInfo {
                id: t.info.id,
                name: t.info.name,
                place: t.info.place,
                feature: t.info.feature,
                scope: t.info.scope,
                period,
            },
            generation: t.generation,
            traced: t.traced,
        }
}

/// A new chain of wake-ups, starting with a wait of `period`.
pub open spec fn rechained(period: Duration) -> spec_fn(TimerState) -> TimerState {
    |t: TimerState|
        TimerState {
            info: TimerInfo {
                id: t.info.id,
                name: t.info.name,
                place: t.info.place,
                feature: t.info.feature,
                scope: t.info.scope,
                period,
            },
            generation: (t.generation + 1) as u64,
            traced: t.traced,
        }
}

pub open spec fn untraced() -> spec_fn(TimerState) -> TimerState {
    |t: TimerState| TimerState { info: t.info, generation: t.generation, traced: false }
}

/// `live` without the timer `id`.
pub open spec fn stopped(live: Seq<TimerState>, id: u64) -> Seq<TimerState> {
    match spot(live, id) {
        Some(i) => live.remove(i),
        None => live,
    }
}

/// What devtools see of `live`: the traced timers, in the same order.
pub open spec fn shown(live: Seq<TimerState>) -> Seq<TimerInfo>
    decreases live.len(),
{
    if live.len() == 0 {
        Seq::empty()
    } else if live.last().traced {
        shown(live.drop_last()).push(live.last().info)
    } else {
        shown(live.drop_last())
    }
}

impl Timers {
    pub closed spec fn table_view(&self) -> TimersView {
        TimersView { live: self.live@, issued: Set::new(|id: u64| 1 <= id < self.next) }
    }

    /// Every running timer was handed its id here, oldest first, no two
    /// alike.
    pub closed spec fn wf(&self) -> bool {
        &&& 1 <= self.next
        &&& forall|i: int| 0 <= i < self.live.len() ==> 1 <= #[trigger] self.live@[i].info.id < self.next
        &&& forall|i: int, j: int|
            0 <= i < j < self.live.len() ==> #[trigger] self.live@[i].info.id < #[trigger] self.live@[j].info.id
    }

    /// Whether another timer can be given an id of its own.
    pub closed spec fn has_room(&self) -> bool {
        self.next < u64::MAX
    }

    proof fn lemma_view(&self)
        requires
            self.wf(),
        ensures
            self@.live == self.live@,
            forall|id: u64| #[trigger] self@.issued.contains(id) <==> 1 <= id < self.next,
            forall|i: int| 0 <= i < self@.live.len() ==> #[trigger] self@.issued.contains(self@.live[i].info.id),
            forall|i: int, j: int|
                0 <= i < j < self@.live.len() ==> #[trigger] self@.live[i].info.id < #[trigger] self@.live[j].info.id,
    {
        assert forall|i: int| 0 <= i < self@.live.len() implies #[trigger] self@.issued.contains(self@.live[i].info.id) by {
            assert(1 <= self.live@[i].info.id < self.next);
        }
    }

    /// No timer running, none ever started.
    pub fn new() -> (r: Timers)
        ensures
            r.wf(),
            r.has_room(),
            r@.live.len() == 0,
            r@.issued.is_empty(),
    {
        let r = Timers { next: 1, live: Vec::new() };
        proof {
            assert(r@.issued =~= Set::<u64>::empty());
        }
        r
    }

    /// Whether another timer can be started: ids are never reused.
    pub fn can_start(&self) -> (r: bool)
        ensures
            r == self.has_room(),
    {
        self.next < u64::MAX
    }

    /// Starts a timer: a new id, never handed out before, at the end of the
    /// table.
    pub fn start(
        &mut self,
        place: Place,
        feature: Option<&'static str>,
        scope: Option<usize>,
        first: Duration,
    ) -> (id: u64)
        requires
            old(self).wf(),
            old(self).has_room(),
        ensures
            final(self).wf(),
            !old(self)@.issued.contains(id),
            final(self)@.issued == old(self)@.issued.insert(id),
            final(self)@.live == old(self)@.live.push(fresh(id, place, feature, scope, first)),
    {
        let id = self.next;
        self.live.push(TimerState {
            info: TimerInfo { id, name: None, place, feature, scope, period: first },
            generation: 0,
            traced: true,
        });
        self.next = self.next + 1;
        proof {
            assert(self@.issued =~= old(self)@.issued.insert(id));
        }
        id
    }

    fn find(&self, id: u64) -> (r: Option<usize>)
        requires
            self.wf(),
        ensures
            match r {
                Some(k) => spot(self@.live, id) == Some(k as int) && k < self@.live.len(),
                None => spot(self@.live, id) is None,
            },
    {
        let mut k: usize = 0;
        while k < self.live.len()
            invariant
                self.wf(),
                k <= self.live.len(),
                forall|j: int| 0 <= j < k ==> self.live@[j].info.id != id,
            decreases self.live.len() - k,
        {
            if self.live[k].info.id == id {
                proof {
                    let w = choose|i: int| 0 <= i < self.live@.len() && self.live@[i].info.id == id;
                    if w < k {
                    } else if w > k {
                        assert(self.live@[k as int].info.id < self.live@[w].info.id);
                    }
                }
                return Some(k);
            }
            k = k + 1;
        }
        None
    }

    /// The timer `id`, if it is running.
    pub fn lookup(&self, id: u64) -> (r: Option<TimerState>)
        requires
            self.wf(),
        ensures
            r == match spot(self@.live, id) {
                Some(i) => Some(self@.live[i]),
                None => None::<TimerState>,
            },
    {
        match self.find(id) {
            Some(k) => Some(self.live[k]),
            None => None,
        }
    }

    fn change_at(&mut self, k: usize, t: TimerState)
        requires
            old(self).wf(),
            k < old(self)@.live.len(),
            t.info.id == old(self)@.live[k as int].info.id,
        ensures
            final(self).wf(),
            final(self).has_room() == old(self).has_room(),
            final(self)@.issued == old(self)@.issued,
            final(self)@.live == old(self)@.live.update(k as int, t),
    {
        self.live.set(k, t);
        proof {
            assert(self@.issued =~= old(self)@.issued);
            assert forall|i: int, j: int|
                0 <= i < j < self.live.len() implies #[trigger] self.live@[i].info.id < #[trigger] self.live@[j].info.id by {
                assert(old(self).live@[i].info.id < old(self).live@[j].info.id);
            }
        }
    }

    /// What devtools call the timer `id`, instead of where it was set up.
    pub fn set_name(&mut self, id: u64, name: &'static str)
        requires
            old(self).wf(),
        ensures
            final(self).wf(),
            final(self).has_room() == old(self).has_room(),
            final(self)@.issued == old(self)@.issued,
            final(self)@.live == changed(old(self)@.live, id, with_name(name)),
    {
        if let Some(k) = self.find(id) {
            let t = self.live[k];
            let named = TimerState {
                info: TimerInfo {
                    id: t.info.id,
                    name: Some(name),
                    place: t.info.place,
                    feature: t.info.feature,
                    scope: t.info.scope,
                    period: t.info.period,
                },
                generation: t.generation,
                traced: t.traced,
            };
            self.change_at(k, named);
        }
    }

    /// Leaves the timer `id` out of devtools and out of the trace.
    pub fn untrace(&mut self, id: u64)
        requires
            old(self).wf(),
        ensures
            final(self).wf(),
            final(self).has_room() == old(self).has_room(),
            final(self)@.issued == old(self)@.issued,
            final(self)@.live == changed(old(self)@.live, id, untraced()),
    {
        if let Some(k) = self.find(id) {
            let t = self.live[k];
            self.change_at(k, TimerState { info: t.info, generation: t.generation, traced: false });
        }
    }

    /// The period the timer `id` waits now, as devtools show it.
    pub fn record_period(&mut self, id: u64, period: Duration)
        requires
            old(self).wf(),
        ensures
            final(self).wf(),
            final(self).has_room() == old(self).has_room(),
            final(self)@.issued == old(self)@.issued,
            final(self)@.live == changed(old(self)@.live, id, with_period(period)),
    {
        if let Some(k) = self.find(id) {
            let t = self.live[k];
            let timed = TimerState {
                info: TimerInfo {
                    id: t.info.id,
                    name: t.info.name,
                    place: t.info.place,
                    feature: t.info.feature,
                    scope: t.info.scope,
                    period,
                },
                generation: t.generation,
                traced: t.traced,
            };
            self.change_at(k, timed);
        }
    }

    /// Whether the period of the timer `id` can change once more: each
    /// change starts a chain of its own, and they are counted.
    pub open spec fn can_rechain(&self, id: u64) -> bool {
        match spot(self@.live, id) {
            Some(i) => self@.live[i].generation < u64::MAX,
            None => true,
        }
    }

    pub fn rechainable(&self, id: u64) -> (r: bool)
        requires
            self.wf(),
        ensures
            r == self.can_rechain(id),
    {
        match self.find(id) {
            Some(k) => self.live[k].generation < u64::MAX,
            None => true,
        }
    }

    /// Changes how often the timer `id` ticks, from now: a new chain of
    /// wake-ups, whose first wait is `first`. Gives the chain to arm, or
    /// `None` when the timer is not running.
    pub fn rechain(&mut self, id: u64, first: Duration) -> (r: Option<u64>)
        requires
            old(self).wf(),
            old(self).can_rechain(id),
        ensures
            final(self).wf(),
            final(self).has_room() == old(self).has_room(),
            final(self)@.issued == old(self)@.issued,
            final(self)@.live == changed(old(self)@.live, id, rechained(first)),
            r == match spot(old(self)@.live, id) {
                Some(i) => Some((old(self)@.live[i].generation + 1) as u64),
                None => None::<u64>,
            },
    {
        match self.find(id) {
            Some(k) => {
                let t = self.live[k];
                let generation = t.generation + 1;
                let next = TimerState {
                    info: TimerInfo {
                        id: t.info.id,
                        name: t.info.name,
                        place: t.info.place,
                        feature: t.info.feature,
                        scope: t.info.scope,
                        period: first,
                    },
                    generation,
                    traced: t.traced,
                };
                self.change_at(k, next);
                Some(generation)
            },
            None => None,
        }
    }

    /// Stops the timer `id`: its entry goes, and only its entry.
    pub fn stop(&mut self, id: u64)
        requires
            old(self).wf(),
        ensures
            final(self).wf(),
            final(self).has_room() == old(self).has_room(),
            final(self)@.issued == old(self)@.issued,
            final(self)@.live == stopped(old(self)@.live, id),
    {
        if let Some(k) = self.find(id) {
            self.live.remove(k);
            proof {
                assert(self@.issued =~= old(self)@.issued);
                assert forall|i: int, j: int|
                    0 <= i < j < self.live.len() implies #[trigger] self.live@[i].info.id
                        < #[trigger] self.live@[j].info.id by {
                    let oi = if i < k { i } else { i + 1 };
                    let oj = if j < k { j } else { j + 1 };
                    assert(old(self).live@[oi].info.id < old(self).live@[oj].info.id);
                }
                assert forall|i: int| 0 <= i < self.live.len() implies 1 <= #[trigger] self.live@[i].info.id
                    < self.next by {
                    let oi = if i < k { i } else { i + 1 };
                    assert(self.live@[i] == old(self).live@[oi]);
                }
            }
        }
    }

    /// The timers devtools may see, oldest first.
    pub fn running(&self) -> (r: Vec<TimerInfo>)
        requires
            self.wf(),
        ensures
            r@ == shown(self@.live),
            forall|i: int, j: int| 0 <= i < j < r@.len() ==> #[trigger] r@[i].id < #[trigger] r@[j].id,
    {
        let mut out: Vec<TimerInfo> = Vec::new();
        let mut k: usize = 0;
        while k < self.live.len()
            invariant
                self.wf(),
                k <= self.live.len(),
                out@ == shown(self.live@.take(k as int)),
                forall|i: int, j: int| 0 <= i < j < out@.len() ==> #[trigger] out@[i].id < #[trigger] out@[j].id,
                forall|i: int, j: int|
                    0 <= i < out@.len() && k <= j < self.live.len() ==> #[trigger] out@[i].id
                        < #[trigger] self.live@[j].info.id,
            decreases self.live.len() - k,
        {
            let ghost before = out@;
            proof {
                assert(self.live@.take(k + 1).drop_last() =~= self.live@.take(k as int));
                assert(self.live@.take(k + 1).last() == self.live@[k as int]);
            }
            let t = self.live[k];
            if t.traced {
                out.push(t.info);
            }
            proof {
                assert forall|i: int, j: int|
                    0 <= i < out@.len() && k + 1 <= j < self.live.len() implies #[trigger] out@[i].id
                        < #[trigger] self.live@[j].info.id by {
                    if i < before.len() {
                        assert(before[i].id < self.live@[j].info.id);
                    } else {
                        assert(self.live@[k as int].info.id < self.live@[j].info.id);
                    }
                }
            }
            k = k + 1;
        }
        proof {
            assert(self.live@.take(k as int) =~= self.live@);
        }
        out
    }
}

/// Timers in order of their ids, no two alike: what a table holds.
pub open spec fn ordered(live: Seq<TimerState>) -> bool {
    forall|i: int, j: int| 0 <= i < j < live.len() ==> #[trigger] live[i].info.id < #[trigger] live[j].info.id
}

proof fn lemma_spot(live: Seq<TimerState>, id: u64, i: int)
    requires
        ordered(live),
        0 <= i < live.len(),
        live[i].info.id == id,
    ensures
        spot(live, id) == Some(i),
{
    let w = choose|j: int| 0 <= j < live.len() && live[j].info.id == id;
    if w < i {
        assert(live[w].info.id < live[i].info.id);
    } else if w > i {
        assert(live[i].info.id < live[w].info.id);
    }
}

/// Changing a timer's period ends the chain of wake-ups it was on: the one
/// already armed comes due stale, and only the new chain ticks.
pub proof fn law_new_period_ends_the_old_chain(live: Seq<TimerState>, id: u64, first: Duration, armed: u64)
    requires
        ordered(live),
        due(live, id, armed),
        armed < u64::MAX,
    ensures
        !due(changed(live, id, rechained(first)), id, armed),
        due(changed(live, id, rechained(first)), id, (armed + 1) as u64),
{
    let i = spot(live, id)->0;
    let after = changed(live, id, rechained(first));
    assert(after == live.update(i, rechained(first)(live[i])));
    assert(ordered(after)) by {
        assert forall|a: int, b: int| 0 <= a < b < after.len() implies #[trigger] after[a].info.id
            < #[trigger] after[b].info.id by {
            assert(live[a].info.id < live[b].info.id);
        }
    }
    lemma_spot(after, id, i);
}

/// A stopped timer never ticks again: whatever was armed for it comes due
/// stale.
pub proof fn law_stopped_never_ticks(live: Seq<TimerState>, id: u64, armed: u64)
    requires
        ordered(live),
    ensures
        !due(stopped(live, id), id, armed),
{
    match spot(live, id) {
        Some(i) => {
            let after = live.remove(i);
            assert forall|j: int| 0 <= j < after.len() implies after[j].info.id != id by {
                if j < i {
                    assert(live[j].info.id < live[i].info.id);
                } else {
                    assert(live[i].info.id < live[j + 1].info.id);
                }
            }
        },
        None => {},
    }
}

/// What a wake-up that comes due is to do.
#[derive(Clone, Copy, Debug, PartialEq, Eq, Structural)]
pub enum Tick {
    /// Left over from a period that has since changed, or from a timer that
    /// is gone: drop it.
    Stale,
    /// The timer is not active: run nothing, and arm the next wake-up.
    Skip,
    /// Run the timer, then arm the next wake-up.
    Run,
}

/// Decides a wake-up of the timer `id` armed under `armed`. A chain of
/// wake-ups ends when the period changes, so one from an older chain is
/// stale; `active`, asked only of a live one, keeps the period running
/// without ticking while it answers `false`.
pub fn tick<A: Fn() -> bool>(timers: &Timers, id: u64, armed: u64, active: Option<&A>) -> (r: Tick)
    requires
        timers.wf(),
        active matches Some(a) ==> a.requires(()),
    ensures
        !due(timers@.live, id, armed) ==> r == Tick::Stale,
        due(timers@.live, id, armed) ==> match active {
            None => r == Tick::Run,
            Some(a) => r != Tick::Stale && a.ensures((), r == Tick::Run),
        },
{
    match timers.lookup(id) {
        None => Tick::Stale,
        Some(t) => {
            if t.generation != armed {
                Tick::Stale
            } else {
                match active {
                    None => Tick::Run,
                    Some(a) => {
                        if a() {
                            Tick::Run
                        } else {
                            Tick::Skip
                        }
                    },
                }
            }
        },
    }
}

/// A wake-up to arm: for the timer `id`, in the chain `armed`, after
/// `after`.
#[derive(Clone, Copy, Debug)]
pub struct Wake {
    pub id: u64,
    pub armed: u64,
    pub after: Duration,
}

/// After a wake-up of the timer `id` armed under `armed` that was not
/// stale, run or skipped: asks `period` once for the next wait, records it
/// as the timer's period, and gives the one wake-up to arm next, in the
/// chain this one came from - a period changed meanwhile has armed its own
/// chain, and this one is over.
pub fn tick_done<F: Fn() -> Duration>(timers: &mut Timers, id: u64, armed: u64, period: &Period<F>) -> (r: Wake)
    requires
        old(timers).wf(),
        period matches Period::Varying(f) ==> f.requires(()),
    ensures
        final(timers).wf(),
        final(timers).has_room() == old(timers).has_room(),
        final(timers)@.issued == old(timers)@.issued,
        final(timers)@.live == changed(old(timers)@.live, id, with_period(r.after)),
        r.id == id,
        r.armed == armed,
        match period {
            Period::Fixed(fixed) => r.after == *fixed,
            Period::Varying(f) => f.ensures((), r.after),
        },
{
    let after = period.next();
    timers.record_period(id, after);
    Wake { id, armed, after }
}

} // verus!
