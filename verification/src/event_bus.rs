//! Who is told of an event: the subscribers of one bus, filed by the event's
//! type, each with a number of its own.
//!
//! The bus decides who is told, in what order, and what a removal removes;
//! telling them - handing each a copy of the event - is up to whoever holds
//! the subscribers.

use core::any::TypeId;

use vstd::prelude::*;

use crate::keys::{key_of, same_key};
use crate::trace::Bus;

verus! {

/// A type that travels over a bus, where subscribers find it by its type
/// alone.
pub trait Event: Clone + 'static {}

/// Identifies one subscription on one bus: its number, and the event it is
/// for.
#[derive(Clone, Copy, PartialEq, Eq, Debug)]
pub struct SubscriptionId {
    pub seq: u64,
    pub event: TypeId,
}

/// The subscribers of one bus.
pub struct EventBus<S> {
    subscribers: Vec<(TypeId, u64, S)>,
    next_id: u64,
    kind: Bus,
}

/// A bus as its contracts speak of it: every subscriber, in the order it
/// subscribed, with the event it is for and its number.
pub struct BusView<S> {
    pub subscribers: Seq<(TypeId, u64, S)>,
    pub next_id: u64,
    pub kind: Bus,
}

impl<S> View for EventBus<S> {
    type V = BusView<S>;

    open spec fn view(&self) -> BusView<S> {
        self.listed()
    }
}

/// The subscribers of `event`, in the order they subscribed.
pub open spec fn subscribers_of<S>(subscribers: Seq<(TypeId, u64, S)>, event: TypeId) -> Seq<(TypeId, u64, S)> {
    subscribers.filter(is_for::<S>(event))
}

pub open spec fn is_for<S>(event: TypeId) -> spec_fn((TypeId, u64, S)) -> bool {
    |entry: (TypeId, u64, S)| entry.0 == event
}

/// Everything but the subscription `id`.
pub open spec fn without_subscription<S>(subscribers: Seq<(TypeId, u64, S)>, id: SubscriptionId) -> Seq<(TypeId, u64, S)> {
    subscribers.filter(is_not::<S>(id))
}

pub open spec fn is_not<S>(id: SubscriptionId) -> spec_fn((TypeId, u64, S)) -> bool {
    |entry: (TypeId, u64, S)| !(entry.0 == id.event && entry.1 == id.seq)
}

impl<S> EventBus<S> {
    pub closed spec fn listed(&self) -> BusView<S> {
        BusView { subscribers: self.subscribers@, next_id: self.next_id, kind: self.kind }
    }

    /// Every subscriber has a number of its own, below the next one.
    pub closed spec fn wf(&self) -> bool {
        &&& forall|i: int| 0 <= i < self.subscribers.len() ==> #[trigger] self.subscribers@[i].1 < self.next_id
        &&& forall|i: int, j: int|
            0 <= i < j < self.subscribers.len() ==> #[trigger] self.subscribers@[i].1 != #[trigger] self.subscribers@[j].1
    }

    fn of_kind(kind: Bus) -> (r: EventBus<S>)
        ensures
            r.wf(),
            r@.subscribers.len() == 0,
            r@.next_id == 0,
            r@.kind == kind,
    {
        EventBus { subscribers: Vec::new(), next_id: 0, kind }
    }

    /// A window's own bus, nobody subscribed.
    pub fn new() -> (r: EventBus<S>)
        ensures
            r.wf(),
            r@.subscribers.len() == 0,
            r@.next_id == 0,
            r@.kind == Bus::Window,
    {
        Self::of_kind(Bus::Window)
    }

    /// The application's bus, nobody subscribed.
    pub fn global() -> (r: EventBus<S>)
        ensures
            r.wf(),
            r@.subscribers.len() == 0,
            r@.next_id == 0,
            r@.kind == Bus::Global,
    {
        Self::of_kind(Bus::Global)
    }

    pub fn kind(&self) -> (r: Bus)
        ensures
            r == self@.kind,
    {
        self.kind
    }

    /// Whether another subscription can be numbered: numbers are not reused,
    /// and they run out after `u64::MAX` subscriptions.
    pub fn can_subscribe(&self) -> (r: bool)
        ensures
            r == (self@.next_id < u64::MAX),
    {
        self.next_id < u64::MAX
    }

    /// Subscribes `subscriber` to `event`, after everyone subscribed before.
    pub fn subscribe_to(&mut self, event: TypeId, subscriber: S) -> (r: SubscriptionId)
        requires
            old(self).wf(),
            old(self)@.next_id < u64::MAX,
        ensures
            final(self).wf(),
            r == (SubscriptionId { seq: old(self)@.next_id, event }),
            final(self)@ == (BusView {
                subscribers: old(self)@.subscribers.push((event, r.seq, subscriber)),
                next_id: (old(self)@.next_id + 1) as u64,
                ..old(self)@
            }),
    {
        let seq = self.next_id;
        self.next_id = self.next_id + 1;
        self.subscribers.push((event, seq, subscriber));
        SubscriptionId { seq, event }
    }

    /// How many subscribers `event` has.
    pub fn count_for(&self, event: &TypeId) -> (r: usize)
        ensures
            r == subscribers_of(self@.subscribers, *event).len(),
    {
        let mut count: usize = 0;
        let mut k: usize = 0;
        while k < self.subscribers.len()
            invariant
                k <= self.subscribers.len(),
                count == subscribers_of(self.subscribers@.take(k as int), *event).len(),
                count <= k,
            decreases self.subscribers.len() - k,
        {
            proof {
                let taken = self.subscribers@.take(k + 1);
                assert(taken.drop_last() =~= self.subscribers@.take(k as int));
                assert(taken.last() == self.subscribers@[k as int]);
                reveal(Seq::filter);
            }
            if same_key(&self.subscribers[k].0, event) {
                count = count + 1;
            }
            k = k + 1;
        }
        proof {
            assert(self.subscribers@.take(k as int) =~= self.subscribers@);
        }
        count
    }

    /// The subscribers to tell of `event`, in the order they subscribed.
    pub fn telling(&self, event: &TypeId) -> (r: Vec<&S>)
        ensures
            r@.len() == subscribers_of(self@.subscribers, *event).len(),
            forall|i: int| 0 <= i < r@.len() ==> *r@[i] == subscribers_of(self@.subscribers, *event)[i].2,
    {
        let mut told: Vec<&S> = Vec::new();
        let mut k: usize = 0;
        while k < self.subscribers.len()
            invariant
                k <= self.subscribers.len(),
                told@.len() == subscribers_of(self.subscribers@.take(k as int), *event).len(),
                forall|i: int| 0 <= i < told@.len() ==> *told@[i] == subscribers_of(self.subscribers@.take(k as int), *event)[i].2,
            decreases self.subscribers.len() - k,
        {
            let ghost before = told@;
            proof {
                let taken = self.subscribers@.take(k + 1);
                assert(taken.drop_last() =~= self.subscribers@.take(k as int));
                assert(taken.last() == self.subscribers@[k as int]);
                reveal(Seq::filter);
            }
            if same_key(&self.subscribers[k].0, event) {
                told.push(&self.subscribers[k].2);
            }
            k = k + 1;
        }
        proof {
            assert(self.subscribers@.take(k as int) =~= self.subscribers@);
        }
        told
    }

    /// Ends the subscription `id`, and only it: everyone else stays, in the
    /// same order.
    pub fn remove(&mut self, id: SubscriptionId)
        requires
            old(self).wf(),
        ensures
            final(self).wf(),
            final(self)@ == (BusView {
                subscribers: without_subscription(old(self)@.subscribers, id),
                ..old(self)@
            }),
    {
        let mut rest: Vec<(TypeId, u64, S)> = Vec::new();
        std::mem::swap(&mut rest, &mut self.subscribers);
        let ghost all = rest@;
        let mut kept: Vec<(TypeId, u64, S)> = Vec::new();
        let mut k: usize = 0;
        while rest.len() > 0
            invariant
                k <= all.len(),
                all.len() == old(self).subscribers.len(),
                rest@ == all.skip(k as int),
                kept@ == all.take(k as int).filter(is_not::<S>(id)),
                all == old(self)@.subscribers,
                self.next_id == old(self).next_id,
                self.kind == old(self).kind,
            decreases rest.len(),
        {
            let entry = rest.remove(0);
            proof {
                assert(entry == all[k as int]);
                let taken = all.take(k + 1);
                assert(taken.drop_last() =~= all.take(k as int));
                assert(taken.last() == all[k as int]);
                reveal(Seq::filter);
                assert(rest@ =~= all.skip(k + 1));
            }
            if !(same_key(&entry.0, &id.event) && entry.1 == id.seq) {
                kept.push(entry);
            }
            k = k + 1;
        }
        proof {
            assert(all.take(k as int) =~= all);
            lemma_kept_entries(all, is_not::<S>(id));
        }
        self.subscribers = kept;
        proof {
            assert forall|i: int| 0 <= i < self.subscribers.len() implies #[trigger] self.subscribers@[i].1 < self.next_id by {
                let w = choose|w: int| 0 <= w < all.len() && all[w] == self.subscribers@[i];
                assert(old(self).subscribers@[w].1 < old(self).next_id);
            }
        }
    }

    /// Subscribes `subscriber` to `M`.
    pub fn subscribe<M: Event>(&mut self, subscriber: S) -> (r: SubscriptionId)
        requires
            old(self).wf(),
            old(self)@.next_id < u64::MAX,
        ensures
            final(self).wf(),
            r.seq == old(self)@.next_id,
            final(self)@ == (BusView {
                subscribers: old(self)@.subscribers.push((r.event, r.seq, subscriber)),
                next_id: (old(self)@.next_id + 1) as u64,
                ..old(self)@
            }),
    {
        self.subscribe_to(key_of::<M>(), subscriber)
    }

    /// How many subscribers `M` has.
    ///
    /// Which key `M` is filed under is left unsaid: it is `TypeId::of::<M>()`,
    /// whose value std does not promise and which a named result cannot carry,
    /// being generic. What is stated holds of that key; a caller holding the
    /// key has the exact contract of [`EventBus::count_for`].
    pub fn count_subscribers<M: Event>(&self) -> (r: usize)
        ensures
            exists|event: TypeId| r == #[trigger] subscribers_of(self@.subscribers, event).len(),
    {
        let event = key_of::<M>();
        self.count_for(&event)
    }

    /// Whether anyone is subscribed to `M`.
    ///
    /// Which key `M` is filed under is left unsaid: it is `TypeId::of::<M>()`,
    /// whose value std does not promise and which a named result cannot carry,
    /// being generic. What is stated holds of that key; a caller holding the
    /// key has the exact contract of [`EventBus::count_for`].
    pub fn has_subscribers<M: Event>(&self) -> (r: bool)
        ensures
            exists|event: TypeId| r == (#[trigger] subscribers_of(self@.subscribers, event).len() > 0),
    {
        self.count_subscribers::<M>() > 0
    }

    /// Who is to be told of `msg`: the subscribers of `M`, in the order they
    /// subscribed, each to be handed a copy.
    ///
    /// Which key `M` is filed under is left unsaid: it is `TypeId::of::<M>()`,
    /// whose value std does not promise and which a named result cannot carry,
    /// being generic. What is stated holds of that key; a caller holding the
    /// key has the exact contract of [`EventBus::telling`].
    pub fn publish<M: Event>(&self, msg: M) -> (r: (Vec<&S>, M))
        ensures
            r.1 == msg,
            exists|event: TypeId| #![trigger subscribers_of(self@.subscribers, event)]
                r.0@.len() == subscribers_of(self@.subscribers, event).len()
                && forall|i: int| 0 <= i < r.0@.len() ==> *r.0@[i] == subscribers_of(self@.subscribers, event)[i].2,
    {
        let event = key_of::<M>();
        (self.telling(&event), msg)
    }
}

proof fn lemma_kept_entries<S>(all: Seq<(TypeId, u64, S)>, f: spec_fn((TypeId, u64, S)) -> bool)
    ensures
        forall|w: int| 0 <= w < all.filter(f).len() ==> exists|v: int| 0 <= v < all.len() && all[v] == #[trigger] all.filter(f)[w],
        (forall|a: int, b: int| 0 <= a < b < all.len() ==> #[trigger] all[a].1 != #[trigger] all[b].1) ==> forall|a: int, b: int|
            0 <= a < b < all.filter(f).len() ==> #[trigger] all.filter(f)[a].1 != #[trigger] all.filter(f)[b].1,
    decreases all.len(),
{
    reveal(Seq::filter);
    if all.len() > 0 {
        let rest = all.drop_last();
        lemma_kept_entries(rest, f);
        let kept = all.filter(f);
        assert forall|w: int| 0 <= w < kept.len() implies exists|v: int| 0 <= v < all.len() && all[v] == #[trigger] kept[w] by {
            if f(all.last()) && w == kept.len() - 1 {
                assert(all[all.len() - 1] == kept[w]);
            } else {
                assert(kept[w] == rest.filter(f)[w]);
                let v = choose|v: int| 0 <= v < rest.len() && rest[v] == rest.filter(f)[w];
                assert(all[v] == rest[v]);
            }
        }
        if forall|a: int, b: int| 0 <= a < b < all.len() ==> #[trigger] all[a].1 != #[trigger] all[b].1 {
            assert(forall|a: int, b: int| 0 <= a < b < rest.len() ==> #[trigger] rest[a].1 != #[trigger] rest[b].1) by {
                assert forall|a: int, b: int| 0 <= a < b < rest.len() implies #[trigger] rest[a].1 != #[trigger] rest[b].1 by {
                    assert(rest[a] == all[a] && rest[b] == all[b]);
                }
            }
            assert forall|a: int, b: int| 0 <= a < b < kept.len() implies #[trigger] kept[a].1 != #[trigger] kept[b].1 by {
                if f(all.last()) && b == kept.len() - 1 {
                    assert(kept[a] == rest.filter(f)[a]);
                    let v = choose|v: int| 0 <= v < rest.len() && rest[v] == rest.filter(f)[a];
                    assert(all[v] == rest[v]);
                    assert(kept[b] == all[all.len() - 1]);
                } else {
                    assert(kept[a] == rest.filter(f)[a]);
                    assert(kept[b] == rest.filter(f)[b]);
                }
            }
        }
    }
}

/// Removing a subscription touches nobody subscribed to another event, nor
/// anybody else subscribed to the same one.
pub proof fn law_removal_only_touches_its_own<S>(subscribers: Seq<(TypeId, u64, S)>, id: SubscriptionId, other: TypeId)
    requires
        other != id.event,
    ensures
        subscribers_of(without_subscription(subscribers, id), other) == subscribers_of(subscribers, other),
    decreases subscribers.len(),
{
    reveal(Seq::filter);
    if subscribers.len() > 0 {
        law_removal_only_touches_its_own(subscribers.drop_last(), id, other);
        let rest = without_subscription(subscribers.drop_last(), id);
        let last = subscribers.last();
        if is_not::<S>(id)(last) {
            assert(without_subscription(subscribers, id) =~= rest.push(last));
            assert(rest.push(last).drop_last() =~= rest);
        } else {
            assert(without_subscription(subscribers, id) =~= rest);
        }
    }
}

} // verus!
