//! What an actor declared, kept for devtools, and how a feature's actions
//! reach the actor wired for them.

use core::any::TypeId;
use core::marker::PhantomData;
use std::collections::VecDeque;

use vstd::prelude::*;

use crate::keys::{key_of, same_key};
use crate::trace::Cause;

verus! {

/// How a handler reaches what it names.
#[derive(Clone, Copy, Debug, PartialEq, Eq, Structural)]
pub enum Channel {
    Send,
    Bg,
    Emit,
    Ask,
}

/// One thing a handler declared it sends, and how.
#[derive(Clone, Copy, Debug)]
pub struct Edge {
    pub channel: Channel,
    /// The name of what it sends, as devtools show it: its module and itself.
    pub target: &'static str,
    pub looping: bool,
}

/// One message an actor handles.
#[derive(Clone, Copy, Debug)]
pub struct Handles {
    /// The name of the message, as devtools show it.
    pub message: &'static str,
    /// `None` when the handler declared nothing about what it sends.
    pub edges: Option<&'static [Edge]>,
    /// Where the handler was written, when it was recorded.
    pub declared: Option<Declared>,
}

/// Where an actor or a handler was written.
#[derive(Clone, Copy, Debug, PartialEq, Eq)]
pub struct Declared {
    /// As `file!()` gives it: relative to wherever the compiler ran, which is
    /// usually the workspace root.
    pub file: &'static str,
    pub line: u32,
    pub column: u32,
    /// The declaring crate's manifest directory.
    pub crate_dir: &'static str,
}

/// What an actor declared: what it handles, what each handler sends, what it
/// publishes and what it subscribes to. Every edge is known at compile time;
/// this is the same list, written down as data.
#[derive(Clone, Copy, Debug)]
pub struct Shape {
    pub handles: &'static [Handles],
    pub publishes: &'static [&'static str],
    pub subscribes: &'static [&'static str],
    pub declared: Option<Declared>,
}

impl Shape {
    /// The shape of an actor that declared nothing.
    pub fn unknown() -> (r: Shape)
        ensures
            r.handles@.len() == 0,
            r.publishes@.len() == 0,
            r.subscribes@.len() == 0,
            r.declared is None,
    {
        Shape { handles: &[], publishes: &[], subscribes: &[], declared: None }
    }
}

/// Where an actor lives, for grouping it.
#[derive(Clone, Copy, Debug, Default, PartialEq, Eq)]
pub struct Owner {
    /// The scope that owns it.
    pub scope: Option<usize>,
    /// The feature that created it.
    pub feature: Option<&'static str>,
    /// The reducer it drives, when it was created to drive one.
    pub drives: Option<&'static str>,
}

/// An actor as devtools list it.
#[derive(Debug)]
pub struct ActorSnapshot {
    pub id: usize,
    /// The actor's type, as devtools show it.
    pub kind_name: &'static str,
    pub state: String,
    pub shape: Shape,
    pub owner: Owner,
}

/// Every id in `actors` is at or below the ones after it.
pub open spec fn by_id(actors: Seq<ActorSnapshot>) -> bool {
    forall|i: int, j: int| 0 <= i < j < actors.len() ==> #[trigger] actors[i].id <= #[trigger] actors[j].id
}

/// Whether a snapshot is of the actor `id`.
pub open spec fn id_is(id: usize) -> spec_fn(ActorSnapshot) -> bool {
    |actor: ActorSnapshot| actor.id == id
}

/// The snapshots in `actors` of the actor `id`, in the order they come.
pub open spec fn with_id(actors: Seq<ActorSnapshot>, id: usize) -> Seq<ActorSnapshot> {
    actors.filter(id_is(id))
}

proof fn lemma_insert_after_same_id(before: Seq<ActorSnapshot>, at: int, next: ActorSnapshot, id: usize)
    requires
        0 <= at <= before.len(),
        forall|j: int| at <= j < before.len() ==> #[trigger] before[j].id != next.id,
    ensures
        with_id(before.insert(at, next), id) == if next.id == id {
            with_id(before, id).push(next)
        } else {
            with_id(before, id)
        },
{
    let p = id_is(id);
    let head = before.take(at);
    let tail = before.skip(at);
    let one = seq![next];
    assert(before =~= head + tail);
    assert(before.insert(at, next) =~= (head + one) + tail);
    Seq::filter_distributes_over_add(head, tail, p);
    Seq::filter_distributes_over_add(head + one, tail, p);
    Seq::filter_distributes_over_add(head, one, p);
    assert(one =~= Seq::<ActorSnapshot>::empty().push(next));
    Seq::<ActorSnapshot>::empty().lemma_filter_push(next, p);
    assert(Seq::<ActorSnapshot>::empty().filter(p) =~= Seq::empty()) by {
        Seq::<ActorSnapshot>::empty().lemma_filter_len(p);
    }
    if next.id == id {
        assert(tail.all(|x: ActorSnapshot| !p(x))) by {
            assert forall|i: int| 0 <= i < tail.len() implies !p(#[trigger] tail[i]) by {
                assert(tail[i] == before[at + i]);
            }
        }
        tail.lemma_all_neg_filter_empty(p);
        assert(tail.filter(p) =~= Seq::empty());
        assert(head.filter(p) + one.filter(p) + tail.filter(p) =~= (head.filter(p) + tail.filter(p)).push(next));
    } else {
        assert(one.filter(p) =~= Seq::empty());
        assert(head.filter(p) + one.filter(p) + tail.filter(p) =~= head.filter(p) + tail.filter(p));
    }
}

/// The application-level actors, by id: the same snapshots, ordered by id,
/// those with equal ids in the order they came.
pub fn app_actors(snapshots: Vec<ActorSnapshot>) -> (r: Vec<ActorSnapshot>)
    ensures
        by_id(r@),
        r@.to_multiset() == snapshots@.to_multiset(),
        forall|id: usize| #[trigger] with_id(r@, id) == with_id(snapshots@, id),
{
    let ghost all = snapshots@;
    assert(all.len() == snapshots.len());
    let mut rest = snapshots;
    let mut sorted: Vec<ActorSnapshot> = Vec::new();
    let mut k: usize = 0;
    proof {
        assert(sorted@ =~= all.take(0));
        assert(all.skip(0) =~= all);
    }
    while rest.len() > 0
        invariant
            k <= all.len(),
            all.len() == rest.len() + k,
            all.len() <= usize::MAX,
            rest@ == all.skip(k as int),
            by_id(sorted@),
            sorted@.to_multiset() == all.take(k as int).to_multiset(),
            forall|id: usize| #[trigger] with_id(sorted@, id) == with_id(all.take(k as int), id),
        decreases rest.len(),
    {
        let next = rest.remove(0);
        let mut at = sorted.len();
        while at > 0 && sorted[at - 1].id > next.id
            invariant
                at <= sorted.len(),
                by_id(sorted@),
                forall|j: int| at <= j < sorted.len() ==> #[trigger] sorted@[j].id > next.id,
            decreases at,
        {
            at = at - 1;
        }
        let ghost before = sorted@;
        sorted.insert(at, next);
        proof {
            assert(next == all[k as int]);
            assert(rest@ =~= all.skip(k + 1));
            assert(all.take(k + 1) =~= all.take(k as int).push(all[k as int]));
            vstd::seq_lib::to_multiset_build(all.take(k as int), next);
            vstd::seq_lib::to_multiset_insert(before, at as int, next);
            assert forall|id: usize| #[trigger] with_id(sorted@, id) == with_id(all.take(k + 1), id) by {
                lemma_insert_after_same_id(before, at as int, next, id);
                all.take(k as int).lemma_filter_push(next, id_is(id));
            }
            assert forall|i: int, j: int| 0 <= i < j < sorted.len() implies #[trigger] sorted@[i].id <= #[trigger] sorted@[j].id by {
                if i < at && j == at {
                    if at > 0 {
                        assert(before[at - 1].id <= next.id);
                        assert(before[i].id <= before[at - 1].id || i == at - 1);
                    }
                } else if i == at && j > at {
                    assert(before[j - 1].id > next.id);
                } else if i < at && j > at {
                    assert(before[i].id <= before[j - 1].id);
                } else if j < at {
                    assert(before[i].id <= before[j].id);
                } else {
                    assert(before[i - 1].id <= before[j - 1].id);
                }
            }
        }
        k = k + 1;
    }
    proof {
        assert(all.take(k as int) =~= all);
    }
    sorted
}

/// One actor on the debug list: its type's name, its shape, who owns it,
/// and how to read its state now.
pub struct DebugEntry<F> {
    pub kind_name: &'static str,
    pub shape: Shape,
    pub owner: Owner,
    pub snapshot: F,
}

/// The actors devtools can list, each under its id.
pub struct DebugRegistry<F> {
    entries: Vec<(usize, DebugEntry<F>)>,
}

impl<F> View for DebugRegistry<F> {
    type V = Seq<(usize, DebugEntry<F>)>;

    open spec fn view(&self) -> Seq<(usize, DebugEntry<F>)> {
        self.listed()
    }
}

/// Where the actor `id` stands on the list, if it is there.
pub open spec fn listed_at<F>(entries: Seq<(usize, DebugEntry<F>)>, id: usize) -> Option<int> {
    if exists|i: int| 0 <= i < entries.len() && entries[i].0 == id {
        Some(choose|i: int| 0 <= i < entries.len() && entries[i].0 == id)
    } else {
        None
    }
}

pub open spec fn other_actor<F>(id: usize) -> spec_fn((usize, DebugEntry<F>)) -> bool {
    |entry: (usize, DebugEntry<F>)| entry.0 != id
}

impl<F> DebugRegistry<F> {
    pub closed spec fn listed(&self) -> Seq<(usize, DebugEntry<F>)> {
        self.entries@
    }

    /// No id listed twice.
    pub closed spec fn wf(&self) -> bool {
        forall|i: int, j: int|
            0 <= i < j < self.entries.len() ==> #[trigger] self.entries@[i].0 != #[trigger] self.entries@[j].0
    }

    /// Nothing listed.
    pub fn new() -> (r: DebugRegistry<F>)
        ensures
            r.wf(),
            r@.len() == 0,
    {
        DebugRegistry { entries: Vec::new() }
    }

    fn find(&self, id: usize) -> (r: Option<usize>)
        requires
            self.wf(),
        ensures
            match r {
                Some(k) => listed_at(self@, id) == Some(k as int) && k < self@.len(),
                None => listed_at(self@, id) is None,
            },
    {
        let mut k: usize = 0;
        while k < self.entries.len()
            invariant
                self.wf(),
                k <= self.entries.len(),
                forall|j: int| 0 <= j < k ==> self.entries@[j].0 != id,
            decreases self.entries.len() - k,
        {
            if self.entries[k].0 == id {
                proof {
                    let w = choose|i: int| 0 <= i < self.entries@.len() && self.entries@[i].0 == id;
                    if w < k {
                    } else if w > k {
                        assert(self.entries@[k as int].0 != self.entries@[w].0);
                    }
                }
                return Some(k);
            }
            k = k + 1;
        }
        None
    }

    /// Lists the actor `id`, in place of whatever was listed under it.
    pub fn register_owned(&mut self, id: usize, entry: DebugEntry<F>)
        requires
            old(self).wf(),
        ensures
            final(self).wf(),
            final(self)@ == match listed_at(old(self)@, id) {
                Some(i) => old(self)@.update(i, (id, entry)),
                None => old(self)@.push((id, entry)),
            },
    {
        match self.find(id) {
            Some(k) => {
                self.entries.set(k, (id, entry));
                proof {
                    assert forall|i: int, j: int| 0 <= i < j < self.entries.len() implies #[trigger] self.entries@[i].0
                        != #[trigger] self.entries@[j].0 by {
                        assert(old(self).entries@[i].0 != old(self).entries@[j].0);
                    }
                }
            },
            None => {
                self.entries.push((id, entry));
                proof {
                    assert forall|i: int, j: int| 0 <= i < j < self.entries.len() implies #[trigger] self.entries@[i].0
                        != #[trigger] self.entries@[j].0 by {
                        if j < old(self).entries.len() {
                            assert(old(self).entries@[i].0 != old(self).entries@[j].0);
                        } else {
                            assert(old(self).entries@[i].0 != id);
                        }
                    }
                }
            },
        }
    }

    /// Lists the actor `id` with no owner recorded.
    pub fn register(&mut self, id: usize, kind_name: &'static str, shape: Shape, snapshot: F)
        requires
            old(self).wf(),
        ensures
            final(self).wf(),
            ({
                let entry = DebugEntry {
                    kind_name,
                    shape,
                    owner: Owner { scope: None, feature: None, drives: None },
                    snapshot,
                };
                final(self)@ == match listed_at(old(self)@, id) {
                    Some(i) => old(self)@.update(i, (id, entry)),
                    None => old(self)@.push((id, entry)),
                }
            }),
    {
        let owner = Owner { scope: None, feature: None, drives: None };
        self.register_owned(id, DebugEntry { kind_name, shape, owner, snapshot });
    }

    /// Takes the actor `id` off the list, and only it.
    pub fn unregister(&mut self, id: usize)
        requires
            old(self).wf(),
        ensures
            final(self).wf(),
            final(self)@ == match listed_at(old(self)@, id) {
                Some(i) => old(self)@.remove(i),
                None => old(self)@,
            },
    {
        if let Some(k) = self.find(id) {
            self.entries.remove(k);
            proof {
                assert forall|i: int, j: int| 0 <= i < j < self.entries.len() implies #[trigger] self.entries@[i].0
                    != #[trigger] self.entries@[j].0 by {
                    let oi = if i < k { i } else { i + 1 };
                    let oj = if j < k { j } else { j + 1 };
                    assert(old(self).entries@[oi].0 != old(self).entries@[oj].0);
                }
            }
        }
    }

    /// Takes every actor off the list.
    pub fn clear(&mut self)
        ensures
            final(self).wf(),
            final(self)@.len() == 0,
    {
        self.entries.clear();
    }
}

impl<F: Fn() -> String> DebugRegistry<F> {
    /// Every listed actor as devtools show it, its state read now.
    pub fn snapshots(&self) -> (r: Vec<ActorSnapshot>)
        requires
            forall|i: int| 0 <= i < self@.len() ==> (#[trigger] self@[i]).1.snapshot.requires(()),
        ensures
            r@.len() == self@.len(),
            forall|i: int|
                0 <= i < r@.len() ==> {
                    &&& (#[trigger] r@[i]).id == self@[i].0
                    &&& r@[i].kind_name == self@[i].1.kind_name
                    &&& r@[i].shape == self@[i].1.shape
                    &&& r@[i].owner == self@[i].1.owner
                    &&& self@[i].1.snapshot.ensures((), r@[i].state)
                },
    {
        let mut out: Vec<ActorSnapshot> = Vec::new();
        let mut k: usize = 0;
        while k < self.entries.len()
            invariant
                k <= self.entries.len(),
                out@.len() == k,
                forall|i: int| 0 <= i < self@.len() ==> (#[trigger] self@[i]).1.snapshot.requires(()),
                forall|i: int|
                    0 <= i < k ==> {
                        &&& (#[trigger] out@[i]).id == self@[i].0
                        &&& out@[i].kind_name == self@[i].1.kind_name
                        &&& out@[i].shape == self@[i].1.shape
                        &&& out@[i].owner == self@[i].1.owner
                        &&& self@[i].1.snapshot.ensures((), out@[i].state)
                    },
            decreases self.entries.len() - k,
        {
            let (id, entry) = &self.entries[k];
            proof {
                assert(self@[k as int].1.snapshot.requires(()));
            }
            let state = (entry.snapshot)();
            out.push(ActorSnapshot {
                id: *id,
                kind_name: entry.kind_name,
                state,
                shape: entry.shape,
                owner: entry.owner,
            });
            k = k + 1;
        }
        out
    }
}

/// An actor's mailbox: what was sent to it and not yet handled, first in,
/// first out, and whether a drain is under way.
///
/// A send made while the actor is being handled a message - from inside a
/// handler - only queues: the drain under way hands it over after the
/// message in hand, so handlers never nest.
pub struct Mailbox<E> {
    queue: VecDeque<E>,
    processing: bool,
}

pub struct MailboxView<E> {
    pub queue: Seq<E>,
    pub processing: bool,
}

impl<E> View for Mailbox<E> {
    type V = MailboxView<E>;

    open spec fn view(&self) -> MailboxView<E> {
        self.held()
    }
}

impl<E> Mailbox<E> {
    pub closed spec fn held(&self) -> MailboxView<E> {
        MailboxView { queue: self.queue@, processing: self.processing }
    }

    /// Nothing queued, no drain under way.
    pub fn new() -> (r: Mailbox<E>)
        ensures
            r@.queue.len() == 0,
            !r@.processing,
    {
        Mailbox { queue: VecDeque::new(), processing: false }
    }

    /// Queues `envelope` behind what is there. `true` when the caller is to
    /// drain now - nothing was draining, and the mailbox counts as draining
    /// from here on; `false` when a drain under way will hand it over.
    pub fn post(&mut self, envelope: E) -> (drain_now: bool)
        ensures
            final(self)@.queue == old(self)@.queue.push(envelope),
            drain_now == !old(self)@.processing,
            final(self)@.processing,
    {
        self.queue.push_back(envelope);
        if self.processing {
            false
        } else {
            self.processing = true;
            true
        }
    }

    /// The next envelope to handle, the oldest; `None` when the queue is
    /// empty, and the drain is over.
    pub fn next(&mut self) -> (r: Option<E>)
        ensures
            old(self)@.queue.len() > 0 ==> r == Some(old(self)@.queue[0]) && final(self)@ == (MailboxView {
                queue: old(self)@.queue.drop_first(),
                ..old(self)@
            }),
            old(self)@.queue.len() == 0 ==> r is None && final(self)@.queue.len() == 0 && !final(self)@.processing,
    {
        match self.queue.pop_front() {
            Some(envelope) => {
                proof {
                    assert(self@.queue =~= old(self)@.queue.drop_first());
                }
                Some(envelope)
            },
            None => {
                self.processing = false;
                None
            },
        }
    }

    /// Whether a drain is under way.
    pub fn is_processing(&self) -> (r: bool)
        ensures
            r == self@.processing,
    {
        self.processing
    }

    /// How many envelopes wait.
    pub fn len(&self) -> (r: usize)
        ensures
            r == self@.queue.len(),
    {
        self.queue.len()
    }
}

/// Messages are handled in the order they were sent, a send from inside a
/// handler included: one posted while a drain is under way comes out of the
/// same drain, after everything queued before it.
pub proof fn law_handled_in_the_order_sent<E>(queue: Seq<E>, envelope: E, handled: int)
    requires
        0 <= handled <= queue.len(),
    ensures
        queue.push(envelope).skip(handled)[queue.len() - handled] == envelope,
        forall|i: int| 0 <= i < queue.len() - handled ==> queue.push(envelope).skip(handled)[i] == queue[handled + i],
{
}

/// Declares which messages a handler may send. An actor that declares no
/// graph gets [`Open`], which allows everything.
pub trait Allows<M, Out> {}

/// The default: no graph declared, nothing restricted.
pub struct Open;

impl<M, Out> Allows<M, Out> for Open {}

/// A signal an actor may raise: every message is one of its own.
pub trait AllowedSignal<M: 'static> {}

impl<M: 'static> AllowedSignal<M> for M {}

/// A message on its way to an actor, with the send that queued it.
pub struct MessageEnvelope<M: 'static> {
    message: Option<M>,
    /// The send that queued this message.
    cause: Cause,
}

impl<M: 'static> MessageEnvelope<M> {
    pub closed spec fn holds(&self) -> Option<M> {
        self.message
    }

    pub closed spec fn queued_by(&self) -> Cause {
        self.cause
    }

    /// The send that queued this message.
    pub fn cause(&self) -> (r: Cause)
        ensures
            r == self.queued_by(),
    {
        self.cause
    }

    pub fn new(message: M, cause: Cause) -> (r: MessageEnvelope<M>)
        ensures
            r.holds() == Some(message),
            r.queued_by() == cause,
    {
        MessageEnvelope { message: Some(message), cause }
    }

    /// The message, for the one delivery it gets: an envelope opened twice
    /// is empty the second time.
    pub fn open(&mut self) -> (r: Option<M>)
        ensures
            r == old(self).holds(),
            final(self).holds() is None,
            final(self).queued_by() == old(self).queued_by(),
    {
        self.message.take()
    }
}

/// A feature's UI contract: the messages the view may emit.
pub trait ActionsGroup: 'static {
    type Dispatch: 'static;
    /// Cons-list of members: `(A, (B, ()))`.
    type Members: 'static;
}

/// Proof that a message belongs to `G`.
pub trait InGroup<G: ActionsGroup>: 'static {}

/// What an emit was answered with.
pub enum Dispatched<'a, S, M> {
    /// Hand `M` to this sender.
    To(&'a S, M),
    /// Nothing is wired for it: the caller warns rather than failing
    /// silently.
    Nobody(M),
}

/// Routes each message of `G` to whichever sender was wired for its type.
pub struct GroupDispatch<G, S> {
    senders: Vec<(TypeId, S)>,
    group: PhantomData<G>,
}

impl<G, S> View for GroupDispatch<G, S> {
    type V = Seq<(TypeId, S)>;

    open spec fn view(&self) -> Seq<(TypeId, S)> {
        self.wired_senders()
    }
}

/// Where `key` is wired among `senders`, if it is.
pub open spec fn wired_at<S>(senders: Seq<(TypeId, S)>, key: TypeId) -> Option<int> {
    if exists|i: int| 0 <= i < senders.len() && senders[i].0 == key {
        Some(choose|i: int| 0 <= i < senders.len() && senders[i].0 == key)
    } else {
        None
    }
}

impl<G, S> GroupDispatch<G, S> {
    pub closed spec fn wired_senders(&self) -> Seq<(TypeId, S)> {
        self.senders@
    }
}

impl<G: ActionsGroup, S> GroupDispatch<G, S> {
    /// No key is wired twice.
    pub closed spec fn wf(&self) -> bool {
        forall|i: int, j: int| 0 <= i < j < self.senders.len() ==> #[trigger] self.senders@[i].0 != #[trigger] self.senders@[j].0
    }

    /// Nothing wired.
    pub fn new() -> (r: GroupDispatch<G, S>)
        ensures
            r.wf(),
            r@.len() == 0,
    {
        GroupDispatch { senders: Vec::new(), group: PhantomData }
    }

    fn find(&self, key: &TypeId) -> (r: Option<usize>)
        requires
            self.wf(),
        ensures
            match r {
                Some(i) => i < self@.len() && self@[i as int].0 == *key && wired_at(self@, *key) == Some(i as int),
                None => wired_at(self@, *key) is None,
            },
    {
        let mut k: usize = 0;
        while k < self.senders.len()
            invariant
                self.wf(),
                k <= self.senders.len(),
                forall|i: int| 0 <= i < k ==> self.senders@[i].0 != *key,
            decreases self.senders.len() - k,
        {
            if same_key(&self.senders[k].0, key) {
                proof {
                    assert forall|i: int| 0 <= i < self@.len() && self@[i].0 == *key implies i == k by {
                        if i != k {
                            if i < k {
                            } else {
                                assert(self.senders@[k as int].0 != self.senders@[i].0);
                            }
                        }
                    }
                }
                return Some(k);
            }
            k = k + 1;
        }
        None
    }

    /// Wires `key` to `sender`, in place of whatever it was wired to.
    pub fn wire(&mut self, key: TypeId, sender: S)
        requires
            old(self).wf(),
        ensures
            final(self).wf(),
            final(self)@ == match wired_at(old(self)@, key) {
                Some(i) => old(self)@.update(i, (key, sender)),
                None => old(self)@.push((key, sender)),
            },
    {
        match self.find(&key) {
            Some(k) => {
                self.senders.set(k, (key, sender));
            },
            None => {
                self.senders.push((key, sender));
            },
        }
    }

    /// The sender wired for `key`, if there is one.
    pub fn sender_for(&self, key: &TypeId) -> (r: Option<&S>)
        requires
            self.wf(),
        ensures
            match wired_at(self@, *key) {
                Some(i) => r == Some(&self@[i].1),
                None => r is None,
            },
    {
        match self.find(key) {
            Some(k) => Some(&self.senders[k].1),
            None => None,
        }
    }

    /// Whether something is wired for `key`.
    pub fn is_wired_for(&self, key: &TypeId) -> (r: bool)
        requires
            self.wf(),
        ensures
            r == wired_at(self@, *key) is Some,
    {
        self.find(key).is_some()
    }

    /// Wires `M` to `sender`, in place of whatever it was wired to.
    ///
    /// Which key `M` is filed under is left unsaid: it is `TypeId::of::<M>()`,
    /// whose value std does not promise and which a named result cannot carry,
    /// being generic. What is stated holds of that key; a caller holding the
    /// key has the exact contract of [`GroupDispatch::wire`].
    pub fn register<M: InGroup<G>>(&mut self, sender: S)
        requires
            old(self).wf(),
        ensures
            final(self).wf(),
            exists|key: TypeId|
                final(self)@ == match #[trigger] wired_at(old(self)@, key) {
                    Some(i) => old(self)@.update(i, (key, sender)),
                    None => old(self)@.push((key, sender)),
                },
    {
        let key = key_of::<M>();
        self.wire(key, sender);
    }

    /// Whom `msg` goes to: the sender wired for `M`, or nobody.
    ///
    /// Which key `M` is filed under is left unsaid: it is `TypeId::of::<M>()`,
    /// whose value std does not promise and which a named result cannot carry,
    /// being generic. What is stated holds of that key; a caller holding the
    /// key has the exact contract of [`GroupDispatch::sender_for`].
    pub fn emit<M: InGroup<G>>(&self, msg: M) -> (r: Dispatched<'_, S, M>)
        requires
            self.wf(),
        ensures
            exists|key: TypeId|
                match #[trigger] wired_at(self@, key) {
                    Some(i) => r == Dispatched::To(&self@[i].1, msg),
                    None => r == Dispatched::<'_, S, M>::Nobody(msg),
                },
    {
        let key = key_of::<M>();
        match self.find(&key) {
            Some(k) => Dispatched::To(&self.senders[k].1, msg),
            None => Dispatched::Nobody(msg),
        }
    }

    /// Whether something is wired for `M`.
    ///
    /// Which key `M` is filed under is left unsaid: it is `TypeId::of::<M>()`,
    /// whose value std does not promise and which a named result cannot carry,
    /// being generic. What is stated holds of that key; a caller holding the
    /// key has the exact contract of [`GroupDispatch::is_wired_for`].
    pub fn is_wired<M: InGroup<G>>(&self) -> (r: bool)
        requires
            self.wf(),
        ensures
            exists|key: TypeId| r == #[trigger] wired_at(self@, key) is Some,
    {
        let key = key_of::<M>();
        self.is_wired_for(&key)
    }
}

} // verus!
