//! The language the application speaks, and who is told when it changes.

use vstd::prelude::*;

verus! {

/// A set of localised strings that can be identified by, and rebuilt from, a
/// BCP-47 language tag.
///
/// Code that has to handle languages without knowing the concrete resolver -
/// persisting the choice, offering a language picker - goes through this.
pub trait Localization: Clone + Default + Sized + 'static {
    /// Returns `None` if the tag is malformed.
    fn for_tag(tag: &str) -> Option<Self>;

    fn tag(&self) -> String;
}

/// Ends a subscription when it is handed back to the [`L10n`] it came from.
#[must_use]
pub struct Subscription {
    id: u64,
}

impl View for Subscription {
    type V = u64;

    open spec fn view(&self) -> u64 {
        self.number()
    }
}

impl Subscription {
    pub closed spec fn number(&self) -> u64 {
        self.id
    }
}

/// The strings in use, and who is told each time new ones are loaded.
pub struct L10n<S, C> {
    current: S,
    next: u64,
    listeners: Vec<(u64, C)>,
}

/// What an [`L10n`] holds, as its contracts speak of it.
pub struct L10nView<S, C> {
    pub current: S,
    pub listeners: Seq<(u64, C)>,
}

impl<S, C> View for L10n<S, C> {
    type V = L10nView<S, C>;

    open spec fn view(&self) -> L10nView<S, C> {
        self.held()
    }
}

impl<S, C> L10n<S, C> {
    pub closed spec fn held(&self) -> L10nView<S, C> {
        L10nView { current: self.current, listeners: self.listeners@ }
    }
}

/// `listener` was handed a copy of `strings`, and returned.
pub open spec fn told<S: Clone, C: Fn(S)>(listener: C, strings: S) -> bool {
    exists|s: S| cloned(strings, s) && #[trigger] listener.ensures((s,), ())
}

impl<S: Clone, C: Fn(S)> L10n<S, C> {
    /// Every subscription has a number of its own, below the next one.
    pub closed spec fn wf(&self) -> bool {
        &&& forall|i: int| 0 <= i < self.listeners.len() ==> #[trigger] self.listeners@[i].0 < self.next
        &&& forall|i: int, j: int|
            0 <= i < j < self.listeners.len() ==> #[trigger] self.listeners@[i].0 != #[trigger] self.listeners@[j].0
    }

    pub closed spec fn has_room(&self) -> bool {
        self.next < u64::MAX
    }

    /// Nobody listening, and `strings` in use.
    pub fn new(strings: S) -> (r: Self)
        ensures
            r.wf(),
            r.has_room(),
            r@.current == strings,
            r@.listeners.len() == 0,
    {
        L10n { current: strings, next: 0, listeners: Vec::new() }
    }

    /// Puts `strings` in use, telling no one yet: the listeners are told
    /// by [`L10n::tell`], at the drain that follows the turn this load came
    /// in, once, with whatever strings are in use by then.
    pub fn put(&mut self, strings: S)
        requires
            old(self).wf(),
        ensures
            final(self).wf(),
            final(self).has_room() == old(self).has_room(),
            final(self)@.current == strings,
            final(self)@.listeners == old(self)@.listeners,
    {
        self.current = strings;
    }

    /// Hands each listener a copy of the strings in use, in the order they
    /// subscribed.
    pub fn tell(&self)
        requires
            self.wf(),
            forall|i: int, s: S| 0 <= i < self@.listeners.len() ==> #[trigger] self@.listeners[i].1.requires((s,)),
        ensures
            forall|i: int| 0 <= i < self@.listeners.len() ==> #[trigger] told(self@.listeners[i].1, self@.current),
    {
        let mut k: usize = 0;
        while k < self.listeners.len()
            invariant
                forall|i: int, s: S| 0 <= i < self@.listeners.len() ==> #[trigger] self@.listeners[i].1.requires((s,)),
                k <= self.listeners.len(),
                forall|i: int| 0 <= i < k ==> #[trigger] told(self@.listeners[i].1, self@.current),
            decreases self.listeners.len() - k,
        {
            let copy = self.current.clone();
            let listener = &self.listeners[k].1;
            proof {
                assert(self@.listeners[k as int].1.requires((copy,)));
            }
            let ghost handed = copy;
            listener(copy);
            proof {
                assert(cloned(self@.current, handed) && self@.listeners[k as int].1.ensures((handed,), ()));
                assert(told(self@.listeners[k as int].1, self@.current));
            }
            k = k + 1;
        }
    }

    /// Puts `strings` in use and tells each listener at once, in the order
    /// they subscribed: a load with no turn under way.
    pub fn load(&mut self, strings: S)
        requires
            old(self).wf(),
            forall|i: int, s: S| 0 <= i < old(self)@.listeners.len() ==> #[trigger] old(self)@.listeners[i].1.requires((s,)),
        ensures
            final(self).wf(),
            final(self).has_room() == old(self).has_room(),
            final(self)@.current == strings,
            final(self)@.listeners == old(self)@.listeners,
            forall|i: int|
                0 <= i < old(self)@.listeners.len() ==> #[trigger] told(old(self)@.listeners[i].1, strings),
    {
        self.put(strings);
        self.tell();
    }

    /// A copy of the strings in use.
    pub fn current(&self) -> (r: S)
        ensures
            cloned(self@.current, r),
    {
        self.current.clone()
    }

    /// Whether another listener can subscribe: numbers are not reused, and
    /// they run out after `u64::MAX` subscriptions.
    pub fn can_subscribe(&self) -> (r: bool)
        ensures
            r == self.has_room(),
    {
        self.next < u64::MAX
    }

    /// Tells `callback` about every load from now on, until the subscription
    /// is handed back.
    pub fn subscribe(&mut self, callback: C) -> (r: Subscription)
        requires
            old(self).wf(),
            old(self).has_room(),
        ensures
            final(self).wf(),
            final(self)@.current == old(self)@.current,
            final(self)@.listeners == old(self)@.listeners.push((r@, callback)),
            forall|i: int| 0 <= i < old(self)@.listeners.len() ==> old(self)@.listeners[i].0 != r@,
    {
        let id = self.next;
        self.next = self.next + 1;
        self.listeners.push((id, callback));
        Subscription { id }
    }

    /// Stops telling whoever `subscription` was for; everyone else is still
    /// told, in the same order.
    pub fn unsubscribe(&mut self, subscription: Subscription)
        requires
            old(self).wf(),
        ensures
            final(self).wf(),
            final(self).has_room() == old(self).has_room(),
            final(self)@.current == old(self)@.current,
            final(self)@.listeners == old(self)@.listeners.filter(not_numbered::<C>(subscription@)),
    {
        let id = subscription.id;
        let mut rest: Vec<(u64, C)> = Vec::new();
        std::mem::swap(&mut rest, &mut self.listeners);
        let ghost all = rest@;
        let mut kept: Vec<(u64, C)> = Vec::new();
        let mut k: usize = 0;
        while rest.len() > 0
            invariant
                k <= all.len(),
                all.len() == old(self).listeners.len(),
                rest@ == all.skip(k as int),
                kept@ == all.take(k as int).filter(not_numbered::<C>(id)),
                all == old(self)@.listeners,
                self.next == old(self).next,
                self.current == old(self).current,
                forall|i: int| 0 <= i < all.len() ==> #[trigger] all[i].0 < self.next,
                forall|i: int, j: int| 0 <= i < j < all.len() ==> #[trigger] all[i].0 != #[trigger] all[j].0,
            decreases rest.len(),
        {
            let entry = rest.remove(0);
            proof {
                assert(entry == all[k as int]);
                let taken = all.take(k + 1);
                assert(taken.drop_last() =~= all.take(k as int));
                assert(taken.last() == all[k as int]);
                reveal(Seq::filter);
                assert(rest@ =~= all.skip(k + 1));
            }
            if entry.0 != id {
                kept.push(entry);
            }
            k = k + 1;
        }
        proof {
            assert(all.take(k as int) =~= all);
        }
        self.listeners = kept;
        proof {
            lemma_kept_apart(all, not_numbered::<C>(id));
        }
    }
}

/// Every listener but the one numbered `id`.
pub open spec fn not_numbered<C>(id: u64) -> spec_fn((u64, C)) -> bool {
    |entry: (u64, C)| entry.0 != id
}

proof fn lemma_kept_apart<C>(all: Seq<(u64, C)>, f: spec_fn((u64, C)) -> bool)
    ensures
        forall|w: int| 0 <= w < all.filter(f).len() ==> exists|v: int| 0 <= v < all.len() && all[v] == #[trigger] all.filter(f)[w],
        (forall|a: int, b: int| 0 <= a < b < all.len() ==> #[trigger] all[a].0 != #[trigger] all[b].0) ==> forall|a: int, b: int|
            0 <= a < b < all.filter(f).len() ==> #[trigger] all.filter(f)[a].0 != #[trigger] all.filter(f)[b].0,
    decreases all.len(),
{
    reveal(Seq::filter);
    if all.len() > 0 {
        let rest = all.drop_last();
        lemma_kept_apart(rest, f);
        let kept = all.filter(f);
        assert forall|w: int| 0 <= w < kept.len() implies exists|v: int| 0 <= v < all.len() && all[v] == #[trigger] kept[w] by {
            if f(all.last()) && w == kept.len() - 1 {
                assert(all[all.len() - 1] == kept[w]);
            } else {
                assert(kept[w] == rest.filter(f)[w]);
                let v = choose|v: int| 0 <= v < rest.len() && rest[v] == rest.filter(f)[w];
                assert(all[v] == rest[v]);
            }
        }
        if forall|a: int, b: int| 0 <= a < b < all.len() ==> #[trigger] all[a].0 != #[trigger] all[b].0 {
            assert(forall|a: int, b: int| 0 <= a < b < rest.len() ==> #[trigger] rest[a].0 != #[trigger] rest[b].0) by {
                assert forall|a: int, b: int| 0 <= a < b < rest.len() implies #[trigger] rest[a].0 != #[trigger] rest[b].0 by {
                    assert(rest[a] == all[a] && rest[b] == all[b]);
                }
            }
            assert forall|a: int, b: int| 0 <= a < b < kept.len() implies #[trigger] kept[a].0 != #[trigger] kept[b].0 by {
                if f(all.last()) && b == kept.len() - 1 {
                    assert(kept[a] == rest.filter(f)[a]);
                    let v = choose|v: int| 0 <= v < rest.len() && rest[v] == rest.filter(f)[a];
                    assert(all[v] == rest[v]);
                    assert(kept[b] == all[all.len() - 1]);
                } else {
                    assert(kept[a] == rest.filter(f)[a]);
                    assert(kept[b] == rest.filter(f)[b]);
                }
            }
        }
    }
}

} // verus!
