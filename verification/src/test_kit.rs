//! What a test needs to watch an application: values that become true once
//! the UI has settled, and spies on ports.

use vstd::prelude::*;

verus! {

/// A value that is only true once the UI has processed what produced it.
#[must_use]
pub struct Interaction<T> {
    value: T,
}

/// Runs queued UI work until nothing is left.
pub trait Stabilizer {
    /// Whether no UI work is left queued.
    spec fn settled(&self) -> bool;

    /// Runs the queued UI work until none is left.
    fn stabilize(&mut self)
        ensures
            final(self).settled(),
    ;
}

impl<T> Interaction<T> {
    pub closed spec fn holds(&self) -> T {
        self.value
    }

    pub fn new(value: T) -> (r: Interaction<T>)
        ensures
            r.holds() == value,
    {
        Interaction { value }
    }

    /// Lets `harness` run the queued work, then hands the value back: the
    /// harness is settled when the value comes.
    pub fn stabilize(self, harness: &mut impl Stabilizer) -> (r: T)
        ensures
            r == self.holds(),
            final(harness).settled(),
    {
        harness.stabilize();
        self.value
    }

    /// For synchronous paths, where the queue is already drained by the time
    /// the value is made.
    pub fn now(self) -> (r: T)
        ensures
            r == self.holds(),
    {
        self.value
    }
}

/// Records what an actor pushes through a port.
pub struct PortSpy<M> {
    sent: Vec<M>,
}

impl<M> View for PortSpy<M> {
    type V = Seq<M>;

    open spec fn view(&self) -> Seq<M> {
        self.recorded()
    }
}

impl<M> PortSpy<M> {
    pub closed spec fn recorded(&self) -> Seq<M> {
        self.sent@
    }

    /// Nothing recorded yet.
    pub fn new() -> (r: PortSpy<M>)
        ensures
            r@.len() == 0,
    {
        PortSpy { sent: Vec::new() }
    }

    /// What the port does with a message: keeps it, after the ones before.
    pub fn record(&mut self, message: M)
        ensures
            final(self)@ == old(self)@.push(message),
    {
        self.sent.push(message);
    }

    pub fn count(&self) -> (r: usize)
        ensures
            r == self@.len(),
    {
        self.sent.len()
    }

    /// Drains everything recorded so far.
    pub fn take(&mut self) -> (r: Interaction<Vec<M>>)
        ensures
            r.holds()@ == old(self)@,
            final(self)@.len() == 0,
    {
        let mut taken: Vec<M> = Vec::new();
        std::mem::swap(&mut taken, &mut self.sent);
        Interaction::new(taken)
    }

    /// The last message recorded, which is no longer kept.
    pub fn last(&mut self) -> (r: Interaction<Option<M>>)
        ensures
            old(self)@.len() == 0 ==> r.holds() is None && final(self)@ == old(self)@,
            old(self)@.len() > 0 ==> r.holds() == Some(old(self)@.last()) && final(self)@ == old(self)@.drop_last(),
    {
        Interaction::new(self.sent.pop())
    }
}

} // verus!
