//! Requests that await a reply: the chain of requests whose replies are
//! awaited above a call, which a new request may not close into a cycle,
//! and the requests still waiting for their reply, by correlation id.

use core::any::TypeId;

use vstd::prelude::*;

use crate::keys::same_key;

verus! {

/// What becomes of a request made under a chain of awaited requests.
pub enum Requesting {
    /// The request is awaited already, `depth` requests up the chain: its
    /// reply can never come, since each hop waits on the next.
    Cycle { depth: usize },
    /// The request goes out, and whatever it asks in turn runs under
    /// `chain`: the one it was made under, with it at the end.
    Go { chain: Vec<TypeId> },
}

/// Where a request of type `request`, made under `chain`, stands: a cycle
/// when `chain` holds it already, else the chain to run its handler under.
pub fn request_chain(chain: &Vec<TypeId>, request: TypeId) -> (r: Requesting)
    ensures
        chain@.contains(request) <==> r is Cycle,
        r matches Requesting::Cycle { depth } ==> depth == chain.len(),
        r matches Requesting::Go { chain: next } ==> next@ == chain@.push(request),
{
    let mut next: Vec<TypeId> = Vec::new();
    let mut k: usize = 0;
    while k < chain.len()
        invariant
            k <= chain.len(),
            next@ == chain@.take(k as int),
            forall|j: int| 0 <= j < k ==> chain@[j] != request,
        decreases chain.len() - k,
    {
        let key = chain[k];
        if same_key(&key, &request) {
            proof {
                assert(chain@[k as int] == request);
            }
            return Requesting::Cycle { depth: chain.len() };
        }
        next.push(key);
        proof {
            assert(next@ =~= chain@.take(k + 1));
        }
        k = k + 1;
    }
    next.push(request);
    proof {
        assert(chain@.take(k as int) =~= chain@);
        assert(!chain@.contains(request));
    }
    Requesting::Go { chain: next }
}

/// The requests waiting for their reply: each correlation id with what
/// hands the reply over.
pub struct Pending<S> {
    waiting: Vec<(u128, S)>,
}

/// Where `id` waits in `waiting`, if it does.
pub open spec fn waiting_at<S>(waiting: Seq<(u128, S)>, id: u128) -> Option<int> {
    if exists|i: int| 0 <= i < waiting.len() && waiting[i].0 == id {
        Some(choose|i: int| 0 <= i < waiting.len() && waiting[i].0 == id)
    } else {
        None
    }
}

impl<S> View for Pending<S> {
    type V = Seq<(u128, S)>;

    open spec fn view(&self) -> Seq<(u128, S)> {
        self.entries()
    }
}

impl<S> Pending<S> {
    pub closed spec fn entries(&self) -> Seq<(u128, S)> {
        self.waiting@
    }

    /// No two waiting requests share an id.
    pub closed spec fn wf(&self) -> bool {
        forall|i: int, j: int| 0 <= i < j < self.waiting.len() ==> #[trigger] self.waiting@[i].0 != #[trigger] self.waiting@[j].0
    }

    /// Nothing waiting.
    pub fn new() -> (r: Pending<S>)
        ensures
            r.wf(),
            r@.len() == 0,
    {
        Pending { waiting: Vec::new() }
    }

    fn find(&self, id: u128) -> (r: Option<usize>)
        requires
            self.wf(),
        ensures
            match r {
                Some(k) => k < self@.len() && self@[k as int].0 == id && waiting_at(self@, id) == Some(k as int),
                None => waiting_at(self@, id) is None,
            },
    {
        let mut k: usize = 0;
        while k < self.waiting.len()
            invariant
                self.wf(),
                k <= self.waiting.len(),
                forall|j: int| 0 <= j < k ==> self.waiting@[j].0 != id,
            decreases self.waiting.len() - k,
        {
            if self.waiting[k].0 == id {
                proof {
                    assert(self@[k as int].0 == id);
                    let i = choose|i: int| 0 <= i < self@.len() && self@[i].0 == id;
                    if i != k {
                        if i < k {
                        } else {
                            assert(self.waiting@[k as int].0 != self.waiting@[i].0);
                        }
                    }
                }
                return Some(k);
            }
            k = k + 1;
        }
        None
    }

    /// Files a request that waits for its reply under `id`, in place of one
    /// that waited under it already.
    pub fn wait(&mut self, id: u128, reply_to: S)
        requires
            old(self).wf(),
        ensures
            final(self).wf(),
            final(self)@ == match waiting_at(old(self)@, id) {
                Some(i) => old(self)@.update(i, (id, reply_to)),
                None => old(self)@.push((id, reply_to)),
            },
    {
        match self.find(id) {
            Some(k) => {
                self.waiting.set(k, (id, reply_to));
            },
            None => {
                self.waiting.push((id, reply_to));
            },
        }
    }

    /// Takes out what the request `id` waits with, for its reply or because
    /// it gave up waiting: `None` when nothing waits under `id`. Every other
    /// request keeps waiting.
    pub fn take(&mut self, id: u128) -> (r: Option<S>)
        requires
            old(self).wf(),
        ensures
            final(self).wf(),
            match waiting_at(old(self)@, id) {
                Some(i) => r == Some(old(self)@[i].1) && final(self)@ == old(self)@.remove(i),
                None => r is None && final(self)@ == old(self)@,
            },
    {
        match self.find(id) {
            Some(k) => {
                let (_, reply_to) = self.waiting.remove(k);
                Some(reply_to)
            },
            None => None,
        }
    }
}

/// A reply reaches the request it answers once: after it is taken, nothing
/// waits under that id any more.
pub proof fn law_a_reply_is_taken_once<S>(before: Seq<(u128, S)>, id: u128, i: int)
    requires
        0 <= i < before.len(),
        before[i].0 == id,
        forall|a: int, b: int| 0 <= a < b < before.len() ==> #[trigger] before[a].0 != #[trigger] before[b].0,
    ensures
        waiting_at(before.remove(i), id) is None,
{
    let after = before.remove(i);
    assert forall|j: int| 0 <= j < after.len() implies after[j].0 != id by {
        if j < i {
            assert(before[j].0 != before[i].0);
        } else {
            assert(before[i].0 != before[j + 1].0);
        }
    }
}

} // verus!
