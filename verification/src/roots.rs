//! Which roots are open.
//!
//! A *root* is one instance of an application's tree: its own feature host,
//! its own event bus, and - when there is routing - its own router and stack
//! of scopes. What is above it is the process: plugins, services, the global
//! scope, the global bus. The registry here is the process's list of them,
//! oldest first.

use vstd::prelude::*;

use crate::text::same_text;

verus! {

/// Names one root for as long as it is open.
///
/// Ids are never reused, so a stale one is a closed root rather than someone
/// else's - which is what a plugin remembering a window's size needs.
#[derive(Clone, Copy, PartialEq, Eq, PartialOrd, Ord, Hash, Debug, Structural)]
pub struct RootId(u64);

/// A root was opened.
#[derive(Clone, Copy, Debug)]
pub struct RootOpened(pub RootId);

/// A root was closed, and its scopes are gone with it.
#[derive(Clone, Copy, Debug)]
pub struct RootClosed(pub RootId);

/// One open root and what the shell called it.
struct Open {
    id: RootId,
    label: Option<String>,
}

pub open spec fn label_view(label: Option<String>) -> Option<Seq<char>> {
    match label {
        Some(name) => Some(name@),
        None => None,
    }
}

/// The registry as its laws speak of it: the open roots, oldest first, each
/// with its name, and every id ever handed out.
pub struct RootsView {
    pub open: Seq<(RootId, Option<Seq<char>>)>,
    pub issued: Set<RootId>,
}

/// The roots that are open.
pub struct Roots {
    next: u64,
    open: Vec<Open>,
}

/// A root's place in the registry, held by whoever owns the root; closing
/// the root is handing it back.
#[derive(Debug)]
pub struct Registration {
    id: RootId,
}

spec fn entry_view(entry: Open) -> (RootId, Option<Seq<char>>) {
    (entry.id, label_view(entry.label))
}

impl View for Roots {
    type V = RootsView;

    open spec fn view(&self) -> RootsView {
        self.registry_view()
    }
}

impl Roots {
    pub closed spec fn registry_view(&self) -> RootsView {
        RootsView {
            open: self.open@.map_values(|entry: Open| entry_view(entry)),
            issued: Set::new(|id: RootId| 1 <= id.0 < self.next),
        }
    }

    /// Every open root was handed out, no two open roots share an id, and ids
    /// are left to hand out.
    pub closed spec fn wf(&self) -> bool {
        &&& 1 <= self.next
        &&& forall|i: int| 0 <= i < self.open.len() ==> 1 <= #[trigger] self.open@[i].id.0 < self.next
        &&& forall|i: int, j: int|
            0 <= i < j < self.open.len() ==> #[trigger] self.open@[i].id.0 < #[trigger] self.open@[j].id.0
    }

    /// Whether another root can be given an id of its own.
    pub closed spec fn has_room(&self) -> bool {
        self.next < u64::MAX
    }

    proof fn lemma_view(&self)
        ensures
            self@.open.len() == self.open.len(),
            forall|i: int| 0 <= i < self.open.len() ==> #[trigger] self@.open[i] == entry_view(self.open@[i]),
            forall|id: RootId| #[trigger] self@.issued.contains(id) <==> 1 <= id.0 < self.next,
    {
    }

    /// No root open, none ever handed out.
    pub fn new() -> (r: Roots)
        ensures
            r.wf(),
            r.has_room(),
            r@.open.len() == 0,
            r@.issued.is_empty(),
    {
        let r = Roots { next: 1, open: Vec::new() };
        proof {
            assert(r@.issued =~= Set::<RootId>::empty());
        }
        r
    }

    /// Whether another root can be opened: ids are never reused, and they run
    /// out after `u64::MAX - 1` roots.
    pub fn can_open(&self) -> (r: bool)
        ensures
            r == self.has_room(),
    {
        self.next < u64::MAX
    }
}

/// The roots that are open, oldest first.
pub fn roots(registry: &Roots) -> (r: Vec<RootId>)
    ensures
        r@ == registry@.open.map_values(|entry: (RootId, Option<Seq<char>>)| entry.0),
{
    proof {
        registry.lemma_view();
    }
    let mut ids: Vec<RootId> = Vec::new();
    let mut k: usize = 0;
    while k < registry.open.len()
        invariant
            k <= registry.open.len(),
            registry@.open.len() == registry.open.len(),
            forall|i: int| 0 <= i < registry.open.len() ==> #[trigger] registry@.open[i] == entry_view(registry.open@[i]),
            ids@ == registry@.open.take(k as int).map_values(|entry: (RootId, Option<Seq<char>>)| entry.0),
        decreases registry.open.len() - k,
    {
        ids.push(registry.open[k].id);
        proof {
            assert(registry@.open.take(k + 1) =~= registry@.open.take(k as int).push(registry@.open[k as int]));
        }
        k = k + 1;
    }
    proof {
        assert(registry@.open.take(k as int) =~= registry@.open);
    }
    ids
}

/// Where `id` stands among the open roots, if it is open.
pub open spec fn place_of(open: Seq<(RootId, Option<Seq<char>>)>, id: RootId) -> Option<int> {
    if exists|i: int| 0 <= i < open.len() && open[i].0 == id {
        Some(choose|i: int| 0 <= i < open.len() && open[i].0 == id)
    } else {
        None
    }
}

fn find(registry: &Roots, id: RootId) -> (r: Option<usize>)
    requires
        registry.wf(),
    ensures
        match r {
            Some(i) => i < registry@.open.len() && registry@.open[i as int].0 == id
                && forall|j: int| 0 <= j < registry@.open.len() && registry@.open[j].0 == id ==> j == i,
            None => forall|j: int| 0 <= j < registry@.open.len() ==> registry@.open[j].0 != id,
        },
{
    proof {
        registry.lemma_view();
    }
    let mut k: usize = 0;
    while k < registry.open.len()
        invariant
            registry.wf(),
            k <= registry.open.len(),
            registry@.open.len() == registry.open.len(),
            forall|i: int| 0 <= i < registry.open.len() ==> #[trigger] registry@.open[i] == entry_view(registry.open@[i]),
            forall|j: int| 0 <= j < k ==> registry@.open[j].0 != id,
        decreases registry.open.len() - k,
    {
        if registry.open[k].id == id {
            proof {
                assert forall|j: int| 0 <= j < registry@.open.len() && registry@.open[j].0 == id implies j == k by {
                    if j < k {
                    } else if j > k {
                        assert(registry.open@[k as int].id.0 < registry.open@[j].id.0);
                    }
                }
            }
            return Some(k);
        }
        k = k + 1;
    }
    None
}

/// What this root is called, if the shell named it.
///
/// An id lasts one run; a name lasts as long as the application does.
pub fn label(registry: &Roots, id: RootId) -> (r: Option<String>)
    requires
        registry.wf(),
    ensures
        match place_of(registry@.open, id) {
            Some(i) => label_view(r) == registry@.open[i].1,
            None => r is None,
        },
{
    match find(registry, id) {
        Some(k) => {
            proof {
                registry.lemma_view();
            }
            match &registry.open[k].label {
                Some(name) => Some(name.clone()),
                None => None,
            }
        },
        None => None,
    }
}

/// The first of `open` named `label`, oldest first.
pub open spec fn first_labelled(open: Seq<(RootId, Option<Seq<char>>)>, label: Seq<char>) -> Option<int>
    decreases open.len(),
{
    if open.len() == 0 {
        None
    } else if open[0].1 == Some(label) {
        Some(0)
    } else {
        match first_labelled(open.drop_first(), label) {
            Some(i) => Some(i + 1),
            None => None,
        }
    }
}

fn named(label: &Option<String>, wanted: &str) -> (r: bool)
    ensures
        r == (label_view(*label) == Some(wanted@)),
{
    match label {
        Some(name) => same_text(name.as_str(), wanted),
        None => false,
    }
}

/// The open root called `label`, if there is one; the oldest, if several
/// are.
pub fn labelled(registry: &Roots, label: &str) -> (r: Option<RootId>)
    requires
        registry.wf(),
    ensures
        r == match first_labelled(registry@.open, label@) {
            Some(i) => Some(registry@.open[i].0),
            None => None,
        },
{
    proof {
        registry.lemma_view();
    }
    let ghost all = registry@.open;
    proof {
        assert(all.skip(0) =~= all);
    }
    let mut k: usize = 0;
    while k < registry.open.len()
        invariant
            all == registry@.open,
            k <= registry.open.len(),
            all.len() == registry.open.len(),
            forall|i: int| 0 <= i < registry.open.len() ==> #[trigger] all[i] == entry_view(registry.open@[i]),
            first_labelled(all, label@) == match first_labelled(all.skip(k as int), label@) {
                Some(i) => Some(i + k),
                None => None::<int>,
            },
        decreases registry.open.len() - k,
    {
        proof {
            assert(all.skip(k as int)[0] == all[k as int]);
            assert(all.skip(k as int).drop_first() =~= all.skip(k + 1));
        }
        if named(&registry.open[k].label, label) {
            return Some(registry.open[k].id);
        }
        k = k + 1;
    }
    None
}

/// `open` with the root `id` named `label`.
pub open spec fn relabelled(
    open: Seq<(RootId, Option<Seq<char>>)>,
    id: RootId,
    label: Seq<char>,
) -> Seq<(RootId, Option<Seq<char>>)> {
    match place_of(open, id) {
        Some(i) => open.update(i, (id, Some(label))),
        None => open,
    }
}

/// Names a root, for whoever opened it: `"main"`, `"settings"`, `"log"`.
/// A root that is not open is left alone.
pub fn set_label(registry: &mut Roots, id: RootId, label: &str)
    requires
        old(registry).wf(),
    ensures
        final(registry).wf(),
        final(registry).has_room() == old(registry).has_room(),
        final(registry)@.open == relabelled(old(registry)@.open, id, label@),
        final(registry)@.issued == old(registry)@.issued,
{
    if let Some(k) = find(registry, id) {
        proof {
            registry.lemma_view();
        }
        registry.open.set(k, Open { id, label: Some(String::from_str(label)) });
        proof {
            registry.lemma_view();
            assert(registry@.open =~= old(registry)@.open.update(k as int, (id, Some(label@))));
        }
    } else {
        proof {
            assert(place_of(old(registry)@.open, id) is None);
        }
    }
}

/// How many roots are open: `0` before the first one, and again after the
/// last one closes.
pub fn count(registry: &Roots) -> (r: usize)
    ensures
        r == registry@.open.len(),
{
    proof {
        registry.lemma_view();
    }
    registry.open.len()
}

/// Whether the root `id` is open.
pub fn is_open(registry: &Roots, id: RootId) -> (r: bool)
    requires
        registry.wf(),
    ensures
        r == exists|i: int| 0 <= i < registry@.open.len() && registry@.open[i].0 == id,
{
    find(registry, id).is_some()
}

/// `open` without the root `id`.
pub open spec fn without(open: Seq<(RootId, Option<Seq<char>>)>, id: RootId) -> Seq<(RootId, Option<Seq<char>>)> {
    open.filter(other_than(id))
}

/// Whether an entry is of a root other than `id`.
pub open spec fn other_than(id: RootId) -> spec_fn((RootId, Option<Seq<char>>)) -> bool {
    |entry: (RootId, Option<Seq<char>>)| entry.0 != id
}

impl Registration {
    /// Opens a root: a new id, never handed out before, at the end of the
    /// list, with no name yet.
    pub fn open(registry: &mut Roots) -> (r: Registration)
        requires
            old(registry).wf(),
            old(registry).has_room(),
        ensures
            final(registry).wf(),
            !old(registry)@.issued.contains(r@),
            final(registry)@.issued == old(registry)@.issued.insert(r@),
            final(registry)@.open == old(registry)@.open.push((r@, None)),
    {
        let id = RootId(registry.next);
        registry.open.push(Open { id, label: None });
        registry.next = registry.next + 1;
        proof {
            registry.lemma_view();
            assert(registry@.open =~= old(registry)@.open.push((id, None)));
            assert(registry@.issued =~= old(registry)@.issued.insert(id));
        }
        Registration { id }
    }

    pub fn id(&self) -> (r: RootId)
        ensures
            r == self@,
    {
        self.id
    }

    /// Closes the root: its entry goes, and only its entry.
    pub fn close(self, registry: &mut Roots) -> (r: RootClosed)
        requires
            old(registry).wf(),
        ensures
            final(registry).wf(),
            final(registry).has_room() == old(registry).has_room(),
            final(registry)@.issued == old(registry)@.issued,
            final(registry)@.open == without(old(registry)@.open, self@),
            r.0 == self@,
    {
        let id = self.id;
        proof {
            registry.lemma_view();
        }
        let mut kept: Vec<Open> = Vec::new();
        let ghost all = old(registry)@.open;
        let mut k: usize = 0;
        while k < registry.open.len()
            invariant
                registry == old(registry),
                registry.wf(),
                all == registry@.open,
                all.len() == registry.open.len(),
                forall|i: int| 0 <= i < registry.open.len() ==> #[trigger] all[i] == entry_view(registry.open@[i]),
                k <= registry.open.len(),
                kept@.map_values(|entry: Open| entry_view(entry)) == without(all.take(k as int), id),
                forall|i: int| 0 <= i < kept.len() ==> exists|j: int| 0 <= j < k && #[trigger] kept@[i] == registry.open@[j],
                forall|i: int, j: int| 0 <= i < j < kept.len() ==> #[trigger] kept@[i].id.0 < #[trigger] kept@[j].id.0,
                forall|i: int| 0 <= i < kept.len() ==> exists|j: int| 0 <= j < k && #[trigger] kept@[i].id == registry.open@[j].id,
            decreases registry.open.len() - k,
        {
            let entry_id = registry.open[k].id;
            let ghost before = kept@;
            if entry_id != id {
                let label = match &registry.open[k].label {
                    Some(name) => Some(name.clone()),
                    None => None,
                };
                kept.push(Open { id: entry_id, label });
            }
            proof {
                let taken = all.take(k + 1);
                assert(taken.drop_last() =~= all.take(k as int));
                assert(without(taken, id) =~= if entry_id != id {
                    without(all.take(k as int), id).push(all[k as int])
                } else {
                    without(all.take(k as int), id)
                }) by {
                    reveal(Seq::filter);
                    assert(taken.last() == all[k as int]);
                }
                assert(kept@.map_values(|entry: Open| entry_view(entry)) =~= without(taken, id));
            }
            k = k + 1;
        }
        let ghost old_open = registry.open@;
        registry.open = kept;
        proof {
            registry.lemma_view();
            assert(all.take(k as int) =~= all);
            assert(registry@.open =~= kept@.map_values(|entry: Open| entry_view(entry)));
        }
        RootClosed(id)
    }
}

proof fn lemma_without_absent(open: Seq<(RootId, Option<Seq<char>>)>, id: RootId)
    requires
        forall|k: int| 0 <= k < open.len() ==> #[trigger] open[k].0 != id,
    ensures
        without(open, id) == open,
    decreases open.len(),
{
    if open.len() > 0 {
        lemma_without_absent(open.drop_last(), id);
        assert(open =~= open.drop_last().push(open.last()));
        open.drop_last().lemma_filter_push(open.last(), other_than(id));
    } else {
        assert(without(open, id) =~= open) by {
            open.lemma_filter_len(other_than(id));
        }
    }
}

/// Closing a root takes out its entry and only its entry: the roots still
/// open are the ones before, in the same order, without the closed one, so
/// the count drops by exactly one. Closing a root that is not open changes
/// nothing.
pub proof fn law_close_takes_out_only_its_root(registry: Roots, id: RootId)
    requires
        registry.wf(),
    ensures
        forall|i: int| 0 <= i < registry@.open.len() && #[trigger] registry@.open[i].0 == id
            ==> without(registry@.open, id) == registry@.open.remove(i)
            && without(registry@.open, id).len() + 1 == registry@.open.len(),
        (forall|i: int| 0 <= i < registry@.open.len() ==> #[trigger] registry@.open[i].0 != id)
            ==> without(registry@.open, id) == registry@.open,
{
    registry.lemma_view();
    let open = registry@.open;
    let p = other_than(id);
    assert forall|i: int| 0 <= i < open.len() && #[trigger] open[i].0 == id implies without(open, id) == open.remove(
        i,
    ) && without(open, id).len() + 1 == open.len() by {
        let head = open.take(i);
        let tail = open.skip(i + 1);
        let one = seq![open[i]];
        assert(open =~= head + one + tail);
        assert(open.remove(i) =~= head + tail);
        assert forall|k: int| 0 <= k < head.len() implies #[trigger] head[k].0 != id by {
            assert(registry.open@[k].id.0 < registry.open@[i].id.0);
        }
        assert forall|k: int| 0 <= k < tail.len() implies #[trigger] tail[k].0 != id by {
            assert(registry.open@[i].id.0 < registry.open@[i + 1 + k].id.0);
        }
        lemma_without_absent(head, id);
        lemma_without_absent(tail, id);
        Seq::filter_distributes_over_add(head + one, tail, p);
        Seq::filter_distributes_over_add(head, one, p);
        assert(one =~= Seq::<(RootId, Option<Seq<char>>)>::empty().push(open[i]));
        Seq::<(RootId, Option<Seq<char>>)>::empty().lemma_filter_push(open[i], p);
        assert(Seq::<(RootId, Option<Seq<char>>)>::empty().filter(p) =~= Seq::empty()) by {
            Seq::<(RootId, Option<Seq<char>>)>::empty().lemma_filter_len(p);
        }
        assert(without(open, id) =~= head + tail);
    }
    if forall|i: int| 0 <= i < open.len() ==> #[trigger] open[i].0 != id {
        lemma_without_absent(open, id);
    }
}

/// The ids of the open roots, oldest first.
pub open spec fn open_ids(open: Seq<(RootId, Option<Seq<char>>)>) -> Seq<RootId> {
    open.map_values(|entry: (RootId, Option<Seq<char>>)| entry.0)
}

/// What `roots` lists after a root closes: every other id, in the same
/// order, and not the closed one.
pub proof fn law_close_keeps_the_other_ids(registry: Roots, i: int)
    requires
        registry.wf(),
        0 <= i < registry@.open.len(),
    ensures
        open_ids(without(registry@.open, registry@.open[i].0)) == open_ids(registry@.open).remove(i),
        !open_ids(without(registry@.open, registry@.open[i].0)).contains(registry@.open[i].0),
{
    let open = registry@.open;
    let id = open[i].0;
    law_close_takes_out_only_its_root(registry, id);
    assert(without(open, id) == open.remove(i));
    assert(open_ids(open.remove(i)) =~= open_ids(open).remove(i));
    registry.lemma_view();
    assert forall|j: int| 0 <= j < open.len() && j != i implies #[trigger] open[j].0 != id by {
        if j < i {
            assert(registry.open@[j].id.0 < registry.open@[i].id.0);
        } else {
            assert(registry.open@[i].id.0 < registry.open@[j].id.0);
        }
    }
    if open_ids(open.remove(i)).contains(id) {
        let k = choose|k: int| 0 <= k < open_ids(open.remove(i)).len() && open_ids(open.remove(i))[k] == id;
        if k < i {
            assert(open[k].0 == id);
        } else {
            assert(open[k + 1].0 == id);
        }
    }
}

/// Opening a root adds exactly one to the count, and closing an open one
/// takes exactly one away: the count is the number of opens not yet closed.
pub proof fn law_count_moves_by_one(registry: Roots, opened: RootId)
    requires
        registry.wf(),
        !registry@.issued.contains(opened),
    ensures
        registry@.open.push((opened, None)).len() == registry@.open.len() + 1,
        without(registry@.open.push((opened, None)), opened) == registry@.open,
{
    registry.lemma_view();
    let open = registry@.open;
    assert forall|k: int| 0 <= k < open.len() implies #[trigger] open[k].0 != opened by {
        assert(registry@.issued.contains(open[k].0));
    }
    lemma_without_absent(open, opened);
    open.lemma_filter_push((opened, None), other_than(opened));
}

impl View for Registration {
    type V = RootId;

    open spec fn view(&self) -> RootId {
        self.registration_id()
    }
}

impl Registration {
    pub closed spec fn registration_id(&self) -> RootId {
        self.id
    }
}

} // verus!
