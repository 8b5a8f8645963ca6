//! What devtools read that is not a trace: panels a backend or a plugin
//! offers, for a root or for the whole application.

use vstd::prelude::*;

verus! {

/// Something a backend knows about a window that the rest of guinea does not:
/// its component tree, say. Devtools draw it without interpreting it.
#[derive(Clone, Debug, Default, PartialEq)]
pub struct Panel {
    pub id: &'static str,
    pub title: &'static str,
    pub nodes: Vec<PanelNode>,
}

#[derive(Debug, Default, PartialEq)]
pub struct PanelNode {
    pub label: String,
    pub kind: String,
    pub properties: Vec<(String, String)>,
    pub children: Vec<PanelNode>,
}

impl Clone for PanelNode {
    fn clone(&self) -> (r: PanelNode)
        ensures
            r.label@ == self.label@,
            r.kind@ == self.kind@,
            r.properties.len() == self.properties.len(),
            r.children.len() == self.children.len(),
        decreases self,
    {
        let mut properties: Vec<(String, String)> = Vec::new();
        let mut k: usize = 0;
        while k < self.properties.len()
            invariant
                k <= self.properties.len(),
                properties.len() == k,
            decreases self.properties.len() - k,
        {
            let (name, value) = &self.properties[k];
            properties.push((name.clone(), value.clone()));
            k = k + 1;
        }
        let mut children: Vec<PanelNode> = Vec::new();
        let mut k: usize = 0;
        while k < self.children.len()
            invariant
                k <= self.children.len(),
                children.len() == k,
            decreases self.children.len() - k,
        {
            assert(decreases_to!(*self => self.children@[k as int]));
            children.push(self.children[k].clone());
            k = k + 1;
        }
        PanelNode { label: self.label.clone(), kind: self.kind.clone(), properties, children }
    }
}

/// The panels on offer, each with the root it is for - `None` for the whole
/// application - and what builds it.
pub struct Panels<P> {
    next: u64,
    offered: Vec<(u64, Option<u64>, P)>,
}

/// Keeps a panel on offer; handing it back withdraws the panel.
#[must_use]
pub struct PanelGuard {
    id: u64,
}

impl<P> View for Panels<P> {
    type V = Seq<(u64, Option<u64>, P)>;

    open spec fn view(&self) -> Seq<(u64, Option<u64>, P)> {
        self.offers()
    }
}

impl<P> Panels<P> {
    pub closed spec fn offers(&self) -> Seq<(u64, Option<u64>, P)> {
        self.offered@
    }

    /// Every offer has an id of its own, below the next one to hand out.
    pub closed spec fn wf(&self) -> bool {
        &&& forall|i: int| 0 <= i < self.offered.len() ==> #[trigger] self.offered@[i].0 < self.next
        &&& forall|i: int, j: int|
            0 <= i < j < self.offered.len() ==> #[trigger] self.offered@[i].0 != #[trigger] self.offered@[j].0
    }

    pub closed spec fn has_room(&self) -> bool {
        self.next < u64::MAX
    }

    /// Nothing on offer.
    pub fn new() -> (r: Panels<P>)
        ensures
            r.wf(),
            r.has_room(),
            r@.len() == 0,
    {
        Panels { next: 0, offered: Vec::new() }
    }

    /// Whether another panel can be offered: ids are not reused, and they run
    /// out after `u64::MAX` offers.
    pub fn can_offer(&self) -> (r: bool)
        ensures
            r == self.has_room(),
    {
        self.next < u64::MAX
    }
}

impl View for PanelGuard {
    type V = u64;

    open spec fn view(&self) -> u64 {
        self.guarded()
    }
}

impl PanelGuard {
    pub closed spec fn guarded(&self) -> u64 {
        self.id
    }
}

fn offer<P>(panels: &mut Panels<P>, root: Option<u64>, provider: P) -> (r: PanelGuard)
    requires
        old(panels).wf(),
        old(panels).has_room(),
    ensures
        final(panels).wf(),
        final(panels)@ == old(panels)@.push((r@, root, provider)),
        forall|i: int| 0 <= i < old(panels)@.len() ==> old(panels)@[i].0 != r@,
{
    let id = panels.next;
    panels.next = panels.next + 1;
    panels.offered.push((id, root, provider));
    PanelGuard { id }
}

/// Offers a panel for the root numbered `root`, for as long as the guard is
/// held. `provider` is asked only while devtools are reading.
pub fn contribute<P>(panels: &mut Panels<P>, root: u64, provider: P) -> (r: PanelGuard)
    requires
        old(panels).wf(),
        old(panels).has_room(),
    ensures
        final(panels).wf(),
        final(panels)@ == old(panels)@.push((r@, Some(root), provider)),
        forall|i: int| 0 <= i < old(panels)@.len() ==> old(panels)@[i].0 != r@,
{
    offer(panels, Some(root), provider)
}

/// Offers a panel about the whole application rather than one window: what a
/// plugin holds, say.
pub fn contribute_to_app<P>(panels: &mut Panels<P>, provider: P) -> (r: PanelGuard)
    requires
        old(panels).wf(),
        old(panels).has_room(),
    ensures
        final(panels).wf(),
        final(panels)@ == old(panels)@.push((r@, None, provider)),
        forall|i: int| 0 <= i < old(panels)@.len() ==> old(panels)@[i].0 != r@,
{
    offer(panels, None, provider)
}

/// `out` is what the providers among `offers` for `root` built, in the order
/// they were offered, leaving out those that had nothing to show.
pub open spec fn built_from<P: Fn() -> Option<Panel>>(
    offers: Seq<(u64, Option<u64>, P)>,
    root: Option<u64>,
    out: Seq<Panel>,
) -> bool
    decreases offers.len(),
{
    if offers.len() == 0 {
        out.len() == 0
    } else if offers.last().1 != root {
        built_from(offers.drop_last(), root, out)
    } else {
        exists|answer: Option<Panel>|
            #[trigger] offers.last().2.ensures((), answer) && match answer {
                Some(panel) => out.len() > 0 && out.last() == panel && built_from(
                    offers.drop_last(),
                    root,
                    out.drop_last(),
                ),
                None => built_from(offers.drop_last(), root, out),
            }
    }
}

fn same_owner(a: Option<u64>, b: Option<u64>) -> (r: bool)
    ensures
        r == (a == b),
{
    match (a, b) {
        (Some(x), Some(y)) => x == y,
        (None, None) => true,
        _ => false,
    }
}

fn built<P: Fn() -> Option<Panel>>(panels: &Panels<P>, root: Option<u64>) -> (r: Vec<Panel>)
    requires
        forall|i: int| 0 <= i < panels@.len() ==> (#[trigger] panels@[i]).2.requires(()),
    ensures
        built_from(panels@, root, r@),
{
    let mut out: Vec<Panel> = Vec::new();
    let mut k: usize = 0;
    while k < panels.offered.len()
        invariant
            panels@ == panels.offered@,
            k <= panels.offered.len(),
            forall|i: int| 0 <= i < panels@.len() ==> (#[trigger] panels@[i]).2.requires(()),
            built_from(panels@.take(k as int), root, out@),
        decreases panels.offered.len() - k,
    {
        let ghost before = out@;
        let ghost taken = panels@.take(k + 1);
        proof {
            assert(taken.drop_last() =~= panels@.take(k as int));
            assert(taken.last() == panels@[k as int]);
        }
        if same_owner(panels.offered[k].1, root) {
            let provider = &panels.offered[k].2;
            proof {
                assert(panels@[k as int].2.requires(()));
            }
            let answer = provider();
            match answer {
                Some(panel) => {
                    out.push(panel);
                    proof {
                        assert(out@.drop_last() =~= before);
                    }
                },
                None => {},
            }
        }
        k = k + 1;
    }
    proof {
        assert(panels@.take(k as int) =~= panels@);
    }
    out
}

/// Every panel offered for `root`, built now.
pub fn panels<P: Fn() -> Option<Panel>>(registry: &Panels<P>, root: u64) -> (r: Vec<Panel>)
    requires
        forall|i: int| 0 <= i < registry@.len() ==> (#[trigger] registry@[i]).2.requires(()),
    ensures
        built_from(registry@, Some(root), r@),
{
    built(registry, Some(root))
}

/// Every panel offered for the application, built now.
pub fn app_panels<P: Fn() -> Option<Panel>>(registry: &Panels<P>) -> (r: Vec<Panel>)
    requires
        forall|i: int| 0 <= i < registry@.len() ==> (#[trigger] registry@[i]).2.requires(()),
    ensures
        built_from(registry@, None, r@),
{
    built(registry, None)
}

/// `offers` without the one numbered `id`.
pub open spec fn withdrawn<P>(offers: Seq<(u64, Option<u64>, P)>, id: u64) -> Seq<(u64, Option<u64>, P)> {
    offers.filter(other_than::<P>(id))
}

pub open spec fn other_than<P>(id: u64) -> spec_fn((u64, Option<u64>, P)) -> bool {
    |offer: (u64, Option<u64>, P)| offer.0 != id
}

impl PanelGuard {
    /// Withdraws the panel this guard kept on offer, and only that one.
    pub fn withdraw<P>(self, panels: &mut Panels<P>)
        requires
            old(panels).wf(),
        ensures
            final(panels).wf(),
            final(panels).has_room() == old(panels).has_room(),
            final(panels)@ == withdrawn(old(panels)@, self@),
    {
        let id = self.id;
        let mut rest: Vec<(u64, Option<u64>, P)> = Vec::new();
        std::mem::swap(&mut rest, &mut panels.offered);
        let ghost all = rest@;
        let mut kept: Vec<(u64, Option<u64>, P)> = Vec::new();
        let mut k: usize = 0;
        while rest.len() > 0
            invariant
                k <= all.len(),
                rest@ == all.skip(k as int),
                kept@ == withdrawn(all.take(k as int), id),
                panels.next == old(panels).next,
                all == old(panels)@,
                all.len() == old(panels).offered.len(),
                forall|i: int| 0 <= i < all.len() ==> #[trigger] all[i].0 < panels.next,
                forall|i: int, j: int| 0 <= i < j < all.len() ==> #[trigger] all[i].0 != #[trigger] all[j].0,
            decreases rest.len(),
        {
            let offer = rest.remove(0);
            proof {
                assert(offer == all[k as int]);
                let taken = all.take(k + 1);
                assert(taken.drop_last() =~= all.take(k as int));
                assert(taken.last() == all[k as int]);
                reveal(Seq::filter);
                assert(rest@ =~= all.skip(k + 1));
            }
            if offer.0 != id {
                kept.push(offer);
            }
            k = k + 1;
        }
        proof {
            assert(all.take(k as int) =~= all);
            assert(kept@ == withdrawn(all, id));
        }
        panels.offered = kept;
        proof {
            let f = other_than::<P>(id);
            all.filter_lemma(f);
            assert forall|i: int| 0 <= i < panels.offered.len() implies #[trigger] panels.offered@[i].0 < panels.next by {
                lemma_filter_from(all, f, i);
            }
            assert forall|i: int, j: int| 0 <= i < j < panels.offered.len() implies #[trigger] panels.offered@[i].0 != #[trigger] panels.offered@[j].0 by {
                lemma_filter_keeps_apart(all, f, i, j);
            }
        }
    }
}

/// Offering a panel for one root, or for the application, leaves what every
/// other root is offered as it was.
pub proof fn law_offer_leaves_other_roots<P: Fn() -> Option<Panel>>(
    offers: Seq<(u64, Option<u64>, P)>,
    id: u64,
    root: Option<u64>,
    provider: P,
    other: Option<u64>,
    out: Seq<Panel>,
)
    requires
        other != root,
    ensures
        built_from(offers.push((id, root, provider)), other, out) == built_from(offers, other, out),
{
    assert(offers.push((id, root, provider)).drop_last() =~= offers);
}

proof fn lemma_withdrawn_absent<P>(offers: Seq<(u64, Option<u64>, P)>, id: u64)
    requires
        forall|k: int| 0 <= k < offers.len() ==> #[trigger] offers[k].0 != id,
    ensures
        withdrawn(offers, id) == offers,
    decreases offers.len(),
{
    if offers.len() > 0 {
        lemma_withdrawn_absent(offers.drop_last(), id);
        assert(offers =~= offers.drop_last().push(offers.last()));
        offers.drop_last().lemma_filter_push(offers.last(), other_than::<P>(id));
    } else {
        offers.lemma_filter_len(other_than::<P>(id));
        assert(withdrawn(offers, id) =~= offers);
    }
}

/// Withdrawing a panel puts the offers back as they were before it was
/// offered: every other panel, in the order it was offered.
pub proof fn law_withdraw_restores_earlier_offers<P>(
    before: Seq<(u64, Option<u64>, P)>,
    id: u64,
    root: Option<u64>,
    provider: P,
)
    requires
        forall|i: int| 0 <= i < before.len() ==> #[trigger] before[i].0 != id,
    ensures
        withdrawn(before.push((id, root, provider)), id) == before,
{
    lemma_withdrawn_absent(before, id);
    before.lemma_filter_push((id, root, provider), other_than::<P>(id));
}

proof fn lemma_filter_from<P>(all: Seq<(u64, Option<u64>, P)>, f: spec_fn((u64, Option<u64>, P)) -> bool, i: int)
    requires
        0 <= i < all.filter(f).len(),
    ensures
        exists|w: int| 0 <= w < all.len() && all[w] == all.filter(f)[i],
    decreases all.len(),
{
    reveal(Seq::filter);
    let rest = all.drop_last();
    all.filter_lemma(f);
    if f(all.last()) && i == all.filter(f).len() - 1 {
        assert(all[all.len() - 1] == all.filter(f)[i]);
    } else {
        assert(all.filter(f)[i] == rest.filter(f)[i]);
        lemma_filter_from(rest, f, i);
        let w = choose|w: int| 0 <= w < rest.len() && rest[w] == rest.filter(f)[i];
        assert(all[w] == rest[w]);
    }
}

proof fn lemma_filter_keeps_apart<P>(all: Seq<(u64, Option<u64>, P)>, f: spec_fn((u64, Option<u64>, P)) -> bool, i: int, j: int)
    requires
        forall|a: int, b: int| 0 <= a < b < all.len() ==> #[trigger] all[a].0 != #[trigger] all[b].0,
        0 <= i < j < all.filter(f).len(),
    ensures
        all.filter(f)[i].0 != all.filter(f)[j].0,
    decreases all.len(),
{
    reveal(Seq::filter);
    let rest = all.drop_last();
    let kept = rest.filter(f);
    all.filter_lemma(f);
    rest.filter_lemma(f);
    if f(all.last()) {
        if j == all.filter(f).len() - 1 {
            assert(all.filter(f)[j] == all.last());
            assert(kept[i] == all.filter(f)[i]);
            lemma_filter_from(rest, f, i);
            let w = choose|w: int| 0 <= w < rest.len() && rest[w] == kept[i];
            assert(all[w] == rest[w]);
            assert(all[w].0 != all[all.len() - 1].0);
        } else {
            assert(all.filter(f)[i] == kept[i]);
            assert(all.filter(f)[j] == kept[j]);
            lemma_filter_keeps_apart(rest, f, i, j);
        }
    } else {
        lemma_filter_keeps_apart(rest, f, i, j);
    }
}

/// A logged event as one line: its message, then each other field as
/// `name=value`, a space between each.
pub fn finish(message: String, fields: Vec<String>) -> (r: String)
    ensures
        r@ == joined(message@, fields@.map_values(|field: String| field@)),
{
    let mut text = message;
    let ghost start = text@;
    let mut k: usize = 0;
    while k < fields.len()
        invariant
            k <= fields.len(),
            text@ == joined(start, fields@.take(k as int).map_values(|field: String| field@)),
        decreases fields.len() - k,
    {
        let ghost before = text@;
        if text.as_str().unicode_len() > 0 {
            text.append(" ");
        }
        text.append(fields[k].as_str());
        proof {
            let taken = fields@.take(k + 1).map_values(|field: String| field@);
            assert(taken.drop_last() =~= fields@.take(k as int).map_values(|field: String| field@));
        }
        k = k + 1;
    }
    proof {
        assert(fields@.take(k as int) =~= fields@);
    }
    text
}

/// `message` followed by `fields`, each after a space unless the text so far
/// is empty.
pub open spec fn joined(message: Seq<char>, fields: Seq<Seq<char>>) -> Seq<char>
    decreases fields.len(),
{
    if fields.len() == 0 {
        message
    } else {
        let before = joined(message, fields.drop_last());
        if before.len() > 0 {
            before + " "@ + fields.last()
        } else {
            fields.last()
        }
    }
}

} // verus!
