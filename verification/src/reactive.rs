//! The reactive graph: signals, the computations that read them, and the
//! owners that scope both. Running a computation's callback is left to the
//! caller; the graph decides what is queued, what runs next, and what a
//! disposal takes away.
use vstd::prelude::*;
use std::collections::VecDeque;

use crate::node::{is_canonical, NodeId};
use crate::slots::{
    computation_slots, computation_slots_get, computation_slots_get_mut, computation_slots_insert,
    computation_slots_len, computation_slots_new, computation_slots_remove, owner_slots, owner_slots_get,
    owner_slots_get_mut, owner_slots_insert, owner_slots_len, owner_slots_new, owner_slots_remove, signal_slots,
    signal_slots_get, signal_slots_get_mut, signal_slots_insert, signal_slots_len, signal_slots_new,
    signal_slots_remove, slot_keyed, ComputationSlots, OwnerSlots, SignalNodeSlots,
};

verus! {

/// Identifier of a signal of a [`ReactiveGraph`].
#[derive(Clone, Copy, Debug, PartialEq, Eq, Hash, Structural)]
pub struct SignalId {
    pub raw: u64,
}

/// Identifier of a computation (an effect) of a [`ReactiveGraph`].
#[derive(Clone, Copy, Debug, PartialEq, Eq, Hash, Structural)]
pub struct ComputationId {
    pub raw: u64,
}

/// Identifier of an owner of a [`ReactiveGraph`].
#[derive(Clone, Copy, Debug, PartialEq, Eq, Hash, Structural)]
pub struct OwnerId {
    pub raw: u64,
}

/// A signal: the computations that read it since they last ran.
pub struct SignalNode {
    pub subscribers: Vec<ComputationId>,
}

/// A computation: the signals it read when it last ran, its owner, and
/// whether it waits in the queue.
pub struct Computation {
    pub deps: Vec<SignalId>,
    pub owner: OwnerId,
    pub queued: bool,
    pub disposed: bool,
}

/// An owner: a scope whose disposal takes its child owners, computations
/// and signals with it.
pub struct Owner {
    pub parent: Option<OwnerId>,
    pub children: Vec<OwnerId>,
    pub computations: Vec<ComputationId>,
    pub signals: Vec<SignalId>,
    pub disposed: bool,
}

/// A computation as the contracts see it.
pub struct ComputationView {
    pub deps: Seq<SignalId>,
    pub owner: OwnerId,
    pub queued: bool,
    pub disposed: bool,
}

/// An owner as the contracts see it.
pub struct OwnerView {
    pub parent: Option<OwnerId>,
    pub children: Seq<OwnerId>,
    pub computations: Seq<ComputationId>,
    pub signals: Seq<SignalId>,
    pub disposed: bool,
}

impl View for Computation {
    type V = ComputationView;

    open spec fn view(&self) -> ComputationView {
        ComputationView {
            deps: self.deps@,
            owner: self.owner,
            queued: self.queued,
            disposed: self.disposed,
        }
    }
}

impl View for Owner {
    type V = OwnerView;

    open spec fn view(&self) -> OwnerView {
        OwnerView {
            parent: self.parent,
            children: self.children@,
            computations: self.computations@,
            signals: self.signals@,
            disposed: self.disposed,
        }
    }
}

/// An owner just made under `parent`: nothing in it yet.
pub open spec fn fresh_owner(parent: Option<OwnerId>) -> OwnerView {
    OwnerView {
        parent,
        children: Seq::empty(),
        computations: Seq::empty(),
        signals: Seq::empty(),
        disposed: false,
    }
}

impl Owner {
    /// An owner under `parent` with no children, computations or signals.
    pub fn new(parent: Option<OwnerId>) -> (r: Owner)
        ensures
            r@ == fresh_owner(parent),
    {
        Owner {
            parent,
            children: Vec::new(),
            computations: Vec::new(),
            signals: Vec::new(),
            disposed: false,
        }
    }
}

/// A reactive graph as the contracts see it: each live signal with its
/// subscribers, each live computation and owner, the root owner, the
/// queue of computations to run, and the depth of open batches.
pub struct GraphView {
    pub signals: Map<u64, Seq<ComputationId>>,
    pub computations: Map<u64, ComputationView>,
    pub owners: Map<u64, OwnerView>,
    pub root: OwnerId,
    pub queue: Seq<ComputationId>,
    pub batch_depth: nat,
}

/// An owner's children are distinct, live, and name it as their parent.
pub open spec fn owner_children_ok(owners: Map<u64, OwnerView>, n: u64) -> bool {
    &&& owners[n].children.no_duplicates()
    &&& forall|i: int|
        0 <= i < owners[n].children.len() ==> owners.dom().contains(#[trigger] owners[n].children[i].raw)
            && owners[owners[n].children[i].raw].parent == Some(OwnerId { raw: n })
}

/// The invariant every operation keeps: keys as a slot map hands them out,
/// a live root owner without parent, and child lists that agree with the
/// parents they name.
pub open spec fn graph_wf(g: GraphView) -> bool {
    &&& slot_keyed(g.signals)
    &&& slot_keyed(g.computations)
    &&& slot_keyed(g.owners)
    &&& g.owners.dom().contains(g.root.raw)
    &&& g.owners[g.root.raw].parent is None
    &&& forall|n: u64| #[trigger] g.owners.dom().contains(n) ==> owner_children_ok(g.owners, n)
}

/// The predicate "is not `c`".
pub open spec fn other_than(c: ComputationId) -> spec_fn(ComputationId) -> bool {
    |x: ComputationId| x != c
}

/// A subscriber list with every occurrence of `c` taken out.
pub open spec fn without_comp(s: Seq<ComputationId>, c: ComputationId) -> Seq<ComputationId> {
    s.filter(other_than(c))
}

/// The owner keyed `o`, if live, with `s` added to its signals.
pub open spec fn owner_add_signal(owners: Map<u64, OwnerView>, o: u64, s: SignalId) -> Map<u64, OwnerView> {
    if owners.dom().contains(o) {
        owners.insert(o, OwnerView { signals: owners[o].signals.push(s), ..owners[o] })
    } else {
        owners
    }
}

/// The owner keyed `o`, if live, with `c` added to its computations.
pub open spec fn owner_add_computation(owners: Map<u64, OwnerView>, o: u64, c: ComputationId) -> Map<u64, OwnerView> {
    if owners.dom().contains(o) {
        owners.insert(o, OwnerView { computations: owners[o].computations.push(c), ..owners[o] })
    } else {
        owners
    }
}

/// `enqueue`: a live computation that is neither disposed nor queued is
/// marked queued and goes to the back of the queue; otherwise nothing.
pub open spec fn enqueue_view(g: GraphView, c: ComputationId) -> GraphView {
    if g.computations.dom().contains(c.raw) && !g.computations[c.raw].disposed
        && !g.computations[c.raw].queued {
        GraphView {
            computations: g.computations.insert(c.raw, ComputationView { queued: true, ..g.computations[c.raw] }),
            queue: g.queue.push(c),
            ..g
        }
    } else {
        g
    }
}

/// `enqueue` applied to each of `cs` in order.
pub open spec fn enqueue_all(g: GraphView, cs: Seq<ComputationId>) -> GraphView
    decreases cs.len(),
{
    if cs.len() == 0 {
        g
    } else {
        enqueue_view(enqueue_all(g, cs.drop_last()), cs.last())
    }
}

/// `track_signal`: while `c` runs, a read of the live signal `s` makes
/// `c` a subscriber of `s` and, where `c` is live, `s` a dependency of `c`,
/// each once.
pub open spec fn track_view(g: GraphView, c: ComputationId, s: SignalId) -> GraphView {
    if g.signals.dom().contains(s.raw) {
        let subs = g.signals[s.raw];
        let signals = if subs.contains(c) { g.signals } else { g.signals.insert(s.raw, subs.push(c)) };
        let computations = if g.computations.dom().contains(c.raw)
            && !g.computations[c.raw].deps.contains(s) {
            g.computations.insert(c.raw, ComputationView { deps: g.computations[c.raw].deps.push(s), ..g.computations[c.raw] })
        } else {
            g.computations
        };
        GraphView { signals, computations, ..g }
    } else {
        g
    }
}

/// Every live signal among `deps` loses `c` from its subscribers.
pub open spec fn unsubscribe(signals: Map<u64, Seq<ComputationId>>, c: ComputationId, deps: Seq<SignalId>) -> Map<u64, Seq<ComputationId>> {
    Map::new(
        |s: u64| signals.dom().contains(s),
        |s: u64| if deps.contains(SignalId { raw: s }) { without_comp(signals[s], c) } else { signals[s] },
    )
}

/// `dispose_computation`: a live computation leaves the graph and the
/// subscriber lists of the signals it depends on.
pub open spec fn drop_computation(g: GraphView, c: ComputationId) -> GraphView {
    if g.computations.dom().contains(c.raw) {
        GraphView {
            computations: g.computations.remove(c.raw),
            signals: unsubscribe(g.signals, c, g.computations[c.raw].deps),
            ..g
        }
    } else {
        g
    }
}

/// A computation about to run: no longer queued, its dependencies
/// forgotten on both sides, to be read afresh by the run.
pub open spec fn start_run(g: GraphView, c: ComputationId) -> GraphView {
    GraphView {
        computations: g.computations.insert(
            c.raw,
            ComputationView { deps: Seq::empty(), queued: false, ..g.computations[c.raw] },
        ),
        signals: unsubscribe(g.signals, c, g.computations[c.raw].deps),
        ..g
    }
}

/// A due computation whose run is already under way: it is no longer
/// queued and forgets its dependencies, while the signals keep listing it.
pub open spec fn start_busy(g: GraphView, c: ComputationId) -> GraphView {
    GraphView {
        computations: g.computations.insert(
            c.raw,
            ComputationView { deps: Seq::empty(), queued: false, ..g.computations[c.raw] },
        ),
        ..g
    }
}

/// What one step of a flush found at the front of the queue.
#[derive(Clone, Copy, Debug, PartialEq, Eq, Structural)]
pub enum FlushStep {
    /// The queue is empty: the flush is over.
    Idle,
    /// The computation was taken off the queue but is gone or disposed.
    Skipped(ComputationId),
    /// The computation is to run now, under the owner it names.
    Run(ComputationId, OwnerId),
    /// The computation was due but its run is already under way: it is
    /// not run again.
    Busy(ComputationId),
}

/// Whether `c` names a computation that is live and not disposed.
pub open spec fn active(g: GraphView, c: ComputationId) -> bool {
    g.computations.dom().contains(c.raw) && !g.computations[c.raw].disposed
}

/// Signals, computations and owners in slot maps, with the queue of
/// computations that wait to run.
pub struct ReactiveGraph {
    signals: SignalNodeSlots,
    computations: ComputationSlots,
    owners: OwnerSlots,
    root_owner: OwnerId,
    queue: VecDeque<ComputationId>,
    batch_depth: usize,
}

impl View for ReactiveGraph {
    type V = GraphView;

    closed spec fn view(&self) -> GraphView {
        GraphView {
            signals: signal_slots(self.signals).map_values(|s: SignalNode| s.subscribers@),
            computations: computation_slots(self.computations).map_values(|c: Computation| c@),
            owners: owner_slots(self.owners).map_values(|o: Owner| o@),
            root: self.root_owner,
            queue: self.queue@,
            batch_depth: self.batch_depth as nat,
        }
    }
}

/// Whether `c` occurs in `v`.
fn has_computation(v: &Vec<ComputationId>, c: ComputationId) -> (r: bool)
    ensures
        r == v@.contains(c),
{
    let mut i: usize = 0;
    while i < v.len()
        invariant
            i <= v@.len(),
            forall|j: int| 0 <= j < i ==> v@[j] != c,
        decreases v@.len() - i,
    {
        if v[i] == c {
            assert(v@[i as int] == c);
            return true;
        }
        i = i + 1;
    }
    false
}

/// Whether `s` occurs in `v`.
fn has_signal_id(v: &Vec<SignalId>, s: SignalId) -> (r: bool)
    ensures
        r == v@.contains(s),
{
    let mut i: usize = 0;
    while i < v.len()
        invariant
            i <= v@.len(),
            forall|j: int| 0 <= j < i ==> v@[j] != s,
        decreases v@.len() - i,
    {
        if v[i] == s {
            assert(v@[i as int] == s);
            return true;
        }
        i = i + 1;
    }
    false
}

/// `v` with every occurrence of `c` left out, in order.
fn retain_other(v: &Vec<ComputationId>, c: ComputationId) -> (r: Vec<ComputationId>)
    ensures
        r@ == without_comp(v@, c),
{
    let mut r: Vec<ComputationId> = Vec::new();
    let mut i: usize = 0;
    while i < v.len()
        invariant
            i <= v@.len(),
            r@ == without_comp(v@.subrange(0, i as int), c),
        decreases v@.len() - i,
    {
        proof {
            v@.subrange(0, i as int).lemma_filter_push(v@[i as int], other_than(c));
            assert(v@.subrange(0, i + 1) =~= v@.subrange(0, i as int).push(v@[i as int]));
        }
        if v[i] != c {
            r.push(v[i]);
        }
        i = i + 1;
    }
    proof {
        assert(v@.subrange(0, v@.len() as int) =~= v@);
    }
    r
}

impl ReactiveGraph {
    pub open spec fn wf(&self) -> bool {
        graph_wf(self@)
    }

    proof fn lemma_view(&self)
        ensures
            self@.signals.dom() == signal_slots(self.signals).dom(),
            self@.computations.dom() == computation_slots(self.computations).dom(),
            self@.owners.dom() == owner_slots(self.owners).dom(),
            forall|k: u64| #[trigger] self@.signals.dom().contains(k) ==> self@.signals[k] == signal_slots(self.signals)[k].subscribers@,
            forall|k: u64| #[trigger] self@.computations.dom().contains(k) ==> self@.computations[k] == computation_slots(self.computations)[k]@,
            forall|k: u64| #[trigger] self@.owners.dom().contains(k) ==> self@.owners[k] == owner_slots(self.owners)[k]@,
    {
        assert(self@.signals.dom() =~= signal_slots(self.signals).dom());
        assert(self@.computations.dom() =~= computation_slots(self.computations).dom());
        assert(self@.owners.dom() =~= owner_slots(self.owners).dom());
    }

    /// A graph with only its root owner.
    pub fn new() -> (r: Self)
        ensures
            r.wf(),
            r@.signals.dom().is_empty(),
            r@.computations.dom().is_empty(),
            r@.owners == Map::<u64, OwnerView>::empty().insert(r@.root.raw, fresh_owner(None)),
            r@.queue.len() == 0,
            r@.batch_depth == 0,
            queue_ok(r@),
    {
        let mut owners = owner_slots_new();
        let root = owner_slots_insert(&mut owners, Owner::new(None));
        let r = ReactiveGraph {
            signals: signal_slots_new(),
            computations: computation_slots_new(),
            owners,
            root_owner: OwnerId { raw: root },
            queue: VecDeque::new(),
            batch_depth: 0,
        };
        proof {
            r.lemma_view();
            assert(r@.owners =~= Map::<u64, OwnerView>::empty().insert(root, fresh_owner(None)));
            assert(r@.signals.dom() =~= Set::<u64>::empty());
            assert(r@.computations.dom() =~= Set::<u64>::empty());
        }
        r
    }

    /// The owner that every other owner descends from.
    pub fn root_owner(&self) -> (r: OwnerId)
        ensures
            r == self@.root,
    {
        self.root_owner
    }

    fn has_signal(&self, s: SignalId) -> (r: bool)
        requires
            self.wf(),
        ensures
            r == self@.signals.dom().contains(s.raw),
    {
        proof {
            self.lemma_view();
        }
        if !is_canonical(s.raw) {
            return false;
        }
        signal_slots_get(&self.signals, s.raw).is_some()
    }

    fn has_computation_key(&self, c: ComputationId) -> (r: bool)
        requires
            self.wf(),
        ensures
            r == self@.computations.dom().contains(c.raw),
    {
        proof {
            self.lemma_view();
        }
        if !is_canonical(c.raw) {
            return false;
        }
        computation_slots_get(&self.computations, c.raw).is_some()
    }

    fn has_owner(&self, o: OwnerId) -> (r: bool)
        requires
            self.wf(),
        ensures
            r == self@.owners.dom().contains(o.raw),
    {
        proof {
            self.lemma_view();
        }
        if !is_canonical(o.raw) {
            return false;
        }
        owner_slots_get(&self.owners, o.raw).is_some()
    }

    /// Whether `c` names a live computation that is not disposed: one whose
    /// callback is to be kept after it ran.
    pub fn is_active(&self, c: ComputationId) -> (r: bool)
        requires
            self.wf(),
        ensures
            r == active(self@, c),
    {
        proof {
            self.lemma_view();
        }
        if !self.has_computation_key(c) {
            return false;
        }
        match computation_slots_get(&self.computations, c.raw) {
            Some(comp) => !comp.disposed,
            None => false,
        }
    }

    /// A new signal, listed by `owner` where that owner is live.
    pub fn create_signal(&mut self, owner: OwnerId) -> (r: SignalId)
        requires
            old(self).wf(),
            old(self)@.signals.dom().len() < 0xffff_fffe,
        ensures
            final(self).wf(),
            !old(self)@.signals.dom().contains(r.raw),
            final(self)@ == (GraphView {
                signals: old(self)@.signals.insert(r.raw, Seq::empty()),
                owners: owner_add_signal(old(self)@.owners, owner.raw, r),
                ..old(self)@
            }),
    {
        let ghost g0 = self@;
        proof {
            self.lemma_view();
        }
        let key = signal_slots_insert(&mut self.signals, SignalNode { subscribers: Vec::new() });
        let id = SignalId { raw: key };
        let ghost g1 = self@;
        proof {
            self.lemma_view();
            assert(self@.signals =~= g0.signals.insert(key, Seq::empty()));
        }
        if self.has_owner(owner) {
            let o = owner_slots_get_mut(&mut self.owners, owner.raw);
            o.signals.push(id);
            proof {
                self.lemma_view();
                assert(self@.owners =~= owner_add_signal(g0.owners, owner.raw, id));
            }
        }
        proof {
            self.lemma_view();
            assert(self@.owners.dom() =~= g0.owners.dom());
            assert forall|n: u64| #[trigger] self@.owners.dom().contains(n) implies owner_children_ok(self@.owners, n) by {
                assert(owner_children_ok(g0.owners, n));
                assert(self@.owners[n].children == g0.owners[n].children);
                assert forall|i: int| 0 <= i < self@.owners[n].children.len() implies self@.owners[self@.owners[n].children[i].raw].parent == g0.owners[g0.owners[n].children[i].raw].parent by {
                    assert(g0.owners.dom().contains(g0.owners[n].children[i].raw));
                }
            }
        }
        id
    }

    /// A new computation under `owner`, listed by that owner where it is
    /// live, and queued to run.
    pub fn create_computation(&mut self, owner: OwnerId) -> (r: ComputationId)
        requires
            old(self).wf(),
            old(self)@.computations.dom().len() < 0xffff_fffe,
        ensures
            final(self).wf(),
            !old(self)@.computations.dom().contains(r.raw),
            final(self)@ == (GraphView {
                computations: old(self)@.computations.insert(
                    r.raw,
                    ComputationView { deps: Seq::empty(), owner, queued: true, disposed: false },
                ),
                owners: owner_add_computation(old(self)@.owners, owner.raw, r),
                queue: old(self)@.queue.push(r),
                ..old(self)@
            }),
    {
        let ghost g0 = self@;
        proof {
            self.lemma_view();
        }
        let key = computation_slots_insert(
            &mut self.computations,
            Computation { deps: Vec::new(), owner, queued: true, disposed: false },
        );
        let id = ComputationId { raw: key };
        proof {
            self.lemma_view();
            assert(self@.computations =~= g0.computations.insert(
                key,
                ComputationView { deps: Seq::empty(), owner, queued: true, disposed: false },
            ));
        }
        if self.has_owner(owner) {
            let o = owner_slots_get_mut(&mut self.owners, owner.raw);
            o.computations.push(id);
            proof {
                self.lemma_view();
                assert(self@.owners =~= owner_add_computation(g0.owners, owner.raw, id));
            }
        }
        self.queue.push_back(id);
        proof {
            self.lemma_view();
            assert(self@.owners.dom() =~= g0.owners.dom());
            assert forall|n: u64| #[trigger] self@.owners.dom().contains(n) implies owner_children_ok(self@.owners, n) by {
                assert(owner_children_ok(g0.owners, n));
                assert(self@.owners[n].children == g0.owners[n].children);
                assert forall|i: int| 0 <= i < self@.owners[n].children.len() implies self@.owners[self@.owners[n].children[i].raw].parent == g0.owners[g0.owners[n].children[i].raw].parent by {
                    assert(g0.owners.dom().contains(g0.owners[n].children[i].raw));
                }
            }
        }
        id
    }

    /// A new owner under `parent`, listed as a child of that parent where
    /// it is live.
    pub fn create_owner(&mut self, parent: Option<OwnerId>) -> (r: OwnerId)
        requires
            old(self).wf(),
            old(self)@.owners.dom().len() < 0xffff_fffe,
        ensures
            final(self).wf(),
            !old(self)@.owners.dom().contains(r.raw),
            final(self)@ == (GraphView {
                owners: match parent {
                    Some(p) => if old(self)@.owners.dom().contains(p.raw) {
                        old(self)@.owners.insert(r.raw, fresh_owner(parent)).insert(
                            p.raw,
                            OwnerView { children: old(self)@.owners[p.raw].children.push(r), ..old(self)@.owners[p.raw] },
                        )
                    } else {
                        old(self)@.owners.insert(r.raw, fresh_owner(parent))
                    },
                    None => old(self)@.owners.insert(r.raw, fresh_owner(parent)),
                },
                ..old(self)@
            }),
    {
        let ghost g0 = self@;
        proof {
            self.lemma_view();
        }
        let key = owner_slots_insert(&mut self.owners, Owner::new(parent));
        let id = OwnerId { raw: key };
        let ghost g1 = self@;
        proof {
            self.lemma_view();
            assert(g1.owners =~= g0.owners.insert(key, fresh_owner(parent)));
            assert forall|n: u64| #[trigger] g1.owners.dom().contains(n) implies owner_children_ok(g1.owners, n) by {
                if n != key {
                    assert(owner_children_ok(g0.owners, n));
                    assert forall|i: int| 0 <= i < g1.owners[n].children.len() implies g1.owners.dom().contains(#[trigger] g1.owners[n].children[i].raw)
                        && g1.owners[g1.owners[n].children[i].raw].parent == Some(OwnerId { raw: n }) by {
                        assert(g0.owners.dom().contains(g0.owners[n].children[i].raw));
                    }
                }
            }
        }
        match parent {
            Some(p) => {
                if p != id && self.has_owner(p) {
                    let o = owner_slots_get_mut(&mut self.owners, p.raw);
                    o.children.push(id);
                    proof {
                        self.lemma_view();
                        let g2 = self@;
                        assert(g2.owners =~= g1.owners.insert(
                            p.raw,
                            OwnerView { children: g0.owners[p.raw].children.push(id), ..g0.owners[p.raw] },
                        ));
                        assert forall|n: u64| #[trigger] g2.owners.dom().contains(n) implies owner_children_ok(g2.owners, n) by {
                            assert(owner_children_ok(g1.owners, n));
                            if n == p.raw {
                                let ks = g2.owners[n].children;
                                assert(ks == g1.owners[n].children.push(id));
                                assert forall|i: int, j: int| 0 <= i < j < ks.len() implies ks[i] != ks[j] by {
                                    if j == ks.len() - 1 {
                                        assert(g0.owners.dom().contains(ks[i].raw));
                                    }
                                }
                                assert forall|i: int| 0 <= i < ks.len() implies g2.owners.dom().contains(#[trigger] ks[i].raw)
                                    && g2.owners[ks[i].raw].parent == Some(OwnerId { raw: n }) by {
                                    if i < ks.len() - 1 {
                                        assert(ks[i] == g1.owners[n].children[i]);
                                        assert(g0.owners.dom().contains(ks[i].raw));
                                    }
                                }
                            } else {
                                assert forall|i: int| 0 <= i < g2.owners[n].children.len() implies g2.owners.dom().contains(#[trigger] g2.owners[n].children[i].raw)
                                    && g2.owners[g2.owners[n].children[i].raw].parent == Some(OwnerId { raw: n }) by {
                                    assert(g1.owners.dom().contains(g1.owners[n].children[i].raw));
                                }
                            }
                        }
                    }
                }
            },
            None => {},
        }
        proof {
            self.lemma_view();
        }
        id
    }

    /// `enqueue` on one computation.
    fn enqueue(&mut self, c: ComputationId)
        requires
            old(self).wf(),
        ensures
            final(self).wf(),
            final(self)@ == enqueue_view(old(self)@, c),
    {
        let ghost g0 = self@;
        proof {
            self.lemma_view();
        }
        if !self.has_computation_key(c) {
            return;
        }
        let comp = computation_slots_get_mut(&mut self.computations, c.raw);
        if comp.disposed || comp.queued {
            proof {
                self.lemma_view();
                assert(self@.computations =~= g0.computations);
            }
            return;
        }
        comp.queued = true;
        self.queue.push_back(c);
        proof {
            self.lemma_view();
            assert(self@.computations =~= g0.computations.insert(c.raw, ComputationView { queued: true, ..g0.computations[c.raw] }));
        }
    }

    /// Queues every subscriber of `signal` that is live, not disposed and
    /// not yet queued, in subscriber order, each once.
    pub fn mark_signal_changed(&mut self, signal: SignalId)
        requires
            old(self).wf(),
        ensures
            final(self).wf(),
            final(self)@ == enqueue_all(
                old(self)@,
                if old(self)@.signals.dom().contains(signal.raw) { old(self)@.signals[signal.raw] } else { Seq::empty() },
            ),
            queue_ok(old(self)@) ==> queue_ok(final(self)@),
    {
        let ghost g0 = self@;
        proof {
            self.lemma_view();
            if queue_ok(g0) {
                lemma_changes_queue_once(g0, if g0.signals.dom().contains(signal.raw) { g0.signals[signal.raw] } else { Seq::empty() });
            }
        }
        if !self.has_signal(signal) {
            return;
        }
        let mut subs: Vec<ComputationId> = Vec::new();
        match signal_slots_get(&self.signals, signal.raw) {
            Some(node) => {
                let mut i: usize = 0;
                while i < node.subscribers.len()
                    invariant
                        i <= node.subscribers@.len(),
                        subs@ == node.subscribers@.subrange(0, i as int),
                    decreases node.subscribers@.len() - i,
                {
                    subs.push(node.subscribers[i]);
                    proof {
                        assert(node.subscribers@.subrange(0, i + 1) =~= node.subscribers@.subrange(0, i as int).push(node.subscribers@[i as int]));
                    }
                    i = i + 1;
                }
                proof {
                    assert(node.subscribers@.subrange(0, i as int) =~= node.subscribers@);
                }
            },
            None => {},
        }
        let mut i: usize = 0;
        while i < subs.len()
            invariant
                i <= subs@.len(),
                subs@ == g0.signals[signal.raw],
                self.wf(),
                self@ == enqueue_all(g0, subs@.subrange(0, i as int)),
            decreases subs@.len() - i,
        {
            proof {
                assert(subs@.subrange(0, i + 1).drop_last() =~= subs@.subrange(0, i as int));
            }
            self.enqueue(subs[i]);
            i = i + 1;
        }
        proof {
            assert(subs@.subrange(0, i as int) =~= subs@);
        }
    }

    /// Records that computation `current`, if any, read `signal`.
    pub fn track_signal(&mut self, current: Option<ComputationId>, signal: SignalId)
        requires
            old(self).wf(),
        ensures
            final(self).wf(),
            final(self)@ == match current {
                Some(c) => track_view(old(self)@, c, signal),
                None => old(self)@,
            },
    {
        let ghost g0 = self@;
        proof {
            self.lemma_view();
        }
        let c = match current {
            Some(c) => c,
            None => {
                return;
            },
        };
        if !self.has_signal(signal) {
            return;
        }
        let node = signal_slots_get_mut(&mut self.signals, signal.raw);
        if !has_computation(&node.subscribers, c) {
            node.subscribers.push(c);
        }
        let ghost g1 = self@;
        proof {
            self.lemma_view();
            let subs = g0.signals[signal.raw];
            let expected = if subs.contains(c) { g0.signals } else { g0.signals.insert(signal.raw, subs.push(c)) };
            assert(g1.signals =~= expected);
        }
        if self.has_computation_key(c) {
            let comp = computation_slots_get_mut(&mut self.computations, c.raw);
            if !has_signal_id(&comp.deps, signal) {
                comp.deps.push(signal);
            }
            proof {
                self.lemma_view();
                let deps = g0.computations[c.raw].deps;
                if deps.contains(signal) {
                    assert(self@.computations =~= g0.computations);
                } else {
                    assert(self@.computations =~= g0.computations.insert(c.raw, ComputationView { deps: deps.push(signal), ..g0.computations[c.raw] }));
                }
            }
        }
        proof {
            self.lemma_view();
            assert(self@.computations.dom() =~= g0.computations.dom());
            assert(self@.signals.dom() =~= g0.signals.dom());
        }
    }

    /// Opens a batch.
    pub fn begin_batch(&mut self)
        requires
            old(self)@.batch_depth < usize::MAX,
        ensures
            final(self)@ == batch_opened(old(self)@),
    {
        self.batch_depth = self.batch_depth + 1;
    }

    /// Closes a batch; closing more than were opened leaves the depth at 0.
    pub fn end_batch(&mut self)
        ensures
            final(self)@ == batch_closed(old(self)@),
    {
        self.batch_depth = self.batch_depth.saturating_sub(1);
    }

    /// The number of live signals.
    pub fn signal_count(&self) -> (r: usize)
        ensures
            r == self@.signals.dom().len(),
    {
        proof {
            self.lemma_view();
        }
        signal_slots_len(&self.signals)
    }

    /// The number of live computations.
    pub fn computation_count(&self) -> (r: usize)
        ensures
            r == self@.computations.dom().len(),
    {
        proof {
            self.lemma_view();
        }
        computation_slots_len(&self.computations)
    }

    /// The number of live owners.
    pub fn owner_count(&self) -> (r: usize)
        ensures
            r == self@.owners.dom().len(),
    {
        proof {
            self.lemma_view();
        }
        owner_slots_len(&self.owners)
    }

    /// The depth of open batches.
    pub fn batch_depth(&self) -> (r: usize)
        ensures
            r == self@.batch_depth,
    {
        self.batch_depth
    }
}


/// The predicate "is not `o`".
pub open spec fn other_owner(o: OwnerId) -> spec_fn(OwnerId) -> bool {
    |x: OwnerId| x != o
}

/// Whether following parent links from `m`, each one confirmed by the
/// parent's list of children, at most `k` times reaches `a`.
pub open spec fn owner_reaches(owners: Map<u64, OwnerView>, m: u64, a: u64, k: nat) -> bool
    decreases k,
{
    if m == a {
        true
    } else if k == 0 {
        false
    } else {
        owners.dom().contains(m) && match owners[m].parent {
            Some(p) => owners.dom().contains(p.raw) && owners[p.raw].children.contains(OwnerId { raw: m })
                && owner_reaches(owners, p.raw, a, (k - 1) as nat),
            None => false,
        }
    }
}

/// Whether the owner `m` is `a` or below it.
pub open spec fn under_owner(owners: Map<u64, OwnerView>, m: u64, a: u64) -> bool {
    exists|k: nat| owner_reaches(owners, m, a, k)
}

/// The live owners at or below `a`.
pub open spec fn owner_subtree(owners: Map<u64, OwnerView>, a: u64) -> Set<u64> {
    owners.dom().filter(|m: u64| under_owner(owners, m, a))
}

/// The computations listed by the owners of `d`.
pub open spec fn listed_computations(owners: Map<u64, OwnerView>, d: Set<u64>) -> Set<u64> {
    Set::new(|c: u64| exists|r: u64| #[trigger] d.contains(r) && owners[r].computations.contains(ComputationId { raw: c }))
}

/// The signals listed by the owners of `d`.
pub open spec fn listed_signals(owners: Map<u64, OwnerView>, d: Set<u64>) -> Set<u64> {
    Set::new(|s: u64| exists|r: u64| #[trigger] d.contains(r) && owners[r].signals.contains(SignalId { raw: s }))
}

/// The subscribers of signal `s` that stay when the computations `cs` are
/// disposed: all but the live ones of `cs` that depend on `s`.
pub open spec fn survives(comps: Map<u64, ComputationView>, cs: Set<u64>, s: u64) -> spec_fn(ComputationId) -> bool {
    |x: ComputationId| !(cs.contains(x.raw) && comps.dom().contains(x.raw) && comps[x.raw].deps.contains(SignalId { raw: s }))
}

/// The live signals but those of `ss`, once the computations `cs` are
/// disposed.
pub open spec fn signals_after(
    signals: Map<u64, Seq<ComputationId>>,
    comps: Map<u64, ComputationView>,
    cs: Set<u64>,
    ss: Set<u64>,
) -> Map<u64, Seq<ComputationId>> {
    Map::new(
        |s: u64| signals.dom().contains(s) && !ss.contains(s),
        |s: u64| signals[s].filter(survives(comps, cs, s)),
    )
}

/// An owner marked disposed with its lists emptied.
pub open spec fn cleared_owner(v: OwnerView) -> OwnerView {
    OwnerView { children: Seq::empty(), computations: Seq::empty(), signals: Seq::empty(), disposed: true, ..v }
}

/// The owners once the subtree `d` of `o` is disposed: all of `d` leave,
/// but the root stays, disposed and emptied; a parent left behind no
/// longer lists `o`.
pub open spec fn owners_after(owners: Map<u64, OwnerView>, root: u64, o: u64, d: Set<u64>) -> Map<u64, OwnerView> {
    let base = owners.remove_keys(d);
    if o == root {
        base.insert(o, cleared_owner(owners[o]))
    } else {
        match owners[o].parent {
            Some(p) => if base.dom().contains(p.raw) {
                base.insert(
                    p.raw,
                    OwnerView { children: owners[p.raw].children.filter(other_owner(OwnerId { raw: o })), ..owners[p.raw] },
                )
            } else {
                base
            },
            None => base,
        }
    }
}

/// `dispose_owner`: a live owner goes with every owner below it, the
/// computations and signals they list, and those computations'
/// subscriptions; the root owner itself stays, disposed and emptied.
pub open spec fn dispose_view(g: GraphView, o: u64) -> GraphView {
    if g.owners.dom().contains(o) {
        let d = owner_subtree(g.owners, o);
        let cs = listed_computations(g.owners, d);
        let ss = listed_signals(g.owners, d);
        GraphView {
            owners: owners_after(g.owners, g.root.raw, o, d),
            computations: g.computations.remove_keys(cs),
            signals: signals_after(g.signals, g.computations, cs, ss),
            ..g
        }
    } else {
        g
    }
}

/// The keys of the computations in `s`.
pub open spec fn comp_keys(s: Seq<ComputationId>) -> Set<u64> {
    Set::new(|x: u64| s.contains(ComputationId { raw: x }))
}

/// The keys of the signals in `s`.
pub open spec fn signal_keys(s: Seq<SignalId>) -> Set<u64> {
    Set::new(|x: u64| s.contains(SignalId { raw: x }))
}

/// Both predicates at once.
pub open spec fn both<A>(p: spec_fn(A) -> bool, q: spec_fn(A) -> bool) -> spec_fn(A) -> bool {
    |x: A| p(x) && q(x)
}

/// Filtering twice is filtering by both predicates.
pub(crate) proof fn lemma_filter_twice<A>(s: Seq<A>, p: spec_fn(A) -> bool, q: spec_fn(A) -> bool)
    ensures
        s.filter(p).filter(q) == s.filter(both(p, q)),
    decreases s.len(),
{
    if s.len() == 0 {
        reveal(Seq::filter);
        assert(s.filter(p) =~= s);
        assert(s.filter(p).filter(q) =~= s.filter(p));
        assert(s.filter(both(p, q)) =~= s);
    } else {
        let t = s.drop_last();
        let x = s.last();
        assert(s =~= t.push(x));
        lemma_filter_twice(t, p, q);
        t.lemma_filter_push(x, p);
        t.filter(p).lemma_filter_push(x, q);
        t.lemma_filter_push(x, both(p, q));
    }
}

/// A filter that keeps everything changes nothing.
proof fn lemma_filter_all<A>(s: Seq<A>, p: spec_fn(A) -> bool)
    requires
        forall|x: A| #[trigger] p(x),
    ensures
        s.filter(p) == s,
    decreases s.len(),
{
    if s.len() == 0 {
        reveal(Seq::filter);
    } else {
        let t = s.drop_last();
        assert(s =~= t.push(s.last()));
        lemma_filter_all(t, p);
        t.lemma_filter_push(s.last(), p);
        assert(p(s.last()));
    }
}

/// A filter of a sequence without duplicates has none, and holds only
/// elements of the sequence.
pub(crate) proof fn lemma_filter_no_dup<A>(s: Seq<A>, p: spec_fn(A) -> bool)
    requires
        s.no_duplicates(),
    ensures
        s.filter(p).no_duplicates(),
        forall|x: A| #[trigger] s.filter(p).contains(x) ==> s.contains(x) && p(x),
    decreases s.len(),
{
    if s.len() == 0 {
        reveal(Seq::filter);
    } else {
        let t = s.drop_last();
        let x = s.last();
        assert(s =~= t.push(x));
        assert(t.no_duplicates()) by {
            assert forall|i: int, j: int| 0 <= i < j < t.len() implies t[i] != t[j] by {
                assert(s[i] == t[i] && s[j] == t[j]);
            }
        }
        lemma_filter_no_dup(t, p);
        t.lemma_filter_push(x, p);
        assert(!t.contains(x)) by {
            if t.contains(x) {
                let i = choose|i: int| 0 <= i < t.len() && t[i] == x;
                assert(s[i] == s[s.len() - 1]);
            }
        }
        let f = t.filter(p);
        if p(x) {
            assert forall|i: int, j: int| 0 <= i < j < f.push(x).len() implies f.push(x)[i] != f.push(x)[j] by {
                if j == f.len() {
                    assert(f.contains(f[i]));
                }
            }
        }
        assert forall|y: A| #[trigger] s.filter(p).contains(y) implies s.contains(y) && p(y) by {
            if y != x || !p(x) {
                if s.filter(p).contains(y) {
                    let i = choose|i: int| 0 <= i < s.filter(p).len() && s.filter(p)[i] == y;
                    if p(x) && i == f.len() {
                    } else {
                        assert(f[i] == y);
                        assert(f.contains(y));
                        let j = choose|j: int| 0 <= j < t.len() && t[j] == y;
                        assert(s[j] == y);
                    }
                }
            } else {
                assert(s[s.len() - 1] == x);
            }
        }
    }
}

/// `v` with every occurrence of `o` left out, in order.
fn retain_other_owner(v: &Vec<OwnerId>, o: OwnerId) -> (r: Vec<OwnerId>)
    ensures
        r@ == v@.filter(other_owner(o)),
{
    let mut r: Vec<OwnerId> = Vec::new();
    let mut i: usize = 0;
    while i < v.len()
        invariant
            i <= v@.len(),
            r@ == v@.subrange(0, i as int).filter(other_owner(o)),
        decreases v@.len() - i,
    {
        proof {
            v@.subrange(0, i as int).lemma_filter_push(v@[i as int], other_owner(o));
            assert(v@.subrange(0, i + 1) =~= v@.subrange(0, i as int).push(v@[i as int]));
        }
        if v[i] != o {
            r.push(v[i]);
        }
        i = i + 1;
    }
    proof {
        assert(v@.subrange(0, v@.len() as int) =~= v@);
    }
    r
}

/// A chain from an owner's parent extends to the owner.
proof fn lemma_owner_reaches_up(owners: Map<u64, OwnerView>, c: u64, p: u64, a: u64, k: nat)
    requires
        owners.dom().contains(c),
        owners.dom().contains(p),
        owners[c].parent == Some(OwnerId { raw: p }),
        owners[p].children.contains(OwnerId { raw: c }),
        owner_reaches(owners, p, a, k),
    ensures
        owner_reaches(owners, c, a, k + 1),
{
}

/// An owner other than `a` whose chain reaches `a` does so through a
/// child of `a`.
proof fn lemma_owner_reaches_down(owners: Map<u64, OwnerView>, m: u64, a: u64, k: nat) -> (c: u64)
    requires
        owner_reaches(owners, m, a, k),
        m != a,
    ensures
        owners.dom().contains(c),
        owners.dom().contains(a),
        owners[c].parent == Some(OwnerId { raw: a }),
        owners[a].children.contains(OwnerId { raw: c }),
        owner_reaches(owners, m, c, (k - 1) as nat),
        k > 0,
    decreases k,
{
    let p = owners[m].parent->0.raw;
    if p == a {
        m
    } else {
        let c = lemma_owner_reaches_down(owners, p, a, (k - 1) as nat);
        lemma_owner_reaches_up(owners, m, p, c, (k - 2) as nat);
        c
    }
}

/// Every owner below `a` that is not yet taken has an ancestor-or-self on
/// the stack, when every child of a taken owner is taken or stacked.
proof fn lemma_owner_stacked(
    owners: Map<u64, OwnerView>,
    gone: Set<u64>,
    stack: Seq<OwnerId>,
    m: u64,
    a: u64,
    k: nat,
)
    requires
        owner_reaches(owners, m, a, k),
        !gone.contains(m),
        gone.contains(a) || stack.contains(OwnerId { raw: a }),
        forall|r: u64, j: int|
            #[trigger] gone.contains(r) && 0 <= j < owners[r].children.len() ==> gone.contains(
                #[trigger] owners[r].children[j].raw,
            ) || stack.contains(owners[r].children[j]),
    ensures
        exists|x: OwnerId| #[trigger] stack.contains(x) && under_owner(owners, m, x.raw),
    decreases k,
{
    if stack.contains(OwnerId { raw: a }) {
        assert(under_owner(owners, m, a));
        assert(stack.contains(OwnerId { raw: a }) && under_owner(owners, m, OwnerId { raw: a }.raw));
    } else {
        let c = lemma_owner_reaches_down(owners, m, a, k);
        let ks = owners[a].children;
        let j = choose|j: int| 0 <= j < ks.len() && ks[j] == OwnerId { raw: c };
        assert(gone.contains(ks[j].raw) || stack.contains(ks[j]));
        lemma_owner_stacked(owners, gone, stack, m, c, (k - 1) as nat);
    }
}

/// A slot-keyed map stays slot-keyed on any part of its keys.
proof fn lemma_slot_keyed_sub<V, W>(m: Map<u64, V>, m2: Map<u64, W>)
    requires
        slot_keyed(m),
        m2.dom().subset_of(m.dom()),
    ensures
        slot_keyed(m2),
{
    vstd::set_lib::lemma_set_subset_finite(m.dom(), m2.dom());
}

/// One more computation disposed keeps the running description of a
/// disposal exact.
proof fn lemma_drop_step(
    g: GraphView,
    s0: Map<u64, Seq<ComputationId>>,
    c0: Map<u64, ComputationView>,
    x: Set<u64>,
    c: ComputationId,
)
    requires
        g.computations == c0.remove_keys(x),
        g.signals == signals_after(s0, c0, x, Set::empty()),
    ensures
        drop_computation(g, c).computations == c0.remove_keys(x.insert(c.raw)),
        drop_computation(g, c).signals == signals_after(s0, c0, x.insert(c.raw), Set::empty()),
{
    let x2 = x.insert(c.raw);
    let g2 = drop_computation(g, c);
    if g.computations.dom().contains(c.raw) {
        assert(c0.dom().contains(c.raw) && !x.contains(c.raw));
        let deps = c0[c.raw].deps;
        assert(g.computations[c.raw] == c0[c.raw]);
        assert(g2.computations =~= c0.remove_keys(x2));
        assert forall|s: u64| #[trigger] g2.signals.dom().contains(s) implies g2.signals[s]
            == signals_after(s0, c0, x2, Set::empty())[s] by {
            let px = survives(c0, x, s);
            let px2 = survives(c0, x2, s);
            if deps.contains(SignalId { raw: s }) {
                lemma_filter_twice(s0[s], px, other_than(c));
                assert(both(px, other_than(c)) =~= px2);
            } else {
                assert(px =~= px2);
            }
        }
        assert(g2.signals =~= signals_after(s0, c0, x2, Set::empty()));
    } else {
        assert forall|s: u64| #[trigger] s0.dom().contains(s) implies survives(c0, x, s) =~= survives(c0, x2, s) by {
        }
        assert(g2.signals =~= signals_after(s0, c0, x2, Set::empty()));
        assert(g2.computations =~= c0.remove_keys(x2));
    }
}

/// What a disposal leaves keeps the invariant.
proof fn lemma_dispose_wf(g: GraphView, o: u64)
    requires
        graph_wf(g),
        g.owners.dom().contains(o),
    ensures
        graph_wf(dispose_view(g, o)),
{
    let d = owner_subtree(g.owners, o);
    let f = dispose_view(g, o);
    let owners = g.owners;
    let root = g.root.raw;
    assert(d.contains(o)) by {
        assert(owner_reaches(owners, o, o, 0));
    }
    lemma_slot_keyed_sub(g.computations, f.computations);
    lemma_slot_keyed_sub(g.signals, f.signals);
    assert(f.owners.dom().subset_of(owners.dom()));
    lemma_slot_keyed_sub(owners, f.owners);
    if o != root {
        assert(!d.contains(root)) by {
            if d.contains(root) {
                let k = choose|k: nat| owner_reaches(owners, root, o, k);
            }
        }
    }
    // a child of an owner that stays, other than `o`, stays
    assert forall|n: u64, i: int|
        #[trigger] owners.dom().contains(n) && !d.contains(n) && 0 <= i < owners[n].children.len()
            && owners[n].children[i].raw != o implies !d.contains(#[trigger] owners[n].children[i].raw) by {
        let c = owners[n].children[i].raw;
        assert(owner_children_ok(owners, n));
        if d.contains(c) {
            let k = choose|k: nat| owner_reaches(owners, c, o, k);
            assert(owners[n].children.contains(OwnerId { raw: c }));
            assert(owner_reaches(owners, n, o, (k - 1) as nat));
            assert(under_owner(owners, n, o));
        }
    }
    assert forall|n: u64| #[trigger] f.owners.dom().contains(n) implies owner_children_ok(f.owners, n) by {
        assert(owner_children_ok(owners, n));
        if o == root && n == root {
        } else {
            assert(!d.contains(n));
            let ks = f.owners[n].children;
            let is_p = o != root && owners[o].parent == Some(OwnerId { raw: n });
            if is_p {
                lemma_filter_no_dup(owners[n].children, other_owner(OwnerId { raw: o }));
            } else {
                assert(ks == owners[n].children);
            }
            assert forall|i: int| 0 <= i < ks.len() implies f.owners.dom().contains(#[trigger] ks[i].raw)
                && f.owners[ks[i].raw].parent == Some(OwnerId { raw: n }) by {
                let c = ks[i];
                assert(ks.contains(c));
                assert(owners[n].children.contains(c));
                let j = choose|j: int| 0 <= j < owners[n].children.len() && owners[n].children[j] == c;
                assert(owners.dom().contains(c.raw));
                assert(owners[c.raw].parent == Some(OwnerId { raw: n }));
                if c.raw == o {
                    assert(owners[o].parent == Some(OwnerId { raw: n }));
                    if o == root {
                    } else {
                        assert(is_p);
                        assert(other_owner(OwnerId { raw: o })(c));
                    }
                }
                assert(!d.contains(c.raw));
            }
        }
    }
}


/// Taking `c` out of a list it was already taken out of changes nothing.
proof fn lemma_without_twice(s: Seq<ComputationId>, c: ComputationId)
    ensures
        without_comp(without_comp(s, c), c) == without_comp(s, c),
{
    lemma_filter_twice(s, other_than(c), other_than(c));
    assert(both(other_than(c), other_than(c)) =~= other_than(c));
}

impl ReactiveGraph {
    /// Every live signal among `deps` loses `c` from its subscribers.
    fn unsubscribe_all(&mut self, c: ComputationId, deps: &Vec<SignalId>)
        requires
            old(self).wf(),
        ensures
            final(self).wf(),
            final(self)@ == (GraphView { signals: unsubscribe(old(self)@.signals, c, deps@), ..old(self)@ }),
    {
        let ghost g0 = self@;
        proof {
            self.lemma_view();
            assert(g0.signals =~= unsubscribe(g0.signals, c, deps@.subrange(0, 0)));
        }
        let mut i: usize = 0;
        while i < deps.len()
            invariant
                i <= deps@.len(),
                graph_wf(g0),
                self.wf(),
                self@ == (GraphView { signals: unsubscribe(g0.signals, c, deps@.subrange(0, i as int)), ..g0 }),
            decreases deps@.len() - i,
        {
            let d = deps[i];
            let ghost before = self@;
            let ghost pre = deps@.subrange(0, i as int);
            let ghost post = deps@.subrange(0, i + 1);
            proof {
                assert(post =~= pre.push(d));
                assert forall|s: u64| #[trigger] post.contains(SignalId { raw: s }) <==> pre.contains(SignalId { raw: s }) || d.raw == s by {
                    if post.contains(SignalId { raw: s }) && d.raw != s {
                        let j = choose|j: int| 0 <= j < post.len() && post[j] == SignalId { raw: s };
                        assert(pre[j] == SignalId { raw: s });
                    }
                    if pre.contains(SignalId { raw: s }) {
                        let j = choose|j: int| 0 <= j < pre.len() && pre[j] == SignalId { raw: s };
                        assert(post[j] == SignalId { raw: s });
                    }
                    if d.raw == s {
                        assert(post[i as int] == d);
                    }
                }
            }
            if self.has_signal(d) {
                proof {
                    self.lemma_view();
                }
                let node = signal_slots_get_mut(&mut self.signals, d.raw);
                let kept = retain_other(&node.subscribers, c);
                node.subscribers = kept;
                proof {
                    self.lemma_view();
                    if pre.contains(d) {
                        lemma_without_twice(g0.signals[d.raw], c);
                    }
                    assert(self@.signals =~= unsubscribe(g0.signals, c, post));
                    assert(self@.computations =~= before.computations);
                    assert(self@.owners =~= before.owners);
                    lemma_slot_keyed_sub(before.signals, self@.signals);
                }
            } else {
                proof {
                    assert(unsubscribe(g0.signals, c, post) =~= unsubscribe(g0.signals, c, pre));
                }
            }
            i = i + 1;
        }
        proof {
            assert(deps@.subrange(0, i as int) =~= deps@);
        }
    }

    /// `dispose_computation`: a live computation leaves the graph and the
    /// subscriber lists of its dependencies.
    fn dispose_computation(&mut self, c: ComputationId)
        requires
            old(self).wf(),
        ensures
            final(self).wf(),
            final(self)@ == drop_computation(old(self)@, c),
    {
        let ghost g0 = self@;
        if !self.has_computation_key(c) {
            return;
        }
        proof {
            self.lemma_view();
        }
        match computation_slots_remove(&mut self.computations, c.raw) {
            Some(comp) => {
                let ghost g1 = self@;
                proof {
                    self.lemma_view();
                    assert(comp@ == g0.computations[c.raw]);
                    assert(g1.computations =~= g0.computations.remove(c.raw));
                    lemma_slot_keyed_sub(g0.computations, g1.computations);
                    assert(g1.owners == g0.owners);
                }
                self.unsubscribe_all(c, &comp.deps);
            },
            None => {},
        }
    }

    /// Takes the computation at the front of the queue. One that is live
    /// and not disposed is no longer queued and forgets its dependencies.
    /// Where it is not among `running`, whose runs are under way, it is to
    /// run now, and the signals it read no longer list it, to be read
    /// afresh; where it is, the signals keep listing it.
    pub fn flush_step(&mut self, running: &Vec<ComputationId>) -> (r: FlushStep)
        requires
            old(self).wf(),
        ensures
            final(self).wf(),
            old(self)@.queue.len() == 0 ==> r == FlushStep::Idle && final(self)@ == old(self)@,
            old(self)@.queue.len() > 0 ==> ({
                let c = old(self)@.queue[0];
                let g1 = GraphView { queue: old(self)@.queue.drop_first(), ..old(self)@ };
                if active(old(self)@, c) && running@.contains(c) {
                    &&& r == FlushStep::Busy(c)
                    &&& final(self)@ == start_busy(g1, c)
                } else if active(old(self)@, c) {
                    &&& r == FlushStep::Run(c, old(self)@.computations[c.raw].owner)
                    &&& final(self)@ == start_run(g1, c)
                } else {
                    r == FlushStep::Skipped(c) && final(self)@ == g1
                }
            }),
    {
        let ghost g0 = self@;
        let c = match self.queue.pop_front() {
            Some(c) => c,
            None => {
                return FlushStep::Idle;
            },
        };
        proof {
            self.lemma_view();
            assert(self@.queue =~= g0.queue.drop_first());
        }
        if !self.is_active(c) {
            return FlushStep::Skipped(c);
        }
        let ghost g1 = self@;
        let comp = computation_slots_get_mut(&mut self.computations, c.raw);
        comp.queued = false;
        let mut deps: Vec<SignalId> = Vec::new();
        std::mem::swap(&mut deps, &mut comp.deps);
        let owner = comp.owner;
        proof {
            self.lemma_view();
            assert(deps@ == g0.computations[c.raw].deps);
            assert(self@.computations =~= g1.computations.insert(
                c.raw,
                ComputationView { deps: Seq::empty(), queued: false, ..g1.computations[c.raw] },
            ));
            lemma_slot_keyed_sub(g1.computations, self@.computations);
        }
        if has_computation(running, c) {
            return FlushStep::Busy(c);
        }
        self.unsubscribe_all(c, &deps);
        FlushStep::Run(c, owner)
    }

    /// Disposes `owner`: it goes with every owner below it, the
    /// computations and signals they list, and those computations'
    /// subscriptions; its parent no longer lists it. The root owner stays,
    /// marked disposed with its lists emptied. Nothing happens where
    /// `owner` is not live.
    pub fn dispose_owner(&mut self, owner: OwnerId)
        requires
            old(self).wf(),
        ensures
            final(self).wf(),
            final(self)@ == dispose_view(old(self)@, owner.raw),
    {
        let ghost g0 = self@;
        let ghost o0 = g0.owners;
        proof {
            self.lemma_view();
        }
        if !self.has_owner(owner) {
            return;
        }
        let parent = match owner_slots_get(&self.owners, owner.raw) {
            Some(ow) => ow.parent,
            None => None,
        };
        let is_root = owner == self.root_owner;
        let ghost st = owner_subtree(o0, owner.raw);
        let ghost root = g0.root.raw;
        proof {
            assert(st.contains(owner.raw)) by {
                assert(owner_reaches(o0, owner.raw, owner.raw, 0));
            }
            if !is_root {
                assert(!st.contains(root)) by {
                    if st.contains(root) {
                        let k = choose|k: nat| owner_reaches(o0, root, owner.raw, k);
                    }
                }
            }
        }
        let mut comps: Vec<ComputationId> = Vec::new();
        let mut sigs: Vec<SignalId> = Vec::new();
        let mut stack: Vec<OwnerId> = Vec::new();
        let ghost mut gone: Set<u64> = Set::empty();
        if is_root {
            let r = owner_slots_get_mut(&mut self.owners, owner.raw);
            std::mem::swap(&mut stack, &mut r.children);
            std::mem::swap(&mut comps, &mut r.computations);
            std::mem::swap(&mut sigs, &mut r.signals);
            r.disposed = true;
            proof {
                self.lemma_view();
                gone = Set::empty().insert(owner.raw);
                assert(self@.owners =~= o0.remove_keys(gone).insert(owner.raw, cleared_owner(o0[owner.raw])));
                assert(stack@ == o0[owner.raw].children);
                assert forall|c: ComputationId| comps@.contains(c) <==> exists|r: u64| #[trigger] gone.contains(r) && o0[r].computations.contains(c) by {
                    if comps@.contains(c) {
                        assert(gone.contains(owner.raw));
                    }
                }
                assert forall|s: SignalId| sigs@.contains(s) <==> exists|r: u64| #[trigger] gone.contains(r) && o0[r].signals.contains(s) by {
                    if sigs@.contains(s) {
                        assert(gone.contains(owner.raw));
                    }
                }
                assert forall|r: u64, j: int|
                    #[trigger] gone.contains(r) && 0 <= j < o0[r].children.len() implies gone.contains(
                        #[trigger] o0[r].children[j].raw,
                    ) || stack@.contains(o0[r].children[j]) by {
                    assert(stack@[j] == o0[r].children[j]);
                }
                assert(owner_children_ok(o0, owner.raw));
                assert forall|i: int| 0 <= i < stack@.len() implies st.contains(#[trigger] stack@[i].raw) by {
                    let c = stack@[i].raw;
                    assert(o0.dom().contains(c));
                    assert(o0[owner.raw].children.contains(stack@[i]));
                    lemma_owner_reaches_up(o0, c, owner.raw, owner.raw, 0);
                    assert(under_owner(o0, c, owner.raw));
                }
            }
        } else {
            stack.push(owner);
            proof {
                assert(stack@[0] == owner);
                assert(self@.owners =~= o0.remove_keys(gone));
            }
        }
        while stack.len() > 0
            invariant
                graph_wf(g0),
                o0 == g0.owners,
                root == g0.root.raw,
                st == owner_subtree(o0, owner.raw),
                st.contains(owner.raw),
                is_root == (owner.raw == root),
                !is_root ==> !st.contains(root),
                is_root ==> gone.contains(owner.raw),
                gone.subset_of(st),
                self@.owners == (if is_root {
                    o0.remove_keys(gone).insert(owner.raw, cleared_owner(o0[owner.raw]))
                } else {
                    o0.remove_keys(gone)
                }),
                self@.signals == g0.signals,
                self@.computations == g0.computations,
                self@.root == g0.root,
                self@.queue == g0.queue,
                self@.batch_depth == g0.batch_depth,
                owner_slots(self.owners).dom() == self@.owners.dom(),
                forall|k: u64| #[trigger] self@.owners.dom().contains(k) ==> self@.owners[k] == owner_slots(self.owners)[k]@,
                forall|i: int| 0 <= i < stack@.len() ==> st.contains(#[trigger] stack@[i].raw),
                forall|r: u64, j: int|
                    #[trigger] gone.contains(r) && 0 <= j < o0[r].children.len() ==> gone.contains(
                        #[trigger] o0[r].children[j].raw,
                    ) || stack@.contains(o0[r].children[j]),
                gone.contains(owner.raw) || stack@.contains(owner),
                forall|c: ComputationId| comps@.contains(c) <==> exists|r: u64| #[trigger] gone.contains(r) && o0[r].computations.contains(c),
                forall|s: SignalId| sigs@.contains(s) <==> exists|r: u64| #[trigger] gone.contains(r) && o0[r].signals.contains(s),
            decreases st.len() - gone.len(), stack@.len(),
        {
            let ghost stack0 = stack@;
            let x = stack.pop().unwrap();
            let ghost stack_rest = stack@;
            proof {
                assert(stack0 == stack_rest.push(x));
                assert(stack0[stack0.len() - 1] == x);
                assert(st.contains(x.raw));
                vstd::set_lib::lemma_set_subset_finite(o0.dom(), st);
                vstd::set_lib::lemma_len_subset(gone, st);
            }
            if x == self.root_owner {
                proof {
                    assert(gone.contains(x.raw));
                    assert forall|r: u64, jj: int|
                        #[trigger] gone.contains(r) && 0 <= jj < o0[r].children.len() implies gone.contains(
                            #[trigger] o0[r].children[jj].raw,
                        ) || stack@.contains(o0[r].children[jj]) by {
                        let c = o0[r].children[jj];
                        if !gone.contains(c.raw) {
                            assert(stack0.contains(c));
                            let q = choose|q: int| 0 <= q < stack0.len() && stack0[q] == c;
                            if q < stack_rest.len() {
                                assert(stack@[q] == c);
                            }
                        }
                    }
                    if !gone.contains(owner.raw) {
                        let q = choose|q: int| 0 <= q < stack0.len() && stack0[q] == owner;
                        assert(stack@[q] == owner);
                    }
                }
            } else {
                proof {
                    assert(slot_keyed(o0));
                    assert(o0.dom().contains(x.raw));
                }
                let ghost before = self@;
                match owner_slots_remove(&mut self.owners, x.raw) {
                    Some(mut ow) => {
                        let ghost comps0 = comps@;
                        let ghost sigs0 = sigs@;
                        proof {
                            assert(before.owners.dom().contains(x.raw));
                            assert(!gone.contains(x.raw));
                            assert(before.owners[x.raw] == ow@);
                            assert(ow@ == o0[x.raw]);
                            assert(owner_children_ok(o0, x.raw));
                        }
                        let mut j: usize = 0;
                        while j < ow.children.len()
                            invariant
                                j <= ow.children@.len(),
                                o0.dom().contains(x.raw),
                                ow.children@ == o0[x.raw].children,
                                stack@ == stack_rest + ow.children@.subrange(0, j as int),
                            decreases ow.children@.len() - j,
                        {
                            stack.push(ow.children[j]);
                            proof {
                                assert(ow.children@.subrange(0, j + 1) =~= ow.children@.subrange(0, j as int).push(ow.children@[j as int]));
                            }
                            j = j + 1;
                        }
                        comps.append(&mut ow.computations);
                        sigs.append(&mut ow.signals);
                        proof {
                            let ks = o0[x.raw].children;
                            assert(ow.children@.subrange(0, j as int) =~= ks);
                            let g2 = gone.insert(x.raw);
                            self.lemma_view();
                            assert(self@.owners =~= before.owners.remove(x.raw));
                            if is_root {
                                assert(self@.owners =~= o0.remove_keys(g2).insert(owner.raw, cleared_owner(o0[owner.raw])));
                            } else {
                                assert(self@.owners =~= o0.remove_keys(g2));
                            }
                            assert forall|i: int| 0 <= i < stack@.len() implies st.contains(#[trigger] stack@[i].raw) by {
                                if i >= stack_rest.len() {
                                    let c = ks[i - stack_rest.len()];
                                    assert(stack@[i] == c);
                                    assert(o0.dom().contains(c.raw));
                                    assert(ks.contains(c));
                                    let k = choose|k: nat| owner_reaches(o0, x.raw, owner.raw, k);
                                    lemma_owner_reaches_up(o0, c.raw, x.raw, owner.raw, k);
                                    assert(under_owner(o0, c.raw, owner.raw));
                                } else {
                                    assert(stack@[i] == stack_rest[i]);
                                }
                            }
                            assert forall|r: u64, jj: int|
                                #[trigger] g2.contains(r) && 0 <= jj < o0[r].children.len() implies g2.contains(
                                    #[trigger] o0[r].children[jj].raw,
                                ) || stack@.contains(o0[r].children[jj]) by {
                                let c = o0[r].children[jj];
                                if r == x.raw {
                                    assert(stack@[stack_rest.len() + jj] == c);
                                } else {
                                    if !gone.contains(c.raw) {
                                        assert(stack0.contains(c));
                                        let q = choose|q: int| 0 <= q < stack0.len() && stack0[q] == c;
                                        if q < stack_rest.len() {
                                            assert(stack@[q] == c);
                                        }
                                    }
                                }
                            }
                            if !gone.contains(owner.raw) && owner != x {
                                let q = choose|q: int| 0 <= q < stack0.len() && stack0[q] == owner;
                                assert(stack@[q] == owner);
                            }
                            assert forall|c: ComputationId| comps@.contains(c) <==> exists|r: u64| #[trigger] g2.contains(r) && o0[r].computations.contains(c) by {
                                assert(comps@ == comps0 + o0[x.raw].computations);
                                if comps@.contains(c) {
                                    let q = choose|q: int| 0 <= q < comps@.len() && comps@[q] == c;
                                    if q < comps0.len() {
                                        assert(comps0[q] == c);
                                        assert(comps0.contains(c));
                                        let r = choose|r: u64| #[trigger] gone.contains(r) && o0[r].computations.contains(c);
                                        assert(g2.contains(r));
                                    } else {
                                        assert(o0[x.raw].computations[q - comps0.len()] == c);
                                        assert(o0[x.raw].computations.contains(c));
                                        assert(g2.contains(x.raw));
                                    }
                                }
                                if exists|r: u64| #[trigger] g2.contains(r) && o0[r].computations.contains(c) {
                                    let r = choose|r: u64| #[trigger] g2.contains(r) && o0[r].computations.contains(c);
                                    if r == x.raw {
                                        let q = choose|q: int| 0 <= q < o0[x.raw].computations.len() && o0[x.raw].computations[q] == c;
                                        assert(comps@[comps0.len() + q] == c);
                                    } else {
                                        assert(gone.contains(r));
                                        assert(comps0.contains(c));
                                        let q = choose|q: int| 0 <= q < comps0.len() && comps0[q] == c;
                                        assert(comps@[q] == c);
                                    }
                                }
                            }
                            assert forall|s: SignalId| sigs@.contains(s) <==> exists|r: u64| #[trigger] g2.contains(r) && o0[r].signals.contains(s) by {
                                assert(sigs@ == sigs0 + o0[x.raw].signals);
                                if sigs@.contains(s) {
                                    let q = choose|q: int| 0 <= q < sigs@.len() && sigs@[q] == s;
                                    if q < sigs0.len() {
                                        assert(sigs0[q] == s);
                                        assert(sigs0.contains(s));
                                        let r = choose|r: u64| #[trigger] gone.contains(r) && o0[r].signals.contains(s);
                                        assert(g2.contains(r));
                                    } else {
                                        assert(o0[x.raw].signals[q - sigs0.len()] == s);
                                        assert(o0[x.raw].signals.contains(s));
                                        assert(g2.contains(x.raw));
                                    }
                                }
                                if exists|r: u64| #[trigger] g2.contains(r) && o0[r].signals.contains(s) {
                                    let r = choose|r: u64| #[trigger] g2.contains(r) && o0[r].signals.contains(s);
                                    if r == x.raw {
                                        let q = choose|q: int| 0 <= q < o0[x.raw].signals.len() && o0[x.raw].signals[q] == s;
                                        assert(sigs@[sigs0.len() + q] == s);
                                    } else {
                                        assert(gone.contains(r));
                                        assert(sigs0.contains(s));
                                        let q = choose|q: int| 0 <= q < sigs0.len() && sigs0[q] == s;
                                        assert(sigs@[q] == s);
                                    }
                                }
                            }
                            vstd::set_lib::lemma_len_subset(g2, st);
                            gone = g2;
                        }
                    },
                    None => {
                        proof {
                            self.lemma_view();
                            assert(!before.owners.dom().contains(x.raw));
                            assert(gone.contains(x.raw));
                            assert forall|r: u64, jj: int|
                                #[trigger] gone.contains(r) && 0 <= jj < o0[r].children.len() implies gone.contains(
                                    #[trigger] o0[r].children[jj].raw,
                                ) || stack@.contains(o0[r].children[jj]) by {
                                let c = o0[r].children[jj];
                                if !gone.contains(c.raw) {
                                    assert(stack0.contains(c));
                                    let q = choose|q: int| 0 <= q < stack0.len() && stack0[q] == c;
                                    if q < stack_rest.len() {
                                        assert(stack@[q] == c);
                                    }
                                }
                            }
                            if !gone.contains(owner.raw) {
                                let q = choose|q: int| 0 <= q < stack0.len() && stack0[q] == owner;
                                assert(stack@[q] == owner);
                            }
                            assert(self@.owners =~= before.owners);
                        }
                    },
                }
            }
        }
        let ghost cs = listed_computations(o0, st);
        let ghost ss = listed_signals(o0, st);
        proof {
            assert forall|m: u64| st.contains(m) implies gone.contains(m) by {
                if !gone.contains(m) {
                    let k = choose|k: nat| owner_reaches(o0, m, owner.raw, k);
                    lemma_owner_stacked(o0, gone, stack@, m, owner.raw, k);
                }
            }
            assert(gone =~= st);
            assert(comp_keys(comps@) =~= cs);
            assert(signal_keys(sigs@) =~= ss);
        }
        // the parent left behind no longer lists the owner
        if !is_root {
            match parent {
                Some(p) => {
                    if is_canonical(p.raw) {
                        match owner_slots_get(&self.owners, p.raw) {
                            Some(_) => {
                                let ghost before = self@;
                                let pr = owner_slots_get_mut(&mut self.owners, p.raw);
                                let kept = retain_other_owner(&pr.children, owner);
                                pr.children = kept;
                                proof {
                                    self.lemma_view();
                                    assert(self@.owners =~= before.owners.insert(
                                        p.raw,
                                        OwnerView { children: o0[p.raw].children.filter(other_owner(owner)), ..o0[p.raw] },
                                    ));
                                }
                            },
                            None => {},
                        }
                    }
                },
                None => {},
            }
        }
        proof {
            self.lemma_view();
            assert(self@.owners =~= owners_after(o0, root, owner.raw, st));
            lemma_dispose_wf(g0, owner.raw);
            assert(graph_wf(dispose_view(g0, owner.raw)));
            assert(self.wf());
        }
        // the computations of the taken owners
        let ghost gc = self@;
        proof {
            assert forall|s: u64| #[trigger] g0.signals.dom().contains(s) implies g0.signals[s].filter(
                survives(g0.computations, comp_keys(comps@.subrange(0, 0)), s),
            ) == g0.signals[s] by {
                lemma_filter_all(g0.signals[s], survives(g0.computations, comp_keys(comps@.subrange(0, 0)), s));
            }
            assert(g0.signals =~= signals_after(g0.signals, g0.computations, comp_keys(comps@.subrange(0, 0)), Set::empty()));
            assert(g0.computations =~= g0.computations.remove_keys(comp_keys(comps@.subrange(0, 0))));
        }
        let mut i: usize = 0;
        while i < comps.len()
            invariant
                i <= comps@.len(),
                self.wf(),
                self@.owners == gc.owners,
                self@.root == g0.root,
                self@.queue == g0.queue,
                self@.batch_depth == g0.batch_depth,
                self@.computations == g0.computations.remove_keys(comp_keys(comps@.subrange(0, i as int))),
                self@.signals == signals_after(g0.signals, g0.computations, comp_keys(comps@.subrange(0, i as int)), Set::empty()),
            decreases comps@.len() - i,
        {
            let c = comps[i];
            proof {
                let x = comp_keys(comps@.subrange(0, i as int));
                lemma_drop_step(self@, g0.signals, g0.computations, x, c);
                assert(comp_keys(comps@.subrange(0, i + 1)) =~= comp_keys(comps@.subrange(0, i as int)).insert(c.raw)) by {
                    let a = comps@.subrange(0, i as int);
                    let b = comps@.subrange(0, i + 1);
                    assert forall|y: u64| b.contains(ComputationId { raw: y }) <==> a.contains(ComputationId { raw: y }) || y == c.raw by {
                        if b.contains(ComputationId { raw: y }) && y != c.raw {
                            let q = choose|q: int| 0 <= q < b.len() && b[q] == ComputationId { raw: y };
                            assert(a[q] == ComputationId { raw: y });
                        }
                        if a.contains(ComputationId { raw: y }) {
                            let q = choose|q: int| 0 <= q < a.len() && a[q] == ComputationId { raw: y };
                            assert(b[q] == ComputationId { raw: y });
                        }
                        if y == c.raw {
                            assert(b[i as int] == c);
                        }
                    }
                }
            }
            self.dispose_computation(c);
            i = i + 1;
        }
        proof {
            assert(comps@.subrange(0, i as int) =~= comps@);
        }
        // the signals of the taken owners
        let ghost gs = self@.signals;
        proof {
            assert(gs =~= signals_after(g0.signals, g0.computations, cs, signal_keys(sigs@.subrange(0, 0))));
        }
        let mut i: usize = 0;
        while i < sigs.len()
            invariant
                i <= sigs@.len(),
                self.wf(),
                self@.owners == gc.owners,
                self@.root == g0.root,
                self@.queue == g0.queue,
                self@.batch_depth == g0.batch_depth,
                self@.computations == g0.computations.remove_keys(cs),
                self@.signals == signals_after(g0.signals, g0.computations, cs, signal_keys(sigs@.subrange(0, i as int))),
            decreases sigs@.len() - i,
        {
            let s = sigs[i];
            let ghost before = self@;
            proof {
                self.lemma_view();
                assert(sigs@.subrange(0, i + 1) =~= sigs@.subrange(0, i as int).push(s));
                assert(signal_keys(sigs@.subrange(0, i + 1)) =~= signal_keys(sigs@.subrange(0, i as int)).insert(s.raw)) by {
                    let a = sigs@.subrange(0, i as int);
                    let b = sigs@.subrange(0, i + 1);
                    assert forall|y: u64| b.contains(SignalId { raw: y }) <==> a.contains(SignalId { raw: y }) || y == s.raw by {
                        if b.contains(SignalId { raw: y }) && y != s.raw {
                            let q = choose|q: int| 0 <= q < b.len() && b[q] == SignalId { raw: y };
                            assert(a[q] == SignalId { raw: y });
                        }
                        if a.contains(SignalId { raw: y }) {
                            let q = choose|q: int| 0 <= q < a.len() && a[q] == SignalId { raw: y };
                            assert(b[q] == SignalId { raw: y });
                        }
                        if y == s.raw {
                            assert(b[i as int] == s);
                        }
                    }
                }
            }
            if is_canonical(s.raw) {
                let _ = signal_slots_remove(&mut self.signals, s.raw);
                proof {
                    self.lemma_view();
                    assert(self@.signals =~= before.signals.remove(s.raw));
                    lemma_slot_keyed_sub(before.signals, self@.signals);
                    assert(self@.computations =~= before.computations);
                    assert(self@.owners =~= before.owners);
                }
            } else {
                proof {
                    assert(!before.signals.dom().contains(s.raw));
                }
            }
            proof {
                assert(self@.signals =~= signals_after(g0.signals, g0.computations, cs, signal_keys(sigs@.subrange(0, i + 1))));
            }
            i = i + 1;
        }
        proof {
            assert(sigs@.subrange(0, i as int) =~= sigs@);
        }
        proof {
            self.lemma_view();
            assert(self@ == dispose_view(g0, owner.raw));
        }
    }

    /// Disposes the root owner: every owner, computation and signal goes,
    /// and the root stays, disposed and emptied.
    pub fn dispose_all(&mut self)
        requires
            old(self).wf(),
        ensures
            final(self).wf(),
            final(self)@ == dispose_view(old(self)@, old(self)@.root.raw),
    {
        let root = self.root_owner;
        self.dispose_owner(root);
    }
}


/// The computation an effect runs as.
#[derive(Clone, Copy, Debug, PartialEq, Eq, Structural)]
pub struct EffectHandle {
    pub id: ComputationId,
}

/// Makes an effect under `owner`: a new computation, listed by the owner
/// where it is live and queued to run; its callback is kept by the caller
/// under the handle's id.
pub fn effect(graph: &mut ReactiveGraph, owner: OwnerId) -> (h: EffectHandle)
    requires
        old(graph).wf(),
        old(graph)@.computations.dom().len() < 0xffff_fffe,
    ensures
        final(graph).wf(),
        !old(graph)@.computations.dom().contains(h.id.raw),
        final(graph)@ == (GraphView {
            computations: old(graph)@.computations.insert(
                h.id.raw,
                ComputationView { deps: Seq::empty(), owner, queued: true, disposed: false },
            ),
            owners: owner_add_computation(old(graph)@.owners, owner.raw, h.id),
            queue: old(graph)@.queue.push(h.id),
            ..old(graph)@
        }),
{
    let id = graph.create_computation(owner);
    EffectHandle { id }
}


/// `begin_batch`: one more open batch.
pub open spec fn batch_opened(g: GraphView) -> GraphView {
    GraphView { batch_depth: g.batch_depth + 1, ..g }
}

/// `end_batch`: one fewer open batch, never below none.
pub open spec fn batch_closed(g: GraphView) -> GraphView {
    GraphView { batch_depth: if g.batch_depth == 0 { 0 } else { (g.batch_depth - 1) as nat }, ..g }
}

/// Closing a batch undoes opening one.
pub proof fn lemma_batch_round_trip(g: GraphView)
    ensures
        batch_closed(batch_opened(g)) == g,
{
}

/// Reading a signal twice in one run subscribes once: the second read
/// changes nothing.
pub proof fn lemma_track_twice(g: GraphView, c: ComputationId, s: SignalId)
    ensures
        track_view(track_view(g, c, s), c, s) == track_view(g, c, s),
{
    let g1 = track_view(g, c, s);
    if g.signals.dom().contains(s.raw) {
        assert(g1.signals[s.raw].contains(c)) by {
            if !g.signals[s.raw].contains(c) {
                assert(g1.signals[s.raw] == g.signals[s.raw].push(c));
                assert(g1.signals[s.raw][g.signals[s.raw].len() as int] == c);
            }
        }
        if g.computations.dom().contains(c.raw) {
            assert(g1.computations[c.raw].deps.contains(s)) by {
                if !g.computations[c.raw].deps.contains(s) {
                    let d = g.computations[c.raw].deps;
                    assert(g1.computations[c.raw].deps == d.push(s));
                    assert(d.push(s)[d.len() as int] == s);
                }
            }
        }
        assert(track_view(g1, c, s).signals =~= g1.signals);
        assert(track_view(g1, c, s).computations =~= g1.computations);
    }
}

/// What queueing each of `cs` does to one computation `c` that is active
/// and not queued at the start: it stays active, it is queued once it is
/// in the queue's new part, and it is queued if it is one of `cs`.
proof fn lemma_enqueue_all_one(g: GraphView, cs: Seq<ComputationId>, c: ComputationId)
    requires
        active(g, c),
        !g.computations[c.raw].queued,
    ensures
        active(enqueue_all(g, cs), c),
        enqueue_all(g, cs).computations[c.raw].queued ==> enqueue_all(g, cs).queue.contains(c),
        cs.contains(c) ==> enqueue_all(g, cs).computations[c.raw].queued,
    decreases cs.len(),
{
    if cs.len() > 0 {
        let t = cs.drop_last();
        let x = cs.last();
        let g1 = enqueue_all(g, t);
        lemma_enqueue_all_one(g, t, c);
        let g2 = enqueue_all(g, cs);
        assert(g2 == enqueue_view(g1, x));
        if g1.queue.contains(c) {
            let i = choose|i: int| 0 <= i < g1.queue.len() && g1.queue[i] == c;
            assert(g2.queue[i] == c);
        }
        if x == c {
            if !g1.computations[c.raw].queued {
                assert(g2.queue[g1.queue.len() as int] == c);
            }
        } else {
            if cs.contains(c) {
                let i = choose|i: int| 0 <= i < cs.len() && cs[i] == c;
                assert(t[i] == c);
            }
        }
    }
}

/// A computation that read a signal runs again when the signal changes:
/// where it is active and not queued, a read of the live signal `s`
/// followed by marking `s` changed puts it in the queue, marked queued.
pub proof fn lemma_read_then_change_requeues(g: GraphView, c: ComputationId, s: SignalId)
    requires
        g.signals.dom().contains(s.raw),
        active(g, c),
        !g.computations[c.raw].queued,
    ensures
        ({
            let g1 = track_view(g, c, s);
            let g2 = enqueue_all(g1, g1.signals[s.raw]);
            &&& g2.queue.contains(c)
            &&& g2.computations[c.raw].queued
        }),
{
    let g1 = track_view(g, c, s);
    assert(g1.signals[s.raw].contains(c)) by {
        if !g.signals[s.raw].contains(c) {
            assert(g1.signals[s.raw][g.signals[s.raw].len() as int] == c);
        }
    }
    lemma_enqueue_all_one(g1, g1.signals[s.raw], c);
}

/// The queue and the queued marks agree: no computation waits twice, a
/// waiting computation that is active is marked queued, and an active
/// computation marked queued is waiting.
pub open spec fn queue_ok(g: GraphView) -> bool {
    &&& g.queue.no_duplicates()
    &&& forall|i: int| 0 <= i < g.queue.len() && active(g, #[trigger] g.queue[i]) ==> g.computations[g.queue[i].raw].queued
    &&& forall|c: ComputationId| active(g, c) && #[trigger] g.computations[c.raw].queued ==> g.queue.contains(c)
}

/// Queueing one computation keeps the queue and the marks in step.
proof fn lemma_enqueue_queue_ok(g: GraphView, c: ComputationId)
    requires
        queue_ok(g),
    ensures
        queue_ok(enqueue_view(g, c)),
{
    let g2 = enqueue_view(g, c);
    if active(g, c) && !g.computations[c.raw].queued {
        assert(!g.queue.contains(c)) by {
            if g.queue.contains(c) {
                let i = choose|i: int| 0 <= i < g.queue.len() && g.queue[i] == c;
                assert(active(g, g.queue[i]));
            }
        }
        assert forall|i: int, j: int| 0 <= i < j < g2.queue.len() implies g2.queue[i] != g2.queue[j] by {
            if j == g.queue.len() {
                assert(g2.queue[i] == g.queue[i]);
            } else {
                assert(g2.queue[i] == g.queue[i] && g2.queue[j] == g.queue[j]);
            }
        }
        assert forall|i: int| 0 <= i < g2.queue.len() && active(g2, #[trigger] g2.queue[i]) implies g2.computations[g2.queue[i].raw].queued by {
            if i < g.queue.len() {
                assert(g2.queue[i] == g.queue[i]);
                if g.queue[i].raw != c.raw {
                    assert(active(g, g.queue[i]));
                }
            }
        }
        assert forall|d: ComputationId| active(g2, d) && #[trigger] g2.computations[d.raw].queued implies g2.queue.contains(d) by {
            if d == c {
                assert(g2.queue[g.queue.len() as int] == c);
            } else if d.raw == c.raw {
                assert(g2.queue[g.queue.len() as int] == c);
                assert(d == c);
            } else {
                assert(active(g, d) && g.computations[d.raw].queued);
                let i = choose|i: int| 0 <= i < g.queue.len() && g.queue[i] == d;
                assert(g2.queue[i] == d);
            }
        }
    }
}

/// However many signal changes come before a flush, each computation
/// waits in the queue at most once: queueing the subscribers of a change
/// keeps the queue free of repeats and in step with the queued marks, an
/// active computation that was waiting still waits, and an active
/// subscriber of a change waits afterwards: once, the queue having no
/// repeats.
pub proof fn lemma_changes_queue_once(g: GraphView, cs: Seq<ComputationId>)
    requires
        queue_ok(g),
    ensures
        queue_ok(enqueue_all(g, cs)),
        forall|c: ComputationId| active(g, c) && #[trigger] g.computations[c.raw].queued ==> enqueue_all(g, cs).queue.contains(c),
        forall|c: ComputationId| active(g, c) && #[trigger] cs.contains(c) ==> enqueue_all(g, cs).queue.contains(c),
        enqueue_all(g, cs).computations.dom() == g.computations.dom(),
        forall|k: u64| #[trigger] g.computations.dom().contains(k) ==> enqueue_all(g, cs).computations[k].disposed
            == g.computations[k].disposed,
    decreases cs.len(),
{
    if cs.len() > 0 {
        let g1 = enqueue_all(g, cs.drop_last());
        lemma_changes_queue_once(g, cs.drop_last());
        lemma_enqueue_queue_ok(g1, cs.last());
        let x = cs.last();
        let g2 = enqueue_all(g, cs);
        assert forall|c: ComputationId| active(g, c) && #[trigger] cs.contains(c) implies g2.queue.contains(c) by {
            assert(active(g1, c));
            if c == x {
                if g1.computations[c.raw].queued {
                    let i = choose|i: int| 0 <= i < g1.queue.len() && g1.queue[i] == c;
                    assert(g2.queue[i] == c);
                } else {
                    assert(g2.queue[g1.queue.len() as int] == c);
                }
            } else {
                let j = choose|j: int| 0 <= j < cs.len() && cs[j] == c;
                assert(j != cs.len() - 1);
                assert(cs.drop_last()[j] == c);
                assert(cs.drop_last().contains(c));
                assert(g1.queue.contains(c));
                let i = choose|i: int| 0 <= i < g1.queue.len() && g1.queue[i] == c;
                assert(g2.queue[i] == c);
            }
        }
        assert forall|c: ComputationId| active(g, c) && #[trigger] g.computations[c.raw].queued implies enqueue_all(g, cs).queue.contains(c) by {
            assert(g1.queue.contains(c));
            let i = choose|i: int| 0 <= i < g1.queue.len() && g1.queue[i] == c;
            assert(enqueue_all(g, cs).queue[i] == c);
        }
    }
}

/// Queueing keeps the queue's old part, and what it adds are distinct
/// computations of `cs` that were active and not queued before, and are
/// queued now.
pub proof fn lemma_change_queues_each_once(g: GraphView, cs: Seq<ComputationId>)
    ensures
        ({
            let g2 = enqueue_all(g, cs);
            let n = g.queue.len() as int;
            &&& g2.queue.len() >= n
            &&& g2.queue.subrange(0, n) == g.queue
            &&& g2.queue.subrange(n, g2.queue.len() as int).no_duplicates()
            &&& g2.computations.dom() == g.computations.dom()
            &&& forall|i: int| n <= i < g2.queue.len() ==> {
                &&& cs.contains(#[trigger] g2.queue[i])
                &&& active(g, g2.queue[i])
                &&& !g.computations[g2.queue[i].raw].queued
                &&& g2.computations[g2.queue[i].raw].queued
            }
        }),
    decreases cs.len(),
{
    let n = g.queue.len() as int;
    if cs.len() == 0 {
        assert(g.queue.subrange(0, n) =~= g.queue);
    } else {
        let t = cs.drop_last();
        let x = cs.last();
        lemma_change_queues_each_once(g, t);
        let g1 = enqueue_all(g, t);
        let g2 = enqueue_all(g, cs);
        assert(g2 == enqueue_view(g1, x));
        assert forall|i: int| n <= i < g1.queue.len() implies cs.contains(#[trigger] g1.queue[i]) by {
            let y = g1.queue[i];
            assert(t.contains(y));
            let j = choose|j: int| 0 <= j < t.len() && t[j] == y;
            assert(cs[j] == y);
        }
        if g1.computations.dom().contains(x.raw) && !g1.computations[x.raw].disposed && !g1.computations[x.raw].queued {
            assert(g2.queue =~= g1.queue.push(x));
            assert(g2.queue.subrange(0, n) =~= g1.queue.subrange(0, n));
            let old_new = g1.queue.subrange(n, g1.queue.len() as int);
            assert(g2.queue.subrange(n, g2.queue.len() as int) =~= old_new.push(x));
            assert(!old_new.contains(x)) by {
                if old_new.contains(x) {
                    let j = choose|j: int| 0 <= j < old_new.len() && old_new[j] == x;
                    assert(g1.queue[n + j] == x);
                }
            }
            assert forall|a: int, b: int| 0 <= a < b < old_new.push(x).len() implies old_new.push(x)[a] != old_new.push(x)[b] by {
                if b == old_new.len() {
                    assert(old_new.contains(old_new[a]));
                }
            }
            assert(cs.contains(x)) by {
                assert(cs[cs.len() - 1] == x);
            }
            assert(g1.computations[x.raw].disposed == g.computations[x.raw].disposed) by {
                lemma_enqueue_keeps_flags(g, t, x);
            }
            assert(!g.computations[x.raw].queued) by {
                lemma_enqueue_keeps_flags(g, t, x);
            }
            assert forall|i: int| n <= i < g2.queue.len() implies g2.computations[g2.queue[i].raw].queued by {
                if i < g1.queue.len() {
                    assert(g1.computations[g1.queue[i].raw].queued);
                }
            }
            assert(g2.computations.dom() =~= g1.computations.dom());
        } else {
            assert(g2 == g1);
        }
    }
}

/// Queueing never changes whether a computation is disposed, and a
/// computation it leaves unqueued was unqueued before.
proof fn lemma_enqueue_keeps_flags(g: GraphView, cs: Seq<ComputationId>, x: ComputationId)
    requires
        g.computations.dom().contains(x.raw),
    ensures
        enqueue_all(g, cs).computations.dom().contains(x.raw),
        enqueue_all(g, cs).computations[x.raw].disposed == g.computations[x.raw].disposed,
        enqueue_all(g, cs).computations[x.raw].deps == g.computations[x.raw].deps,
        enqueue_all(g, cs).computations[x.raw].owner == g.computations[x.raw].owner,
        g.computations[x.raw].queued ==> enqueue_all(g, cs).computations[x.raw].queued,
        !enqueue_all(g, cs).computations[x.raw].queued ==> !g.computations[x.raw].queued,
    decreases cs.len(),
{
    if cs.len() > 0 {
        lemma_enqueue_keeps_flags(g, cs.drop_last(), x);
    }
}

/// A disposed owner takes its whole subtree with it: no owner below it
/// but the root is live afterwards, none of their computations is live
/// (so none runs again), none of their signals is live, and no signal
/// that stays keeps a disposed computation that depended on it as a
/// subscriber.
pub proof fn lemma_dispose_takes_subtree(g: GraphView, o: u64)
    requires
        graph_wf(g),
        g.owners.dom().contains(o),
    ensures
        ({
            let f = dispose_view(g, o);
            let d = owner_subtree(g.owners, o);
            let cs = listed_computations(g.owners, d);
            let ss = listed_signals(g.owners, d);
            &&& forall|m: u64| #[trigger] d.contains(m) && m != g.root.raw ==> !f.owners.dom().contains(m)
            &&& forall|c: ComputationId| #[trigger] cs.contains(c.raw) ==> !active(f, c)
            &&& forall|s: u64| #[trigger] ss.contains(s) ==> !f.signals.dom().contains(s)
            &&& forall|s: u64, i: int| #[trigger] f.signals.dom().contains(s) && 0 <= i < f.signals[s].len()
                ==> !(cs.contains(#[trigger] f.signals[s][i].raw) && g.computations.dom().contains(f.signals[s][i].raw)
                && g.computations[f.signals[s][i].raw].deps.contains(SignalId { raw: s }))
            &&& f.queue == g.queue
            &&& f.root == g.root
        }),
{
    let f = dispose_view(g, o);
    let d = owner_subtree(g.owners, o);
    let cs = listed_computations(g.owners, d);
    assert forall|s: u64, i: int| #[trigger] f.signals.dom().contains(s) && 0 <= i < f.signals[s].len()
        implies !(cs.contains(#[trigger] f.signals[s][i].raw) && g.computations.dom().contains(f.signals[s][i].raw)
        && g.computations[f.signals[s][i].raw].deps.contains(SignalId { raw: s })) by {
        g.signals[s].lemma_filter_pred(survives(g.computations, cs, s), i);
    }
}

} // verus!
