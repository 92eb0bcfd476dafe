//! Native resize subscriptions over completed layouts.
//!
//! Layout computation publishes snapshots; observers compare the latest
//! snapshot's sizes with what they last reported. The host wakes, prepares
//! deliveries and runs callbacks; this module decides what is due and when
//! the host should wake. Sizes are compared by the bit patterns of their
//! canonical floating-point values.

use std::collections::HashMap;
use vstd::prelude::*;

use crate::dom::{Dom, DomError};
use crate::node_id::{canonical_raw, NodeId};
use crate::slots::{
    observer_slots, observers_clear, observers_get, observers_insert, observers_keys, observers_len,
    observers_new, observers_remove, observers_set, ObserverSlots,
};

verus! {

broadcast use vstd::std_specs::hash::group_hash_axioms;

/// A measured size in logical pixels: the bit patterns of its width and
/// height, with negative zero folded into zero so that equal sizes have
/// equal bits.
#[derive(Clone, Copy, Debug, PartialEq, Eq, Structural)]
pub struct SizeBits {
    pub width: u32,
    pub height: u32,
}

/// The size of a target without a box.
pub open spec fn zero_size() -> SizeBits {
    SizeBits { width: 0, height: 0 }
}

/// An owned measurement of one target.
#[derive(Clone, Copy, Debug, PartialEq, Eq, Structural)]
pub struct ResizeObserverEntry {
    pub target: NodeId,
    pub size: SizeBits,
}

/// Why an observer operation failed.
#[derive(Clone, Copy, Debug, PartialEq, Eq, Structural)]
pub enum ResizeObserverError {
    /// The observer is closed.
    Closed,
    /// The target is not a live element.
    InvalidTarget(DomError),
}

/// The slot key of one observer.
#[derive(Clone, Copy, Debug, PartialEq, Eq, Structural)]
pub struct ObserverKey {
    pub(crate) raw: u64,
}

impl ObserverKey {
    #[verifier::type_invariant]
    spec fn canonical(self) -> bool {
        canonical_raw(self.raw) == self.raw
    }

    pub closed spec fn view(self) -> u64 {
        self.raw
    }
}

/// One registered target: the registration's generation and the size last
/// reported for it.
#[derive(Clone, Copy, Debug, PartialEq, Eq, Structural)]
pub struct Observation {
    pub target: NodeId,
    pub generation: u64,
    pub last: Option<SizeBits>,
}

/// One observer: its registrations and the token of its callback.
#[derive(Debug)]
pub struct ObserverState {
    pub observations: Vec<Observation>,
    pub callback: Option<u64>,
}

/// The mathematical value of an [`ObserverState`].
pub struct ObserverStateView {
    pub observations: Seq<Observation>,
    pub callback: Option<u64>,
}

impl ObserverState {
    pub open spec fn view(&self) -> ObserverStateView {
        ObserverStateView { observations: self.observations@, callback: self.callback }
    }
}

/// A completed layout: its identity, the DOM revision it measured, and the
/// size of each box keyed by the box's node.
#[derive(Debug)]
pub struct LayoutSnapshot {
    pub id: u64,
    pub revision: u64,
    pub sizes: HashMap<u64, SizeBits>,
}

/// What one observer would report from one layout: changed entries with the
/// registrations they advance.
#[derive(Debug)]
pub struct ResizeBatch {
    observer: ObserverKey,
    pub entries: Vec<ResizeObserverEntry>,
    registrations: Vec<(NodeId, u64, SizeBits)>,
    layout_id: u64,
    layout_revision: u64,
}

impl ResizeBatch {
    pub closed spec fn observer_spec(&self) -> u64 {
        self.observer@
    }

    pub closed spec fn registrations_spec(&self) -> Seq<(NodeId, u64, SizeBits)> {
        self.registrations@
    }

    pub closed spec fn layout_spec(&self) -> (u64, u64) {
        (self.layout_id, self.layout_revision)
    }

    pub closed spec fn entries_spec(&self) -> Seq<ResizeObserverEntry> {
        self.entries@
    }

    /// The entries are the registrations' targets and sizes, and no target
    /// occurs twice.
    pub open spec fn wf(&self) -> bool {
        &&& self.entries_spec() == self.registrations_spec().map_values(
            |r: (NodeId, u64, SizeBits)| ResizeObserverEntry { target: r.0, size: r.2 },
        )
        &&& forall|a: int, b: int|
            0 <= a < b < self.registrations_spec().len() ==> (#[trigger] self.registrations_spec()[a]).0
                != (#[trigger] self.registrations_spec()[b]).0
    }
}

/// A callback that is due, with the batch it would receive.
#[derive(Debug)]
pub struct NativeDelivery {
    pub callback: u64,
    pub batch: ResizeBatch,
}

/// The size a target measures in a layout: its box's size when it is
/// connected and has a box, zero otherwise.
pub open spec fn measure_spec(sizes: Map<u64, SizeBits>, target: NodeId, connected: bool) -> SizeBits {
    if connected && sizes.contains_key(target@) {
        sizes[target@]
    } else {
        zero_size()
    }
}

/// What a registration reports from a layout: nothing for a destroyed
/// target or for a detached target never reported, nothing when the size
/// did not change, and the new size otherwise.
pub open spec fn report(dom: Dom, sizes: Map<u64, SizeBits>, o: Observation) -> Option<SizeBits> {
    if !dom.contains_node(o.target) {
        None
    } else if !dom.connected(o.target) && o.last is None {
        None
    } else {
        let s = measure_spec(sizes, o.target, dom.connected(o.target));
        if o.last == Some(s) {
            None
        } else {
            Some(s)
        }
    }
}

/// A registration's report, with its target and generation.
pub open spec fn registration_of(dom: Dom, sizes: Map<u64, SizeBits>) -> spec_fn(Observation) -> Option<
    (NodeId, u64, SizeBits),
> {
    |o: Observation|
        match report(dom, sizes, o) {
            Some(s) => Some((o.target, o.generation, s)),
            None => None,
        }
}

/// The registrations of `obs` that report, in registration order.
pub open spec fn changed(dom: Dom, sizes: Map<u64, SizeBits>, obs: Seq<Observation>) -> Seq<
    (NodeId, u64, SizeBits),
> {
    obs.filter_map(registration_of(dom, sizes))
}

/// The registry of one document's resize observers.
pub struct ResizeRegistry {
    observers: ObserverSlots,
    generation: u64,
    latest: Option<LayoutSnapshot>,
    has_waker: bool,
    measurement_requested: bool,
    delivery_pending: bool,
}

impl ResizeRegistry {
    pub closed spec fn observers_spec(&self) -> Map<u64, ObserverStateView> {
        observer_slots(self.observers)
    }

    pub closed spec fn generation_spec(&self) -> u64 {
        self.generation
    }

    /// The identity and revision of the latest layout, if any.
    pub closed spec fn latest_spec(&self) -> Option<(u64, u64)> {
        match self.latest {
            Some(l) => Some((l.id, l.revision)),
            None => None,
        }
    }

    /// The box sizes of the latest layout.
    pub closed spec fn latest_sizes(&self) -> Map<u64, SizeBits> {
        match self.latest {
            Some(l) => l.sizes@,
            None => Map::empty(),
        }
    }

    pub closed spec fn has_waker_spec(&self) -> bool {
        self.has_waker
    }

    pub closed spec fn requested_spec(&self) -> bool {
        self.measurement_requested
    }

    pub closed spec fn pending_spec(&self) -> bool {
        self.delivery_pending
    }

    /// No observer registers a target twice, and every registration's
    /// generation has been handed out.
    pub open spec fn wf(&self) -> bool {
        &&& self.observers_spec().dom().finite()
        &&& forall|k: u64| #[trigger]
            self.observers_spec().contains_key(k) ==> {
                let obs = self.observers_spec()[k].observations;
                &&& forall|a: int, b: int|
                    0 <= a < b < obs.len() ==> (#[trigger] obs[a]).target != (#[trigger] obs[b]).target
                &&& forall|a: int| 0 <= a < obs.len() ==> (#[trigger] obs[a]).generation <= self.generation_spec()
            }
    }

    /// Some observer has a callback and a registration.
    pub open spec fn has_live_callback(&self) -> bool {
        exists|k: u64| #[trigger]
            self.observers_spec().contains_key(k) && self.observers_spec()[k].callback is Some
                && self.observers_spec()[k].observations.len() > 0
    }

    /// Some observer has a registration.
    pub open spec fn has_registration(&self) -> bool {
        exists|k: u64| #[trigger]
            self.observers_spec().contains_key(k) && self.observers_spec()[k].observations.len() > 0
    }

    /// What observer `k` would report now.
    pub open spec fn pending_batch(&self, k: u64, dom: Dom) -> Seq<(NodeId, u64, SizeBits)> {
        match self.latest_spec() {
            Some((_, revision)) => if revision == dom.revision_spec() && self.observers_spec().contains_key(k) {
                changed(dom, self.latest_sizes(), self.observers_spec()[k].observations)
            } else {
                Seq::empty()
            },
            None => Seq::empty(),
        }
    }

    /// An empty registry: no observers, no layout, no waker, nothing due.
    pub fn new() -> (r: ResizeRegistry)
        ensures
            r.wf(),
            r.observers_spec().dom() == Set::<u64>::empty(),
            r.generation_spec() == 0,
            r.latest_spec() is None,
            !r.has_waker_spec(),
            !r.requested_spec(),
            !r.pending_spec(),
    {
        ResizeRegistry {
            observers: observers_new(),
            generation: 0,
            latest: None,
            has_waker: false,
            measurement_requested: false,
            delivery_pending: false,
        }
    }
}

/// The registrations of `obs` whose target is not `t`.
pub open spec fn not_target(t: NodeId) -> spec_fn(Observation) -> bool {
    |o: Observation| o.target != t
}

/// The registrations of `obs` whose target is still a live node of `dom`.
pub open spec fn live_in(dom: Dom) -> spec_fn(Observation) -> bool {
    |o: Observation| dom.contains_node(o.target)
}

/// A copy of a registration list.
fn copy_observations(v: &Vec<Observation>) -> (r: Vec<Observation>)
    ensures
        r@ == v@,
{
    let mut r: Vec<Observation> = Vec::new();
    let mut i: usize = 0;
    while i < v.len()
        invariant
            0 <= i <= v.len(),
            r@ == v@.take(i as int),
        decreases v.len() - i,
    {
        r.push(v[i]);
        proof {
            assert(v@.take(i as int + 1) =~= v@.take(i as int).push(v@[i as int]));
        }
        i += 1;
    }
    proof {
        assert(v@.take(v@.len() as int) =~= v@);
    }
    r
}

/// The registrations of `v` whose target is not `t`, in order.
fn without_target(v: &Vec<Observation>, t: NodeId) -> (r: Vec<Observation>)
    ensures
        r@ == v@.filter(not_target(t)),
{
    let mut r: Vec<Observation> = Vec::new();
    let mut i: usize = 0;
    proof {
        assert(v@.take(0) =~= Seq::<Observation>::empty());
        reveal(Seq::filter);
    }
    while i < v.len()
        invariant
            0 <= i <= v.len(),
            r@ == v@.take(i as int).filter(not_target(t)),
        decreases v.len() - i,
    {
        let o = v[i];
        proof {
            assert(v@.take(i as int + 1) =~= v@.take(i as int).push(o));
            v@.take(i as int).lemma_filter_push(o, not_target(t));
        }
        if o.target != t {
            r.push(o);
        }
        i += 1;
    }
    proof {
        assert(v@.take(v@.len() as int) =~= v@);
    }
    r
}

/// The registrations of `v` whose target is a live node of `dom`.
fn live_observations(v: &Vec<Observation>, dom: &Dom) -> (r: Vec<Observation>)
    requires
        dom.wf(),
    ensures
        r@ == v@.filter(live_in(*dom)),
{
    let mut r: Vec<Observation> = Vec::new();
    let mut i: usize = 0;
    proof {
        assert(v@.take(0) =~= Seq::<Observation>::empty());
        reveal(Seq::filter);
    }
    while i < v.len()
        invariant
            dom.wf(),
            0 <= i <= v.len(),
            r@ == v@.take(i as int).filter(live_in(*dom)),
        decreases v.len() - i,
    {
        let o = v[i];
        proof {
            assert(v@.take(i as int + 1) =~= v@.take(i as int).push(o));
            v@.take(i as int).lemma_filter_push(o, live_in(*dom));
        }
        if dom.contains(o.target) {
            r.push(o);
        }
        i += 1;
    }
    proof {
        assert(v@.take(v@.len() as int) =~= v@);
    }
    r
}

/// A filtered registration list keeps distinct targets and bounded
/// generations.
proof fn lemma_filter_keeps_shape(obs: Seq<Observation>, pred: spec_fn(Observation) -> bool, g: u64)
    requires
        forall|a: int, b: int| 0 <= a < b < obs.len() ==> (#[trigger] obs[a]).target != (#[trigger] obs[b]).target,
        forall|a: int| 0 <= a < obs.len() ==> (#[trigger] obs[a]).generation <= g,
    ensures
        ({
            let f = obs.filter(pred);
            &&& forall|a: int, b: int| 0 <= a < b < f.len() ==> (#[trigger] f[a]).target != (#[trigger] f[b]).target
            &&& forall|a: int| 0 <= a < f.len() ==> (#[trigger] f[a]).generation <= g
        }),
    decreases obs.len(),
{
    reveal(Seq::filter);
    if obs.len() > 0 {
        let rest = obs.drop_last();
        lemma_filter_keeps_shape(rest, pred, g);
        let f0 = rest.filter(pred);
        let f = obs.filter(pred);
        if pred(obs.last()) {
            assert(f == f0.push(obs.last()));
            assert forall|a: int| 0 <= a < f0.len() implies (#[trigger] f0[a]).target != obs.last().target by {
                broadcast use vstd::seq_lib::group_filter_ensures;
                assert(f0.contains(f0[a]));
                rest.lemma_filter_contains_rev(pred, f0[a]);
                let q = rest.index_of(f0[a]);
                assert(obs[q] == f0[a]);
                assert(obs[obs.len() - 1] == obs.last());
            }
            assert forall|a: int, b: int| 0 <= a < b < f.len() implies (#[trigger] f[a]).target != (#[trigger] f[b]).target by {
                if b == f0.len() {
                    assert(f[b] == obs.last());
                    assert(f[a] == f0[a]);
                } else {
                    assert(f[a] == f0[a]);
                    assert(f[b] == f0[b]);
                }
            }
            assert forall|a: int| 0 <= a < f.len() implies (#[trigger] f[a]).generation <= g by {
                if a < f0.len() {
                    assert(f[a] == f0[a]);
                } else {
                    assert(obs[obs.len() - 1] == obs.last());
                }
            }
        }
    }
}

impl ResizeRegistry {
    /// Everything but the observers is unchanged from `old`.
    pub open spec fn keeps_state(&self, old: &ResizeRegistry) -> bool {
        &&& self.generation_spec() == old.generation_spec()
        &&& self.latest_spec() == old.latest_spec()
        &&& self.latest_sizes() == old.latest_sizes()
        &&& self.has_waker_spec() == old.has_waker_spec()
        &&& self.requested_spec() == old.requested_spec()
        &&& self.pending_spec() == old.pending_spec()
    }

    /// The number of observers.
    pub fn observer_count(&self) -> (n: usize)
        requires
            self.wf(),
        ensures
            n == self.observers_spec().len(),
    {
        observers_len(&self.observers)
    }

    /// Registers a new observer without registrations or callback.
    pub fn create(&mut self) -> (k: ObserverKey)
        requires
            old(self).wf(),
            old(self).observers_spec().len() < 0xffff_fffe,
        ensures
            final(self).wf(),
            !old(self).observers_spec().contains_key(k@),
            final(self).observers_spec() == old(self).observers_spec().insert(
                k@,
                ObserverStateView { observations: Seq::empty(), callback: None },
            ),
            final(self).keeps_state(&*old(self)),
    {
        let k = observers_insert(&mut self.observers, ObserverState { observations: Vec::new(), callback: None });
        proof {
            assert(self.observers_spec()[k@].observations =~= Seq::<Observation>::empty());
        }
        k
    }

    /// Cancels an observer and its registrations.
    pub fn remove(&mut self, k: ObserverKey)
        requires
            old(self).wf(),
        ensures
            final(self).wf(),
            final(self).observers_spec() == old(self).observers_spec().remove(k@),
            final(self).keeps_state(&*old(self)),
    {
        let _ = observers_remove(&mut self.observers, k);
    }

    /// Whether some observer has a callback and a registration.
    fn any_live_callback(&self) -> (r: bool)
        ensures
            r == self.has_live_callback(),
    {
        let keys = observers_keys(&self.observers);
        let mut i: usize = 0;
        while i < keys.len()
            invariant
                0 <= i <= keys.len(),
                forall|j: int| 0 <= j < keys@.len() ==> self.observers_spec().contains_key(#[trigger] keys@[j]@),
                forall|k: u64| self.observers_spec().contains_key(k) ==> exists|j: int| 0 <= j < keys@.len() && #[trigger] keys@[j]@ == k,
                forall|j: int|
                    0 <= j < i ==> !(self.observers_spec()[#[trigger] keys@[j]@].callback is Some
                        && self.observers_spec()[keys@[j]@].observations.len() > 0),
            decreases keys.len() - i,
        {
            let state = observers_get(&self.observers, keys[i]).unwrap();
            if state.callback.is_some() && state.observations.len() > 0 {
                proof {
                    assert(self.observers_spec().contains_key(keys@[i as int]@));
                }
                return true;
            }
            i += 1;
        }
        proof {
            if self.has_live_callback() {
                let k = choose|k: u64| #[trigger]
                    self.observers_spec().contains_key(k) && self.observers_spec()[k].callback is Some
                        && self.observers_spec()[k].observations.len() > 0;
                let j = choose|j: int| 0 <= j < keys@.len() && #[trigger] keys@[j]@ == k;
                assert(keys@[j]@ == k);
            }
        }
        false
    }

    /// Whether some observer has a registration.
    fn any_registration(&self) -> (r: bool)
        ensures
            r == self.has_registration(),
    {
        let keys = observers_keys(&self.observers);
        let mut i: usize = 0;
        while i < keys.len()
            invariant
                0 <= i <= keys.len(),
                forall|j: int| 0 <= j < keys@.len() ==> self.observers_spec().contains_key(#[trigger] keys@[j]@),
                forall|k: u64| self.observers_spec().contains_key(k) ==> exists|j: int| 0 <= j < keys@.len() && #[trigger] keys@[j]@ == k,
                forall|j: int|
                    0 <= j < i ==> !(self.observers_spec()[#[trigger] keys@[j]@].observations.len() > 0),
            decreases keys.len() - i,
        {
            let state = observers_get(&self.observers, keys[i]).unwrap();
            if state.observations.len() > 0 {
                proof {
                    assert(self.observers_spec().contains_key(keys@[i as int]@));
                }
                return true;
            }
            i += 1;
        }
        proof {
            if self.has_registration() {
                let k = choose|k: u64| #[trigger]
                    self.observers_spec().contains_key(k) && self.observers_spec()[k].observations.len() > 0;
                let j = choose|j: int| 0 <= j < keys@.len() && #[trigger] keys@[j]@ == k;
                assert(keys@[j]@ == k);
            }
        }
        false
    }

    /// Records a completed layout. Delivery becomes due when the layout is
    /// new or a measurement was requested, nothing is due yet, and some
    /// observer has a callback and a registration; the result says whether
    /// the host should wake its waker.
    pub fn publish(&mut self, layout: LayoutSnapshot) -> (wake: bool)
        requires
            old(self).wf(),
        ensures
            final(self).wf(),
            final(self).observers_spec() == old(self).observers_spec(),
            final(self).generation_spec() == old(self).generation_spec(),
            final(self).has_waker_spec() == old(self).has_waker_spec(),
            final(self).latest_spec() == Some((layout.id, layout.revision)),
            final(self).latest_sizes() == layout.sizes@,
            !final(self).requested_spec(),
            ({
                let fresh = match old(self).latest_spec() {
                    Some((id, _)) => id != layout.id,
                    None => true,
                };
                let due = (fresh || old(self).requested_spec()) && !old(self).pending_spec()
                    && old(self).has_live_callback();
                &&& final(self).pending_spec() == (old(self).pending_spec() || due)
                &&& wake == (due && old(self).has_waker_spec())
            }),
    {
        let fresh = match &self.latest {
            None => true,
            Some(previous) => previous.id != layout.id,
        };
        let requested = self.measurement_requested;
        self.measurement_requested = false;
        self.latest = Some(layout);
        if (fresh || requested) && !self.delivery_pending && self.any_live_callback() {
            self.delivery_pending = true;
            self.has_waker
        } else {
            false
        }
    }

    /// Installs the host's waker; the result says whether work is already
    /// waiting, so that the host should wake it at once.
    pub fn set_waker(&mut self) -> (wake: bool)
        requires
            old(self).wf(),
        ensures
            final(self).wf(),
            final(self).observers_spec() == old(self).observers_spec(),
            final(self).has_waker_spec(),
            final(self).generation_spec() == old(self).generation_spec(),
            final(self).latest_spec() == old(self).latest_spec(),
            final(self).latest_sizes() == old(self).latest_sizes(),
            final(self).requested_spec() == old(self).requested_spec(),
            final(self).pending_spec() == old(self).pending_spec(),
            wake == (old(self).requested_spec() || old(self).pending_spec()),
    {
        self.has_waker = true;
        self.measurement_requested || self.delivery_pending
    }

    /// Asks for a measurement, unless one is already asked for or nothing is
    /// registered; the result says whether the host should wake its waker.
    pub fn request_measurement(&mut self) -> (wake: bool)
        requires
            old(self).wf(),
        ensures
            final(self).wf(),
            final(self).observers_spec() == old(self).observers_spec(),
            final(self).generation_spec() == old(self).generation_spec(),
            final(self).latest_spec() == old(self).latest_spec(),
            final(self).latest_sizes() == old(self).latest_sizes(),
            final(self).has_waker_spec() == old(self).has_waker_spec(),
            final(self).pending_spec() == old(self).pending_spec(),
            old(self).requested_spec() || !old(self).has_registration() ==> {
                &&& final(self).requested_spec() == old(self).requested_spec()
                &&& !wake
            },
            !old(self).requested_spec() && old(self).has_registration() ==> {
                &&& final(self).requested_spec()
                &&& wake == old(self).has_waker_spec()
            },
    {
        if self.measurement_requested || !self.any_registration() {
            return false;
        }
        self.measurement_requested = true;
        self.has_waker
    }

    /// The generation the latest registration got.
    pub fn generation(&self) -> (r: u64)
        ensures
            r == self.generation_spec(),
    {
        self.generation
    }

    /// Whether a measurement is asked for.
    pub fn measurement_requested(&self) -> (r: bool)
        ensures
            r == self.requested_spec(),
    {
        self.measurement_requested
    }

    /// Forgets the request and the due delivery after a failed layout.
    pub fn measurement_failed(&mut self)
        requires
            old(self).wf(),
        ensures
            final(self).wf(),
            final(self).observers_spec() == old(self).observers_spec(),
            final(self).generation_spec() == old(self).generation_spec(),
            final(self).latest_spec() == old(self).latest_spec(),
            final(self).latest_sizes() == old(self).latest_sizes(),
            final(self).has_waker_spec() == old(self).has_waker_spec(),
            !final(self).requested_spec(),
            !final(self).pending_spec(),
    {
        self.measurement_requested = false;
        self.delivery_pending = false;
    }

    /// Drops the waker, the layout, every observer and everything due.
    pub fn shutdown(&mut self)
        requires
            old(self).wf(),
        ensures
            final(self).wf(),
            final(self).observers_spec().dom() == Set::<u64>::empty(),
            final(self).generation_spec() == old(self).generation_spec(),
            final(self).latest_spec() is None,
            !final(self).has_waker_spec(),
            !final(self).requested_spec(),
            !final(self).pending_spec(),
    {
        self.has_waker = false;
        self.latest = None;
        self.measurement_requested = false;
        self.delivery_pending = false;
        observers_clear(&mut self.observers);
    }
}

/// An element that maps to something shows up in `filter_map`.
proof fn lemma_filter_map_has<A, B>(s: Seq<A>, f: spec_fn(A) -> Option<B>, j: int)
    requires
        0 <= j < s.len(),
        f(s[j]) is Some,
    ensures
        s.filter_map(f).contains(f(s[j])->0),
    decreases s.len(),
{
    let rest = s.drop_last();
    if j == s.len() - 1 {
        let out = s.filter_map(f);
        assert(out[out.len() - 1] == f(s[j])->0);
    } else {
        assert(rest[j] == s[j]);
        lemma_filter_map_has(rest, f, j);
        let out0 = rest.filter_map(f);
        let k = out0.index_of(f(s[j])->0);
        match f(s.last()) {
            Some(x) => {
                assert(s.filter_map(f) == out0 + seq![x]);
                assert(s.filter_map(f)[k] == out0[k]);
            },
            None => {},
        }
    }
}

/// When nothing maps to anything, `filter_map` is empty.
proof fn lemma_filter_map_none<A, B>(s: Seq<A>, f: spec_fn(A) -> Option<B>)
    requires
        forall|j: int| 0 <= j < s.len() ==> f(#[trigger] s[j]) is None,
    ensures
        s.filter_map(f) =~= Seq::<B>::empty(),
    decreases s.len(),
{
    if s.len() > 0 {
        let rest = s.drop_last();
        assert forall|j: int| 0 <= j < rest.len() implies f(#[trigger] rest[j]) is None by {
            assert(rest[j] == s[j]);
        }
        lemma_filter_map_none(rest, f);
        assert(f(s[s.len() - 1]) is None);
    }
}

/// Every registration of a batch is valid: its target is live and an
/// observation with its target and generation has not reported its size.
pub open spec fn all_valid(regs: Seq<(NodeId, u64, SizeBits)>, obs: Seq<Observation>, dom: Dom) -> bool {
    forall|m: int|
        0 <= m < regs.len() ==> {
            &&& dom.contains_node((#[trigger] regs[m]).0)
            &&& exists|j: int|
                0 <= j < obs.len() && (#[trigger] obs[j]).target == regs[m].0 && obs[j].generation
                    == regs[m].1 && obs[j].last != Some(regs[m].2)
        }
}

/// `new` is `obs` with each registration named by `regs` advanced to the
/// size reported for it.
pub open spec fn advanced(obs: Seq<Observation>, regs: Seq<(NodeId, u64, SizeBits)>, new: Seq<Observation>) -> bool {
    &&& new.len() == obs.len()
    &&& forall|j: int|
        0 <= j < obs.len() ==> (#[trigger] new[j]).target == obs[j].target && new[j].generation
            == obs[j].generation
    &&& forall|j: int, m: int|
        0 <= j < obs.len() && 0 <= m < regs.len() && (#[trigger] regs[m]).0 == (#[trigger] obs[j]).target
            && regs[m].1 == obs[j].generation ==> new[j].last == Some(regs[m].2)
    &&& forall|j: int|
        0 <= j < obs.len() && (forall|m: int|
            0 <= m < regs.len() ==> !((#[trigger] regs[m]).0 == obs[j].target && regs[m].1
                == obs[j].generation)) ==> (#[trigger] new[j]).last == obs[j].last
}

impl ResizeRegistry {
    /// What observer `k` would report from the latest layout, without
    /// reporting it. Nothing is due before a layout, when the document changed
    /// since the latest layout, or when no size changed.
    pub fn prepare(&self, k: ObserverKey, dom: &Dom) -> (r: Result<Option<ResizeBatch>, ResizeObserverError>)
        requires
            self.wf(),
            dom.wf(),
        ensures
            !self.observers_spec().contains_key(k@) ==> r == Err::<Option<ResizeBatch>, ResizeObserverError>(
                ResizeObserverError::Closed,
            ),
            self.observers_spec().contains_key(k@) ==> r is Ok,
            r matches Ok(b) ==> (b is None <==> self.pending_batch(k@, *dom).len() == 0),
            r matches Ok(Some(batch)) ==> {
                &&& batch.wf()
                &&& batch.observer_spec() == k@
                &&& batch.registrations_spec() == self.pending_batch(k@, *dom)
                &&& self.latest_spec() == Some(batch.layout_spec())
            },
    {
        let state = match observers_get(&self.observers, k) {
            None => return Err(ResizeObserverError::Closed),
            Some(st) => st,
        };
        let layout = match &self.latest {
            None => return Ok(None),
            Some(l) => l,
        };
        if layout.revision != dom.revision() {
            return Ok(None);
        }
        let ghost obs = state.observations@;
        let ghost sizes = layout.sizes@;
        let ghost f = registration_of(*dom, sizes);
        proof {
            assert(self.observers_spec().contains_key(k@));
            assert(obs == self.observers_spec()[k@].observations);
            assert(obs.take(0) =~= Seq::<Observation>::empty());
            assert forall|a: int, b: int| 0 <= a < b < obs.len() implies (#[trigger] obs[a]).target != (#[trigger] obs[b]).target by {
                let o2 = self.observers_spec()[k@].observations;
                assert(o2[a] == obs[a] && o2[b] == obs[b]);
            }
        }
        let mut entries: Vec<ResizeObserverEntry> = Vec::new();
        let mut registrations: Vec<(NodeId, u64, SizeBits)> = Vec::new();
        let ghost mut src: Seq<int> = Seq::empty();
        let mut i: usize = 0;
        while i < state.observations.len()
            invariant
                dom.wf(),
                obs == state.observations@,
                sizes == layout.sizes@,
                f == registration_of(*dom, sizes),
                forall|a: int, b: int| 0 <= a < b < obs.len() ==> (#[trigger] obs[a]).target != (#[trigger] obs[b]).target,
                0 <= i <= obs.len(),
                registrations@ == obs.take(i as int).filter_map(f),
                entries@ == registrations@.map_values(
                    |r: (NodeId, u64, SizeBits)| ResizeObserverEntry { target: r.0, size: r.2 },
                ),
                src.len() == registrations@.len(),
                forall|m: int| 0 <= m < src.len() ==> 0 <= #[trigger] src[m] < i && registrations@[m].0 == obs[src[m]].target,
                forall|a: int, b: int| 0 <= a < b < src.len() ==> #[trigger] src[a] < #[trigger] src[b],
            decreases obs.len() - i,
        {
            let o = state.observations[i];
            proof {
                obs.lemma_filter_map_take_succ(f, i as int);
            }
            let connected = match dom.is_connected(o.target) {
                Ok(c) => c,
                Err(_) => {
                    i += 1;
                    continue;
                },
            };
            let unreported = match o.last {
                None => true,
                Some(_) => false,
            };
            if !connected && unreported {
                i += 1;
                continue;
            }
            let size = if connected {
                match layout.sizes.get(&o.target.raw()) {
                    Some(sz) => *sz,
                    None => SizeBits { width: 0, height: 0 },
                }
            } else {
                SizeBits { width: 0, height: 0 }
            };
            let same = match o.last {
                Some(l) => l == size,
                None => false,
            };
            if same {
                i += 1;
                continue;
            }
            entries.push(ResizeObserverEntry { target: o.target, size });
            registrations.push((o.target, o.generation, size));
            proof {
                src = src.push(i as int);
            }
            i += 1;
        }
        proof {
            assert(obs.take(obs.len() as int) =~= obs);
        }
        if entries.len() == 0 {
            return Ok(None);
        }
        let batch = ResizeBatch {
            observer: k,
            entries,
            registrations,
            layout_id: layout.id,
            layout_revision: layout.revision,
        };
        proof {
            assert forall|a: int, b: int|
                0 <= a < b < batch.registrations_spec().len() implies (#[trigger] batch.registrations_spec()[a]).0
                != (#[trigger] batch.registrations_spec()[b]).0 by {
                assert(src[a] < src[b]);
            }
        }
        Ok(Some(batch))
    }
}

/// Whether some registration in `obs` has target `t`, generation `g`, and
/// a last size other than `size`.
fn has_unreported(obs: &Vec<Observation>, t: NodeId, g: u64, size: SizeBits) -> (r: bool)
    ensures
        r == exists|j: int|
            0 <= j < obs@.len() && (#[trigger] obs@[j]).target == t && obs@[j].generation == g
                && obs@[j].last != Some(size),
{
    let mut j: usize = 0;
    while j < obs.len()
        invariant
            0 <= j <= obs.len(),
            forall|q: int|
                0 <= q < j ==> !((#[trigger] obs@[q]).target == t && obs@[q].generation == g && obs@[q].last
                    != Some(size)),
        decreases obs.len() - j,
    {
        let o = obs[j];
        let reported = match o.last {
            Some(l) => l == size,
            None => false,
        };
        if o.target == t && o.generation == g && !reported {
            return true;
        }
        j += 1;
    }
    false
}

impl ResizeRegistry {
    /// Reports a prepared batch of observer `k`: when the batch is still
    /// current and every registration in it is still valid, the reported
    /// sizes become the registrations' last sizes and the entries are
    /// returned; a stale batch is discarded whole and reports nothing.
    pub fn commit(&mut self, k: ObserverKey, dom: &Dom, batch: ResizeBatch) -> (r: Result<
        Vec<ResizeObserverEntry>,
        ResizeObserverError,
    >)
        requires
            old(self).wf(),
            dom.wf(),
            batch.wf(),
        ensures
            final(self).wf(),
            final(self).keeps_state(&*old(self)),
            ({
                let stale = batch.observer_spec() != k@ || batch.layout_spec().1 != dom.revision_spec()
                    || !(old(self).latest_spec() matches Some((id, _)) && id == batch.layout_spec().0);
                let obs = old(self).observers_spec()[k@].observations;
                let regs = batch.registrations_spec();
                &&& stale ==> (r matches Ok(entries) && entries@.len() == 0)
                    && final(self).observers_spec() == old(self).observers_spec()
                &&& !stale && !old(self).observers_spec().contains_key(k@) ==> r == Err::<
                    Vec<ResizeObserverEntry>,
                    ResizeObserverError,
                >(ResizeObserverError::Closed) && final(self).observers_spec() == old(self).observers_spec()
                &&& !stale && old(self).observers_spec().contains_key(k@) && !all_valid(regs, obs, *dom)
                    ==> (r matches Ok(entries) && entries@.len() == 0)
                    && final(self).observers_spec() == old(self).observers_spec()
                &&& !stale && old(self).observers_spec().contains_key(k@) && all_valid(regs, obs, *dom)
                    ==> {
                    &&& r matches Ok(entries) && entries@ == batch.entries_spec()
                    &&& final(self).observers_spec().dom() == old(self).observers_spec().dom()
                    &&& forall|q: u64|
                        q != k@ ==> #[trigger] final(self).observers_spec()[q] == old(self).observers_spec()[q]
                    &&& final(self).observers_spec()[k@].callback == old(self).observers_spec()[k@].callback
                    &&& advanced(obs, regs, final(self).observers_spec()[k@].observations)
                }
            }),
    {
        if batch.observer.raw != k.raw {
            return Ok(Vec::new());
        }
        let current = match &self.latest {
            Some(l) => l.id == batch.layout_id,
            None => false,
        };
        if batch.layout_revision != dom.revision() || !current {
            return Ok(Vec::new());
        }
        let state = match observers_get(&self.observers, k) {
            None => return Err(ResizeObserverError::Closed),
            Some(st) => st,
        };
        let ghost obs = state.observations@;
        let ghost regs = batch.registrations@;
        proof {
            assert(self.observers_spec().contains_key(k@));
            assert(obs == self.observers_spec()[k@].observations);
        }
        let mut m: usize = 0;
        while m < batch.registrations.len()
            invariant
                dom.wf(),
                *self == *old(self),
                old(self).wf(),
                batch.observer_spec() == k@,
                batch.layout_spec().1 == dom.revision_spec(),
                old(self).latest_spec() matches Some((id, _)) && id == batch.layout_spec().0,
                old(self).observers_spec().contains_key(k@),
                obs == old(self).observers_spec()[k@].observations,
                regs == batch.registrations_spec(),
                regs == batch.registrations@,
                obs == state.observations@,
                0 <= m <= regs.len(),
                forall|q: int|
                    0 <= q < m ==> {
                        &&& dom.contains_node((#[trigger] regs[q]).0)
                        &&& exists|j: int|
                            0 <= j < obs.len() && (#[trigger] obs[j]).target == regs[q].0 && obs[j].generation
                                == regs[q].1 && obs[j].last != Some(regs[q].2)
                    },
            decreases regs.len() - m,
        {
            let (t, g, size) = batch.registrations[m];
            if !dom.contains(t) || !has_unreported(&state.observations, t, g, size) {
                return Ok(Vec::new());
            }
            m += 1;
        }
        let callback = state.callback;
        let mut updated = copy_observations(&state.observations);
        proof {
            let o2 = self.observers_spec()[k@].observations;
            assert forall|a: int, b: int| 0 <= a < b < obs.len() implies (#[trigger] obs[a]).target != (#[trigger] obs[b]).target by {
                assert(o2[a] == obs[a] && o2[b] == obs[b]);
            }
            assert forall|a: int| 0 <= a < obs.len() implies (#[trigger] obs[a]).generation <= self.generation_spec() by {
                assert(o2[a] == obs[a]);
            }
        }
        let mut m: usize = 0;
        while m < batch.registrations.len()
            invariant
                regs == batch.registrations@,
                batch.wf(),
                0 <= m <= regs.len(),
                all_valid(regs, obs, *dom),
                forall|a: int, b: int| 0 <= a < b < obs.len() ==> (#[trigger] obs[a]).target != (#[trigger] obs[b]).target,
                updated@.len() == obs.len(),
                forall|j: int|
                    0 <= j < obs.len() ==> (#[trigger] updated@[j]).target == obs[j].target && updated@[j].generation
                        == obs[j].generation,
                forall|j: int, q: int|
                    0 <= j < obs.len() && 0 <= q < m && (#[trigger] regs[q]).0 == (#[trigger] obs[j]).target
                        && regs[q].1 == obs[j].generation ==> updated@[j].last == Some(regs[q].2),
                forall|j: int|
                    0 <= j < obs.len() && (forall|q: int|
                        0 <= q < m ==> !((#[trigger] regs[q]).0 == obs[j].target && regs[q].1
                            == obs[j].generation)) ==> (#[trigger] updated@[j]).last == obs[j].last,
            decreases regs.len() - m,
        {
            let (t, g, size) = batch.registrations[m];
            proof {
                assert(regs[m as int] == (t, g, size));
            }
            let mut j: usize = 0;
            while j < updated.len()
                invariant
                    0 <= j <= updated@.len(),
                    updated@.len() == obs.len(),
                    forall|p: int|
                        0 <= p < obs.len() ==> (#[trigger] updated@[p]).target == obs[p].target && updated@[p].generation
                            == obs[p].generation,
                    forall|p: int| 0 <= p < j ==> !((#[trigger] obs[p]).target == t && obs[p].generation == g),
                ensures
                    0 <= j <= updated@.len(),
                    forall|p: int| 0 <= p < j ==> !((#[trigger] obs[p]).target == t && obs[p].generation == g),
                    j < updated@.len() ==> obs[j as int].target == t && obs[j as int].generation == g,
                decreases updated@.len() - j,
            {
                let o = updated[j];
                if o.target == t && o.generation == g {
                    break;
                }
                j += 1;
            }
            proof {
                let jj = choose|jj: int|
                    0 <= jj < obs.len() && (#[trigger] obs[jj]).target == regs[m as int].0 && obs[jj].generation
                        == regs[m as int].1 && obs[jj].last != Some(regs[m as int].2);
                assert(jj >= j);
            }
            let o = updated[j];
            let ghost before = updated@;
            updated.set(j, Observation { target: o.target, generation: o.generation, last: Some(size) });
            proof {
                assert forall|p: int, q: int|
                    0 <= p < obs.len() && 0 <= q < m + 1 && (#[trigger] regs[q]).0 == (#[trigger] obs[p]).target
                        && regs[q].1 == obs[p].generation implies updated@[p].last == Some(regs[q].2) by {
                    if q < m {
                        assert(regs[q].0 != regs[m as int].0);
                        if p == j {
                            assert(obs[p].target == t);
                        }
                    } else {
                        if p != j {
                            assert(obs[j as int].target == t);
                        }
                    }
                }
                assert forall|p: int|
                    0 <= p < obs.len() && (forall|q: int|
                        0 <= q < m + 1 ==> !((#[trigger] regs[q]).0 == obs[p].target && regs[q].1
                            == obs[p].generation)) implies (#[trigger] updated@[p]).last == obs[p].last by {
                    if p == j {
                        assert(!((regs[m as int]).0 == obs[p].target && regs[m as int].1 == obs[p].generation));
                    } else {
                        assert(updated@[p] == before[p]);
                        assert forall|q: int| 0 <= q < m implies !((#[trigger] regs[q]).0 == obs[p].target && regs[q].1
                            == obs[p].generation) by {
                            assert(!((regs[q]).0 == obs[p].target && regs[q].1 == obs[p].generation));
                        }
                    }
                }
            }
            m += 1;
        }
        let ghost fresh_obs = updated@;
        observers_set(&mut self.observers, k, ObserverState { observations: updated, callback });
        proof {
            assert forall|q: u64| #[trigger] self.observers_spec().contains_key(q) implies {
                let o3 = self.observers_spec()[q].observations;
                &&& forall|a: int, b: int| 0 <= a < b < o3.len() ==> (#[trigger] o3[a]).target != (#[trigger] o3[b]).target
                &&& forall|a: int| 0 <= a < o3.len() ==> (#[trigger] o3[a]).generation <= self.generation_spec()
            } by {
                if q == k@ {
                    let o3 = self.observers_spec()[q].observations;
                    assert(o3 == fresh_obs);
                    assert forall|a: int, b: int| 0 <= a < b < o3.len() implies (#[trigger] o3[a]).target != (#[trigger] o3[b]).target by {
                        assert(o3[a].target == obs[a].target && o3[b].target == obs[b].target);
                    }
                    assert forall|a: int| 0 <= a < o3.len() implies (#[trigger] o3[a]).generation <= self.generation_spec() by {
                        assert(o3[a].generation == obs[a].generation);
                    }
                }
            }
        }
        Ok(batch.entries)
    }
}

/// The entry of a registration.
pub open spec fn entry_of(r: (NodeId, u64, SizeBits)) -> ResizeObserverEntry {
    ResizeObserverEntry { target: r.0, size: r.2 }
}

impl ResizeRegistry {
    /// Takes the changed measurements of observer `k` from the latest
    /// layout and advances its last-reported sizes, so that taking records
    /// again before anything changes reports nothing.
    pub fn take_records(&mut self, k: ObserverKey, dom: &Dom) -> (r: Result<
        Vec<ResizeObserverEntry>,
        ResizeObserverError,
    >)
        requires
            old(self).wf(),
            dom.wf(),
        ensures
            final(self).wf(),
            final(self).keeps_state(&*old(self)),
            !old(self).observers_spec().contains_key(k@) ==> r == Err::<
                Vec<ResizeObserverEntry>,
                ResizeObserverError,
            >(ResizeObserverError::Closed) && final(self).observers_spec() == old(self).observers_spec(),
            old(self).observers_spec().contains_key(k@) ==> {
                &&& r matches Ok(entries) && entries@ == old(self).pending_batch(k@, *dom).map_values(
                    |g: (NodeId, u64, SizeBits)| entry_of(g),
                )
                &&& final(self).pending_batch(k@, *dom).len() == 0
                &&& advanced(
                    old(self).observers_spec()[k@].observations,
                    old(self).pending_batch(k@, *dom),
                    final(self).observers_spec()[k@].observations,
                )
                &&& final(self).observers_spec().dom() == old(self).observers_spec().dom()
                &&& forall|q: u64|
                    q != k@ ==> #[trigger] final(self).observers_spec()[q] == old(self).observers_spec()[q]
                &&& final(self).observers_spec()[k@].callback == old(self).observers_spec()[k@].callback
            },
    {
        let ghost pre = *self;
        let prepared = self.prepare(k, dom);
        let batch = match prepared {
            Err(e) => return Err(e),
            Ok(None) => {
                let r: Vec<ResizeObserverEntry> = Vec::new();
                proof {
                    assert(r@ =~= pre.pending_batch(k@, *dom).map_values(
                        |g: (NodeId, u64, SizeBits)| entry_of(g),
                    ));
                }
                return Ok(r);
            },
            Ok(Some(b)) => b,
        };
        let ghost regs = batch.registrations_spec();
        let ghost obs = pre.observers_spec()[k@].observations;
        let ghost sizes = pre.latest_sizes();
        let ghost f = registration_of(*dom, sizes);
        proof {
            assert(regs == changed(*dom, sizes, obs));
            assert forall|m: int| 0 <= m < regs.len() implies {
                &&& dom.contains_node((#[trigger] regs[m]).0)
                &&& exists|j: int|
                    0 <= j < obs.len() && (#[trigger] obs[j]).target == regs[m].0 && obs[j].generation
                        == regs[m].1 && obs[j].last != Some(regs[m].2)
            } by {
                assert(regs.contains(regs[m]));
                obs.lemma_filter_map_contains(f, regs[m]);
                let o = choose|o: Observation| #[trigger] obs.contains(o) && f(o) == Some(regs[m]);
                let j = obs.index_of(o);
                assert(obs[j] == o);
            }
            assert(all_valid(regs, obs, *dom));
        }
        let result = self.commit(k, dom, batch);
        proof {
            let new_obs = self.observers_spec()[k@].observations;
            assert(advanced(obs, regs, new_obs));
            assert forall|a: int, b: int| 0 <= a < b < obs.len() implies (#[trigger] obs[a]).target != (#[trigger] obs[b]).target by {
            }
            assert forall|j: int| 0 <= j < new_obs.len() implies f(#[trigger] new_obs[j]) is None by {
                match report(*dom, sizes, obs[j]) {
                    Some(sz) => {
                        lemma_filter_map_has(obs, f, j);
                        let m = regs.index_of(f(obs[j])->0);
                        assert(regs[m] == (obs[j].target, obs[j].generation, sz));
                        assert(new_obs[j].last == Some(sz));
                    },
                    None => {
                        assert forall|m: int| 0 <= m < regs.len() implies !((#[trigger] regs[m]).0 == obs[j].target
                            && regs[m].1 == obs[j].generation) by {
                            if regs[m].0 == obs[j].target && regs[m].1 == obs[j].generation {
                                assert(regs.contains(regs[m]));
                                obs.lemma_filter_map_contains(f, regs[m]);
                                let o = choose|o: Observation| #[trigger] obs.contains(o) && f(o) == Some(regs[m]);
                                let jj = obs.index_of(o);
                                assert(obs[jj] == o);
                                assert(jj == j);
                            }
                        }
                        assert(new_obs[j] == obs[j]);
                    },
                }
            }
            lemma_filter_map_none(new_obs, f);
        }
        result
    }
}

impl ResizeRegistry {
    /// Replaces the registration list of an existing observer.
    fn set_observations(&mut self, k: ObserverKey, observations: Vec<Observation>)
        requires
            old(self).wf(),
            old(self).observers_spec().contains_key(k@),
            forall|a: int, b: int|
                0 <= a < b < observations@.len() ==> (#[trigger] observations@[a]).target != (
                #[trigger] observations@[b]).target,
            forall|a: int|
                0 <= a < observations@.len() ==> (#[trigger] observations@[a]).generation <= old(
                    self,
                ).generation_spec(),
        ensures
            final(self).wf(),
            final(self).keeps_state(&*old(self)),
            final(self).observers_spec() == old(self).observers_spec().insert(
                k@,
                ObserverStateView {
                    observations: observations@,
                    callback: old(self).observers_spec()[k@].callback,
                },
            ),
    {
        let callback = observers_get(&self.observers, k).unwrap().callback;
        observers_set(&mut self.observers, k, ObserverState { observations, callback });
    }

    /// Registers `target` with observer `k`, or renews its registration so
    /// that its size is reported afresh, and asks for a measurement; the
    /// result says whether the host should wake its waker.
    pub fn observe(&mut self, k: ObserverKey, dom: &Dom, target: NodeId) -> (r: Result<bool, ResizeObserverError>)
        requires
            old(self).wf(),
            dom.wf(),
            dom.contains_node(target) && dom.kind_of(target) is Element ==> old(self).generation_spec()
                < u64::MAX,
        ensures
            final(self).wf(),
            final(self).latest_spec() == old(self).latest_spec(),
            final(self).latest_sizes() == old(self).latest_sizes(),
            final(self).has_waker_spec() == old(self).has_waker_spec(),
            final(self).pending_spec() == old(self).pending_spec(),
            !dom.contains_node(target) ==> r == Err::<bool, ResizeObserverError>(
                ResizeObserverError::InvalidTarget(DomError::NodeNotFound(target)),
            ) && *final(self) == *old(self),
            dom.contains_node(target) && !(dom.kind_of(target) is Element) ==> r == Err::<
                bool,
                ResizeObserverError,
            >(ResizeObserverError::InvalidTarget(DomError::NodeNotElement(target))) && *final(self)
                == *old(self),
            dom.contains_node(target) && dom.kind_of(target) is Element ==> {
                &&& final(self).generation_spec() == old(self).generation_spec() + 1
                &&& !old(self).observers_spec().contains_key(k@) ==> {
                    &&& r == Err::<bool, ResizeObserverError>(ResizeObserverError::Closed)
                    &&& final(self).observers_spec() == old(self).observers_spec()
                    &&& final(self).requested_spec() == old(self).requested_spec()
                }
                &&& old(self).observers_spec().contains_key(k@) ==> {
                    &&& final(self).observers_spec() == old(self).observers_spec().insert(
                        k@,
                        ObserverStateView {
                            observations: old(self).observers_spec()[k@].observations.filter(
                                not_target(target),
                            ).push(
                                Observation {
                                    target,
                                    generation: (old(self).generation_spec() + 1) as u64,
                                    last: None,
                                },
                            ),
                            callback: old(self).observers_spec()[k@].callback,
                        },
                    )
                    &&& final(self).requested_spec()
                    &&& r == Ok::<bool, ResizeObserverError>(!old(self).requested_spec() && old(
                        self,
                    ).has_waker_spec())
                }
            },
    {
        match dom.element_tag(target) {
            Err(e) => return Err(ResizeObserverError::InvalidTarget(e)),
            Ok(_) => {},
        }
        self.generation = self.generation + 1;
        let generation = self.generation;
        proof {
            assert forall|q: u64| #[trigger] self.observers_spec().contains_key(q) implies {
                let o3 = self.observers_spec()[q].observations;
                &&& forall|a: int, b: int| 0 <= a < b < o3.len() ==> (#[trigger] o3[a]).target != (#[trigger] o3[b]).target
                &&& forall|a: int| 0 <= a < o3.len() ==> (#[trigger] o3[a]).generation <= self.generation_spec()
            } by {
                assert(old(self).observers_spec().contains_key(q));
            }
        }
        let state = match observers_get(&self.observers, k) {
            None => return Err(ResizeObserverError::Closed),
            Some(st) => st,
        };
        let mut kept = without_target(&state.observations, target);
        let ghost before = state.observations@;
        kept.push(Observation { target, generation, last: None });
        proof {
            assert(self.observers_spec().contains_key(k@));
            assert(before == self.observers_spec()[k@].observations);
            lemma_filter_keeps_shape(before, not_target(target), self.generation_spec());
            let f = before.filter(not_target(target));
            assert forall|a: int| 0 <= a < f.len() implies (#[trigger] f[a]).target != target by {
                broadcast use vstd::seq_lib::group_filter_ensures;
            }
            assert forall|a: int, b: int| 0 <= a < b < kept@.len() implies (#[trigger] kept@[a]).target != (
            #[trigger] kept@[b]).target by {
                if b == f.len() {
                    assert(kept@[a] == f[a]);
                } else {
                    assert(kept@[a] == f[a] && kept@[b] == f[b]);
                }
            }
            assert forall|a: int| 0 <= a < kept@.len() implies (#[trigger] kept@[a]).generation <= self.generation_spec() by {
                if a < f.len() {
                    assert(kept@[a] == f[a]);
                }
            }
        }
        self.set_observations(k, kept);
        proof {
            assert(self.observers_spec().contains_key(k@));
            assert(self.observers_spec()[k@].observations.len() > 0);
            assert(self.has_registration());
        }
        let wake = self.request_measurement();
        Ok(wake)
    }

    /// Removes the registration of `target` from observer `k`, if any.
    pub fn unobserve(&mut self, k: ObserverKey, target: NodeId)
        requires
            old(self).wf(),
        ensures
            final(self).wf(),
            final(self).keeps_state(&*old(self)),
            !old(self).observers_spec().contains_key(k@) ==> final(self).observers_spec() == old(
                self,
            ).observers_spec(),
            old(self).observers_spec().contains_key(k@) ==> final(self).observers_spec() == old(
                self,
            ).observers_spec().insert(
                k@,
                ObserverStateView {
                    observations: old(self).observers_spec()[k@].observations.filter(not_target(target)),
                    callback: old(self).observers_spec()[k@].callback,
                },
            ),
    {
        let state = match observers_get(&self.observers, k) {
            None => return,
            Some(st) => st,
        };
        let kept = without_target(&state.observations, target);
        proof {
            assert(self.observers_spec().contains_key(k@));
            lemma_filter_keeps_shape(self.observers_spec()[k@].observations, not_target(target), self.generation_spec());
        }
        self.set_observations(k, kept);
    }

    /// Removes every registration of observer `k`, which stays usable.
    pub fn disconnect(&mut self, k: ObserverKey)
        requires
            old(self).wf(),
        ensures
            final(self).wf(),
            final(self).keeps_state(&*old(self)),
            !old(self).observers_spec().contains_key(k@) ==> final(self).observers_spec() == old(
                self,
            ).observers_spec(),
            old(self).observers_spec().contains_key(k@) ==> final(self).observers_spec() == old(
                self,
            ).observers_spec().insert(
                k@,
                ObserverStateView {
                    observations: Seq::empty(),
                    callback: old(self).observers_spec()[k@].callback,
                },
            ),
    {
        match observers_get(&self.observers, k) {
            None => return,
            Some(_) => {},
        }
        let empty: Vec<Observation> = Vec::new();
        proof {
            assert(empty@ =~= Seq::<Observation>::empty());
        }
        self.set_observations(k, empty);
    }

    /// Gives observer `k` the callback with token `callback` and asks for a
    /// measurement; the result says whether the host should wake its waker.
    pub fn set_callback(&mut self, k: ObserverKey, callback: u64) -> (r: Result<bool, ResizeObserverError>)
        requires
            old(self).wf(),
        ensures
            final(self).wf(),
            final(self).generation_spec() == old(self).generation_spec(),
            final(self).latest_spec() == old(self).latest_spec(),
            final(self).latest_sizes() == old(self).latest_sizes(),
            final(self).has_waker_spec() == old(self).has_waker_spec(),
            final(self).pending_spec() == old(self).pending_spec(),
            !old(self).observers_spec().contains_key(k@) ==> r == Err::<bool, ResizeObserverError>(
                ResizeObserverError::Closed,
            ) && *final(self) == *old(self),
            old(self).observers_spec().contains_key(k@) ==> {
                &&& final(self).observers_spec() == old(self).observers_spec().insert(
                    k@,
                    ObserverStateView {
                        observations: old(self).observers_spec()[k@].observations,
                        callback: Some(callback),
                    },
                )
                &&& final(self).requested_spec() == (old(self).requested_spec() || old(
                    self,
                ).has_registration())
                &&& r == Ok::<bool, ResizeObserverError>(!old(self).requested_spec() && old(
                    self,
                ).has_registration() && old(self).has_waker_spec())
            },
    {
        let state = match observers_get(&self.observers, k) {
            None => return Err(ResizeObserverError::Closed),
            Some(st) => st,
        };
        let observations = copy_observations(&state.observations);
        observers_set(&mut self.observers, k, ObserverState { observations, callback: Some(callback) });
        proof {
            assert(old(self).observers_spec().contains_key(k@));
            assert forall|q: u64| #[trigger] self.observers_spec().contains_key(q) implies {
                let o3 = self.observers_spec()[q].observations;
                &&& forall|a: int, b: int| 0 <= a < b < o3.len() ==> (#[trigger] o3[a]).target != (#[trigger] o3[b]).target
                &&& forall|a: int| 0 <= a < o3.len() ==> (#[trigger] o3[a]).generation <= self.generation_spec()
            } by {
                assert(old(self).observers_spec().contains_key(q));
            }
            assert(self.has_registration() == old(self).has_registration()) by {
                if old(self).has_registration() {
                    let q = choose|q: u64| #[trigger]
                        old(self).observers_spec().contains_key(q) && old(self).observers_spec()[q].observations.len() > 0;
                    assert(self.observers_spec().contains_key(q));
                }
                if self.has_registration() {
                    let q = choose|q: u64| #[trigger]
                        self.observers_spec().contains_key(q) && self.observers_spec()[q].observations.len() > 0;
                    assert(old(self).observers_spec().contains_key(q));
                }
            }
        }
        let wake = self.request_measurement();
        Ok(wake)
    }
}

impl ResizeRegistry {
    /// Some observer registers `t`.
    pub open spec fn registers(&self, t: NodeId) -> bool {
        exists|k: u64, j: int|
            #![trigger self.observers_spec()[k].observations[j]]
            self.observers_spec().contains_key(k) && 0 <= j < self.observers_spec()[k].observations.len()
                && self.observers_spec()[k].observations[j].target == t
    }

    /// The targets that observers keep alive: every registered target.
    pub fn retained_targets(&self) -> (r: Vec<NodeId>)
        requires
            self.wf(),
        ensures
            forall|k: u64, j: int|
                #![trigger self.observers_spec()[k].observations[j]]
                self.observers_spec().contains_key(k) && 0 <= j < self.observers_spec()[k].observations.len()
                    ==> r@.contains(self.observers_spec()[k].observations[j].target),
            forall|m: int| 0 <= m < r@.len() ==> self.registers(#[trigger] r@[m]),
    {
        let keys = observers_keys(&self.observers);
        let mut r: Vec<NodeId> = Vec::new();
        let ghost mut wit: Seq<(u64, int)> = Seq::empty();
        let mut i: usize = 0;
        while i < keys.len()
            invariant
                0 <= i <= keys.len(),
                forall|j: int| 0 <= j < keys@.len() ==> self.observers_spec().contains_key(#[trigger] keys@[j]@),
                forall|k: u64| self.observers_spec().contains_key(k) ==> exists|j: int| 0 <= j < keys@.len() && #[trigger] keys@[j]@ == k,
                wit.len() == r@.len(),
                forall|m: int|
                    0 <= m < wit.len() ==> {
                        &&& self.observers_spec().contains_key((#[trigger] wit[m]).0)
                        &&& 0 <= wit[m].1 < self.observers_spec()[wit[m].0].observations.len()
                        &&& self.observers_spec()[wit[m].0].observations[wit[m].1].target == r@[m]
                    },
                forall|q: int, jj: int|
                    #![trigger self.observers_spec()[keys@[q]@].observations[jj]]
                    0 <= q < i && 0 <= jj < self.observers_spec()[keys@[q]@].observations.len() ==> r@.contains(
                        self.observers_spec()[keys@[q]@].observations[jj].target,
                    ),
            decreases keys.len() - i,
        {
            let key = keys[i];
            let state = observers_get(&self.observers, key).unwrap();
            let ghost obs = state.observations@;
            proof {
                assert(obs == self.observers_spec()[keys@[i as int]@].observations);
            }
            let mut j: usize = 0;
            while j < state.observations.len()
                invariant
                    0 <= j <= state.observations.len(),
                    obs == state.observations@,
                    self.observers_spec().contains_key(key@),
                    obs == self.observers_spec()[key@].observations,
                    keys@[i as int] == key,
                    0 <= i < keys@.len(),
                    wit.len() == r@.len(),
                    forall|m: int|
                        0 <= m < wit.len() ==> {
                            &&& self.observers_spec().contains_key((#[trigger] wit[m]).0)
                            &&& 0 <= wit[m].1 < self.observers_spec()[wit[m].0].observations.len()
                            &&& self.observers_spec()[wit[m].0].observations[wit[m].1].target == r@[m]
                        },
                    forall|q: int, jj: int|
                        #![trigger self.observers_spec()[keys@[q]@].observations[jj]]
                        0 <= q < i && 0 <= jj < self.observers_spec()[keys@[q]@].observations.len() ==> r@.contains(
                            self.observers_spec()[keys@[q]@].observations[jj].target,
                        ),
                    forall|p: int| 0 <= p < j ==> r@.contains(#[trigger] obs[p].target),
                decreases state.observations.len() - j,
            {
                let t = state.observations[j].target;
                let ghost r1 = r@;
                r.push(t);
                proof {
                    wit = wit.push((key@, j as int));
                    assert forall|y: NodeId| r1.contains(y) implies r@.contains(y) by {
                        let q = r1.index_of(y);
                        assert(r@[q] == y);
                    }
                    assert(r@[r1.len() as int] == t);
                    assert forall|p: int| 0 <= p < j + 1 implies r@.contains(#[trigger] obs[p].target) by {
                        if p < j {
                            assert(r1.contains(obs[p].target));
                        }
                    }
                    assert forall|q: int, jj: int|
                        #![trigger self.observers_spec()[keys@[q]@].observations[jj]]
                        0 <= q < i && 0 <= jj < self.observers_spec()[keys@[q]@].observations.len() implies r@.contains(
                            self.observers_spec()[keys@[q]@].observations[jj].target,
                        ) by {
                        assert(r1.contains(self.observers_spec()[keys@[q]@].observations[jj].target));
                    }
                }
                j += 1;
            }
            i += 1;
        }
        proof {
            assert forall|k: u64, jj: int|
                #![trigger self.observers_spec()[k].observations[jj]]
                self.observers_spec().contains_key(k) && 0 <= jj < self.observers_spec()[k].observations.len()
                    implies r@.contains(self.observers_spec()[k].observations[jj].target) by {
                let q = choose|q: int| 0 <= q < keys@.len() && #[trigger] keys@[q]@ == k;
                assert(self.observers_spec()[keys@[q]@].observations[jj].target == self.observers_spec()[k].observations[jj].target);
            }
            assert forall|m: int| 0 <= m < r@.len() implies self.registers(#[trigger] r@[m]) by {
                let (k, jj) = wit[m];
                assert(self.observers_spec()[k].observations[jj].target == r@[m]);
            }
        }
        r
    }

    /// Drops the registrations of targets that are no longer live nodes.
    pub fn prune(&mut self, dom: &Dom)
        requires
            old(self).wf(),
            dom.wf(),
        ensures
            final(self).wf(),
            final(self).keeps_state(&*old(self)),
            final(self).observers_spec().dom() == old(self).observers_spec().dom(),
            forall|k: u64| #[trigger]
                old(self).observers_spec().contains_key(k) ==> final(self).observers_spec()[k] == (ObserverStateView {
                    observations: old(self).observers_spec()[k].observations.filter(live_in(*dom)),
                    callback: old(self).observers_spec()[k].callback,
                }),
    {
        let keys = observers_keys(&self.observers);
        let mut i: usize = 0;
        while i < keys.len()
            invariant
                dom.wf(),
                0 <= i <= keys.len(),
                self.wf(),
                self.keeps_state(&*old(self)),
                keys@.map_values(|k: ObserverKey| k@).no_duplicates(),
                forall|j: int| 0 <= j < keys@.len() ==> old(self).observers_spec().contains_key(#[trigger] keys@[j]@),
                forall|k: u64| old(self).observers_spec().contains_key(k) ==> exists|j: int| 0 <= j < keys@.len() && #[trigger] keys@[j]@ == k,
                self.observers_spec().dom() == old(self).observers_spec().dom(),
                forall|j: int|
                    0 <= j < i ==> self.observers_spec()[#[trigger] keys@[j]@] == (ObserverStateView {
                        observations: old(self).observers_spec()[keys@[j]@].observations.filter(live_in(*dom)),
                        callback: old(self).observers_spec()[keys@[j]@].callback,
                    }),
                forall|j: int| i <= j < keys@.len() ==> self.observers_spec()[#[trigger] keys@[j]@] == old(self).observers_spec()[keys@[j]@],
            decreases keys.len() - i,
        {
            let k = keys[i];
            let state = observers_get(&self.observers, k).unwrap();
            let kept = live_observations(&state.observations, dom);
            proof {
                lemma_filter_keeps_shape(self.observers_spec()[k@].observations, live_in(*dom), self.generation_spec());
            }
            let ghost before = self.observers_spec();
            self.set_observations(k, kept);
            proof {
                assert forall|j: int| 0 <= j < keys@.len() && j != i implies keys@[j]@ != k@ by {
                    assert(keys@.map_values(|q: ObserverKey| q@)[j] == keys@[j]@);
                    assert(keys@.map_values(|q: ObserverKey| q@)[i as int] == k@);
                }
            }
            i += 1;
        }
        proof {
            assert forall|k: u64| #[trigger] old(self).observers_spec().contains_key(k) implies self.observers_spec()[k]
                == ObserverStateView {
                observations: old(self).observers_spec()[k].observations.filter(live_in(*dom)),
                callback: old(self).observers_spec()[k].callback,
            } by {
                let j = choose|j: int| 0 <= j < keys@.len() && #[trigger] keys@[j]@ == k;
                assert(keys@[j]@ == k);
            }
        }
    }
}

impl ResizeRegistry {
    /// Once delivery is due, prepares the batch of every observer that has
    /// a callback and something to report, before any callback runs, and
    /// marks delivery as no longer due. Observers come in the slot map's
    /// order.
    pub fn prepare_callbacks(&mut self, dom: &Dom) -> (r: Vec<NativeDelivery>)
        requires
            old(self).wf(),
            dom.wf(),
        ensures
            final(self).wf(),
            final(self).observers_spec() == old(self).observers_spec(),
            final(self).generation_spec() == old(self).generation_spec(),
            final(self).latest_spec() == old(self).latest_spec(),
            final(self).latest_sizes() == old(self).latest_sizes(),
            final(self).has_waker_spec() == old(self).has_waker_spec(),
            final(self).requested_spec() == old(self).requested_spec(),
            !final(self).pending_spec(),
            !old(self).pending_spec() ==> r@.len() == 0,
            forall|i: int|
                0 <= i < r@.len() ==> {
                    let d = #[trigger] r@[i];
                    let k = d.batch.observer_spec();
                    &&& d.batch.wf()
                    &&& old(self).observers_spec().contains_key(k)
                    &&& old(self).observers_spec()[k].callback == Some(d.callback)
                    &&& d.batch.registrations_spec() == old(self).pending_batch(k, *dom)
                    &&& old(self).latest_spec() == Some(d.batch.layout_spec())
                },
            forall|i: int, j: int|
                0 <= i < j < r@.len() ==> (#[trigger] r@[i]).batch.observer_spec() != (
                #[trigger] r@[j]).batch.observer_spec(),
            old(self).pending_spec() ==> forall|k: u64|
                #![trigger old(self).observers_spec()[k]]
                old(self).observers_spec().contains_key(k) && old(self).observers_spec()[k].callback is Some
                    && old(self).pending_batch(k, *dom).len() > 0 ==> exists|i: int|
                    0 <= i < r@.len() && (#[trigger] r@[i]).batch.observer_spec() == k,
    {
        let due = self.delivery_pending;
        self.delivery_pending = false;
        let mut deliveries: Vec<NativeDelivery> = Vec::new();
        if !due {
            return deliveries;
        }
        let keys = observers_keys(&self.observers);
        let mut i: usize = 0;
        while i < keys.len()
            invariant
                dom.wf(),
                self.wf(),
                0 <= i <= keys.len(),
                self.observers_spec() == old(self).observers_spec(),
                self.generation_spec() == old(self).generation_spec(),
                self.latest_spec() == old(self).latest_spec(),
                self.latest_sizes() == old(self).latest_sizes(),
                self.has_waker_spec() == old(self).has_waker_spec(),
                self.requested_spec() == old(self).requested_spec(),
                !self.pending_spec(),
                keys@.map_values(|k: ObserverKey| k@).no_duplicates(),
                forall|j: int| 0 <= j < keys@.len() ==> self.observers_spec().contains_key(#[trigger] keys@[j]@),
                forall|k: u64| self.observers_spec().contains_key(k) ==> exists|j: int| 0 <= j < keys@.len() && #[trigger] keys@[j]@ == k,
                forall|q: int|
                    0 <= q < deliveries@.len() ==> {
                        let d = #[trigger] deliveries@[q];
                        let k = d.batch.observer_spec();
                        &&& d.batch.wf()
                        &&& old(self).observers_spec().contains_key(k)
                        &&& old(self).observers_spec()[k].callback == Some(d.callback)
                        &&& d.batch.registrations_spec() == old(self).pending_batch(k, *dom)
                        &&& old(self).latest_spec() == Some(d.batch.layout_spec())
                        &&& exists|j: int| 0 <= j < i && #[trigger] keys@[j]@ == k
                    },
                forall|a: int, b: int|
                    0 <= a < b < deliveries@.len() ==> (#[trigger] deliveries@[a]).batch.observer_spec() != (
                    #[trigger] deliveries@[b]).batch.observer_spec(),
                forall|j: int|
                    0 <= j < i && old(self).observers_spec()[#[trigger] keys@[j]@].callback is Some && old(
                        self,
                    ).pending_batch(keys@[j]@, *dom).len() > 0 ==> exists|q: int|
                        0 <= q < deliveries@.len() && (#[trigger] deliveries@[q]).batch.observer_spec() == keys@[j]@,
            decreases keys.len() - i,
        {
            let key = keys[i];
            let callback = observers_get(&self.observers, key).unwrap().callback;
            let ghost before = deliveries@;
            proof {
                assert forall|j: int| 0 <= j < i implies keys@[j]@ != key@ by {
                    assert(keys@.map_values(|k: ObserverKey| k@)[j] == keys@[j]@);
                    assert(keys@.map_values(|k: ObserverKey| k@)[i as int] == key@);
                }
            }
            match callback {
                Some(token) => {
                    match self.prepare(key, dom) {
                        Ok(Some(batch)) => {
                            deliveries.push(NativeDelivery { callback: token, batch });
                            proof {
                                assert forall|a: int, b: int|
                                    0 <= a < b < deliveries@.len() implies (#[trigger] deliveries@[a]).batch.observer_spec() != (
                                    #[trigger] deliveries@[b]).batch.observer_spec() by {
                                    if b == before.len() {
                                        assert(deliveries@[a] == before[a]);
                                        let j = choose|j: int| 0 <= j < i && #[trigger] keys@[j]@ == before[a].batch.observer_spec();
                                        assert(keys@[j]@ != key@);
                                    } else {
                                        assert(deliveries@[a] == before[a]);
                                        assert(deliveries@[b] == before[b]);
                                    }
                                }
                                assert forall|q: int| 0 <= q < deliveries@.len() implies exists|j: int|
                                    0 <= j < i + 1 && #[trigger] keys@[j]@ == (#[trigger] deliveries@[q]).batch.observer_spec() by {
                                    if q < before.len() {
                                        assert(deliveries@[q] == before[q]);
                                        let j = choose|j: int| 0 <= j < i && #[trigger] keys@[j]@ == before[q].batch.observer_spec();
                                        assert(keys@[j]@ == deliveries@[q].batch.observer_spec());
                                    } else {
                                        assert(keys@[i as int]@ == deliveries@[q].batch.observer_spec());
                                    }
                                }
                                assert forall|j: int|
                                    0 <= j < i + 1 && old(self).observers_spec()[#[trigger] keys@[j]@].callback is Some && old(
                                        self,
                                    ).pending_batch(keys@[j]@, *dom).len() > 0 implies exists|q: int|
                                        0 <= q < deliveries@.len() && (#[trigger] deliveries@[q]).batch.observer_spec() == keys@[j]@ by {
                                    if j < i {
                                        let q = choose|q: int| 0 <= q < before.len() && (#[trigger] before[q]).batch.observer_spec() == keys@[j]@;
                                        assert(deliveries@[q] == before[q]);
                                    } else {
                                        assert(deliveries@[before.len() as int].batch.observer_spec() == keys@[j]@);
                                    }
                                }
                            }
                        },
                        _ => {
                            proof {
                                assert forall|j: int|
                                    0 <= j < i + 1 && old(self).observers_spec()[#[trigger] keys@[j]@].callback is Some && old(
                                        self,
                                    ).pending_batch(keys@[j]@, *dom).len() > 0 implies exists|q: int|
                                        0 <= q < deliveries@.len() && (#[trigger] deliveries@[q]).batch.observer_spec() == keys@[j]@ by {
                                    if j == i {
                                        assert(old(self).pending_batch(keys@[j]@, *dom).len() == 0);
                                    }
                                }
                            }
                        },
                    }
                },
                None => {},
            }
            i += 1;
        }
        proof {
            assert forall|k: u64|
                #![trigger old(self).observers_spec()[k]]
                old(self).observers_spec().contains_key(k) && old(self).observers_spec()[k].callback is Some
                    && old(self).pending_batch(k, *dom).len() > 0 implies exists|q: int|
                    0 <= q < deliveries@.len() && (#[trigger] deliveries@[q]).batch.observer_spec() == k by {
                let j = choose|j: int| 0 <= j < keys@.len() && #[trigger] keys@[j]@ == k;
                assert(old(self).observers_spec()[keys@[j]@].callback is Some);
            }
        }
        deliveries
    }
}

impl NativeDelivery {
    /// Reports the batch when its observer still has this callback; the
    /// entries come back for the host to hand to the callback, unless there
    /// are none.
    pub fn commit(self, registry: &mut ResizeRegistry, dom: &Dom) -> (r: Option<Vec<ResizeObserverEntry>>)
        requires
            old(registry).wf(),
            dom.wf(),
            self.batch.wf(),
        ensures
            final(registry).wf(),
            final(registry).keeps_state(&*old(registry)),
            ({
                let k = self.batch.observer_spec();
                let current = old(registry).observers_spec().contains_key(k)
                    && old(registry).observers_spec()[k].callback == Some(self.callback);
                let stale = self.batch.layout_spec().1 != dom.revision_spec()
                    || !(old(registry).latest_spec() matches Some((id, _)) && id == self.batch.layout_spec().0);
                let obs = old(registry).observers_spec()[k].observations;
                let regs = self.batch.registrations_spec();
                &&& !current || stale || !all_valid(regs, obs, *dom) ==> r is None
                    && final(registry).observers_spec() == old(registry).observers_spec()
                &&& current && !stale && all_valid(regs, obs, *dom) ==> {
                    &&& (r is Some <==> regs.len() > 0)
                    &&& r matches Some(entries) ==> entries@ == self.batch.entries_spec()
                    &&& final(registry).observers_spec().dom() == old(registry).observers_spec().dom()
                    &&& forall|q: u64|
                        q != k ==> #[trigger] final(registry).observers_spec()[q] == old(registry).observers_spec()[q]
                    &&& final(registry).observers_spec()[k].callback == old(registry).observers_spec()[k].callback
                    &&& advanced(obs, regs, final(registry).observers_spec()[k].observations)
                }
            }),
    {
        let k = self.batch.observer;
        let state = match observers_get(&registry.observers, k) {
            None => return None,
            Some(st) => st,
        };
        match state.callback {
            Some(c) => {
                if c != self.callback {
                    return None;
                }
            },
            None => return None,
        }
        match registry.commit(k, dom, self.batch) {
            Ok(entries) => {
                if entries.len() == 0 {
                    None
                } else {
                    Some(entries)
                }
            },
            Err(_) => None,
        }
    }
}

} // verus!
