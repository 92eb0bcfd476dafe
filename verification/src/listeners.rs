//! The event listeners registered on one node.
//!
//! A registry keeps its registrations in the order they were made. Each
//! listener gets an identity that no earlier listener of the registry had,
//! and a callback is registered at most once per event type.
use vstd::prelude::*;
use vstd::std_specs::cmp::PartialEqSpec;

use crate::seqs::lemma_filter_push;

verus! {

/// A registered listener: the identity it was given and its callback.
pub struct EventListener<C> {
    pub id: u64,
    pub callback: C,
}

/// One registration: the event type and the listener.
struct Registration<C> {
    event_type: String,
    listener: EventListener<C>,
}

/// The listeners of one node, in registration order.
pub struct ListenerRegistry<C> {
    entries: Vec<Registration<C>>,
    next_id: u64,
}

/// The listeners registered for the event type `t`, in registration order,
/// as identity and callback.
pub open spec fn listeners_for<C>(s: Seq<(Seq<char>, u64, C)>, t: Seq<char>) -> Seq<(u64, C)> {
    s.filter(for_type(t)).map_values(|e: (Seq<char>, u64, C)| (e.1, e.2))
}

/// The registrations for the event type `t`.
pub open spec fn for_type<C>(t: Seq<char>) -> spec_fn((Seq<char>, u64, C)) -> bool {
    |e: (Seq<char>, u64, C)| e.0 == t
}

/// Filtering keeps a sequence whose every element passes.
proof fn lemma_filter_all<A>(s: Seq<A>, p: spec_fn(A) -> bool)
    requires
        forall|i: int| 0 <= i < s.len() ==> #[trigger] p(s[i]),
    ensures
        s.filter(p) == s,
    decreases s.len(),
{
    reveal(Seq::filter);
    if s.len() > 0 {
        lemma_filter_all(s.drop_last(), p);
        assert(s.drop_last().push(s.last()) =~= s);
    } else {
        assert(s.filter(p) =~= s);
    }
}

/// The listeners for a type after one more registration.
proof fn lemma_listeners_push<C>(s: Seq<(Seq<char>, u64, C)>, e: (Seq<char>, u64, C), t: Seq<char>)
    ensures
        listeners_for(s.push(e), t) == (if e.0 == t {
            listeners_for(s, t).push((e.1, e.2))
        } else {
            listeners_for(s, t)
        }),
{
    lemma_filter_push(s, e, for_type(t));
    if e.0 == t {
        assert(listeners_for(s.push(e), t) =~= listeners_for(s, t).push((e.1, e.2)));
    }
}

/// Identities strictly increase along the registrations and all lie below
/// the next identity to give out.
pub open spec fn ids_fresh<C>(s: Seq<(Seq<char>, u64, C)>, next: u64) -> bool {
    &&& forall|i: int, j: int| 0 <= i < j < s.len() ==> #[trigger] s[i].1 < #[trigger] s[j].1
    &&& forall|i: int| 0 <= i < s.len() ==> #[trigger] s[i].1 < next
}

/// Some registration for `t` holds a callback equal to `c`.
pub open spec fn registered_equal<C: PartialEq>(s: Seq<(Seq<char>, u64, C)>, t: Seq<char>, c: C) -> bool {
    exists|i: int| 0 <= i < s.len() && s[i].0 == t && #[trigger] s[i].2.eq_spec(&c)
}

/// What `remove` keeps of a registration: all but those for `t` whose
/// callback equals `c`.
pub open spec fn kept_after_remove<C: PartialEq>(t: Seq<char>, c: C) -> spec_fn((Seq<char>, u64, C)) -> bool {
    |e: (Seq<char>, u64, C)| !(e.0 == t && e.2.eq_spec(&c))
}

/// Whether the registrations hold the identity `id` for the event type `t`.
pub open spec fn holds_id<C>(s: Seq<(Seq<char>, u64, C)>, t: Seq<char>, id: u64) -> bool {
    exists|i: int| 0 <= i < s.len() && s[i].0 == t && #[trigger] s[i].1 == id
}

/// Registering a callback that equals itself for `t`, where no equal one
/// was registered for `t`, and then removing it from `t`, leaves the
/// registrations as they were.
pub proof fn lemma_remove_undoes_add<C: PartialEq>(
    s: Seq<(Seq<char>, u64, C)>,
    t: Seq<char>,
    id: u64,
    c: C,
)
    requires
        !registered_equal(s, t, c),
        c.eq_spec(&c),
    ensures
        s.push((t, id, c)).filter(kept_after_remove(t, c)) == s,
{
    lemma_filter_push(s, (t, id, c), kept_after_remove(t, c));
    assert forall|i: int| 0 <= i < s.len() implies #[trigger] kept_after_remove(t, c)(s[i]) by {
        if s[i].0 == t && s[i].2.eq_spec(&c) {
            assert(registered_equal(s, t, c));
        }
    }
    lemma_filter_all(s, kept_after_remove(t, c));
}

/// Once a callback that equals itself is registered for `t`, registering it
/// for `t` again is refused.
pub proof fn lemma_add_twice_refused<C: PartialEq>(
    s: Seq<(Seq<char>, u64, C)>,
    t: Seq<char>,
    id: u64,
    c: C,
)
    requires
        c.eq_spec(&c),
    ensures
        registered_equal(s.push((t, id, c)), t, c),
{
    let s2 = s.push((t, id, c));
    assert(s2[s.len() as int].2.eq_spec(&c));
}

impl<C> Default for ListenerRegistry<C> {
    fn default() -> (r: Self)
        ensures
            r.wf(),
            r.registrations() == Seq::<(Seq<char>, u64, C)>::empty(),
            r.next_id_spec() == 0,
    {
        Self::new()
    }
}

impl<C> ListenerRegistry<C> {
    /// The registrations, in order, as event type, identity and callback.
    pub closed spec fn registrations(&self) -> Seq<(Seq<char>, u64, C)> {
        self.entries@.map_values(
            |r: Registration<C>| (r.event_type@, r.listener.id, r.listener.callback),
        )
    }

    /// The identity the next listener will get.
    pub closed spec fn next_id_spec(&self) -> u64 {
        self.next_id
    }

    pub open spec fn wf(&self) -> bool {
        ids_fresh(self.registrations(), self.next_id_spec())
    }

    /// A registry with no listeners.
    pub fn new() -> (r: Self)
        ensures
            r.wf(),
            r.registrations() == Seq::<(Seq<char>, u64, C)>::empty(),
            r.next_id_spec() == 0,
    {
        let r = ListenerRegistry { entries: Vec::new(), next_id: 0 };
        assert(r.registrations() =~= Seq::<(Seq<char>, u64, C)>::empty());
        r
    }

    /// Registers `callback` for `event_type`, unless an equal callback is
    /// registered for it already; says whether it registered.
    pub fn add(&mut self, event_type: String, callback: C) -> (r: bool) where C: PartialEq
        requires
            old(self).wf(),
            old(self).next_id_spec() < u64::MAX || (C::obeys_eq_spec() && registered_equal(
                old(self).registrations(),
                event_type@,
                callback,
            )),
        ensures
            final(self).wf(),
            C::obeys_eq_spec() ==> (r <==> !registered_equal(
                old(self).registrations(),
                event_type@,
                callback,
            )),
            r ==> final(self).registrations() == old(self).registrations().push(
                (event_type@, old(self).next_id_spec(), callback),
            ) && final(self).next_id_spec() == old(self).next_id_spec() + 1,
            !r ==> final(self).registrations() == old(self).registrations()
                && final(self).next_id_spec() == old(self).next_id_spec(),
    {
        if self.holds_equal(&event_type, &callback) {
            return false;
        }
        let id = self.next_id;
        self.next_id = id + 1;
        self.entries.push(Registration { event_type, listener: EventListener { id, callback } });
        proof {
            assert(self.registrations() =~= old(self).registrations().push(
                (event_type@, id, callback),
            ));
        }
        true
    }

    /// Unregisters from `event_type` every callback equal to `callback`;
    /// says whether any was registered.
    pub fn remove(&mut self, event_type: &str, callback: &C) -> (r: bool) where C: PartialEq
        requires
            old(self).wf(),
        ensures
            final(self).wf(),
            final(self).next_id_spec() == old(self).next_id_spec(),
            C::obeys_eq_spec() ==> final(self).registrations() == old(self).registrations().filter(
                kept_after_remove(event_type@, *callback),
            ),
            forall|u: Seq<char>|
                u != event_type@ ==> #[trigger] listeners_for(final(self).registrations(), u)
                    == listeners_for(old(self).registrations(), u),
            r <==> final(self).registrations().len() < old(self).registrations().len(),
    {
        let t = event_type.to_owned();
        let old_len = self.entries.len();
        let ghost regs = self.registrations();
        let ghost mut kept = Seq::<(Seq<char>, u64, C)>::empty();
        let ghost mut j: int = 0;
        let mut i: usize = 0;
        proof {
            assert(regs.subrange(0, 0) =~= Seq::<(Seq<char>, u64, C)>::empty());
            assert(regs.subrange(0, regs.len() as int) =~= regs);
            reveal(Seq::filter);
        }
        while i < self.entries.len()
            invariant
                t@ == event_type@,
                regs == old(self).registrations(),
                old_len == regs.len(),
                self.next_id == old(self).next_id,
                0 <= i <= self.entries.len(),
                0 <= j <= regs.len(),
                kept.len() == i,
                i <= j,
                self.registrations() == kept + regs.subrange(j, regs.len() as int),
                C::obeys_eq_spec() ==> kept == regs.subrange(0, j).filter(
                    kept_after_remove(t@, *callback),
                ),
                forall|u: Seq<char>|
                    u != t@ ==> #[trigger] listeners_for(kept, u) == listeners_for(
                        regs.subrange(0, j),
                        u,
                    ),
                ids_fresh(self.registrations(), self.next_id),
            decreases self.entries.len() - i,
        {
            let ghost x = regs[j];
            proof {
                assert(self.registrations()[i as int] == x);
                assert(regs.subrange(0, j + 1) =~= regs.subrange(0, j).push(x));
                lemma_filter_push(regs.subrange(0, j), x, kept_after_remove(t@, *callback));
                assert forall|u: Seq<char>| u != t@ implies #[trigger] listeners_for(
                    regs.subrange(0, j + 1),
                    u,
                ) == listeners_for(regs.subrange(0, j), u) + (if x.0 == u {
                    seq![(x.1, x.2)]
                } else {
                    Seq::empty()
                }) by {
                    lemma_listeners_push(regs.subrange(0, j), x, u);
                    if x.0 == u {
                        assert(listeners_for(regs.subrange(0, j), u).push((x.1, x.2)) =~= listeners_for(
                            regs.subrange(0, j),
                            u,
                        ) + seq![(x.1, x.2)]);
                    } else {
                        assert(listeners_for(regs.subrange(0, j), u) + Seq::empty() =~= listeners_for(
                            regs.subrange(0, j),
                            u,
                        ));
                    }
                }
            }
            let same_type = self.entries[i].event_type == t;
            if same_type && !(self.entries[i].listener.callback != *callback) {
                let ghost before = self.registrations();
                self.entries.remove(i);
                proof {
                    assert(self.registrations() =~= before.remove(i as int));
                    assert(self.registrations() =~= kept + regs.subrange(j + 1, regs.len() as int));
                    assert forall|u: Seq<char>| u != t@ implies #[trigger] listeners_for(kept, u)
                        == listeners_for(regs.subrange(0, j + 1), u) by {
                        assert(listeners_for(regs.subrange(0, j), u) + Seq::<(u64, C)>::empty()
                            =~= listeners_for(regs.subrange(0, j), u));
                    }
                    assert forall|a: int, b: int|
                        0 <= a < b < self.registrations().len() implies #[trigger] self.registrations()[a].1
                        < #[trigger] self.registrations()[b].1 by {
                        let a2 = if a < i { a } else { a + 1 };
                        let b2 = if b < i { b } else { b + 1 };
                        assert(self.registrations()[a] == before[a2]);
                        assert(self.registrations()[b] == before[b2]);
                    }
                    assert forall|a: int| 0 <= a < self.registrations().len() implies #[trigger] self.registrations()[a].1
                        < self.next_id by {
                        let a2 = if a < i { a } else { a + 1 };
                        assert(self.registrations()[a] == before[a2]);
                    }
                }
            } else {
                proof {
                    let k2 = kept.push(x);
                    assert(k2 + regs.subrange(j + 1, regs.len() as int) =~= kept + regs.subrange(
                        j,
                        regs.len() as int,
                    ));
                    assert forall|u: Seq<char>| u != t@ implies #[trigger] listeners_for(k2, u)
                        == listeners_for(regs.subrange(0, j + 1), u) by {
                        lemma_listeners_push(kept, x, u);
                        if x.0 == u {
                            assert(listeners_for(kept, u).push((x.1, x.2)) =~= listeners_for(kept, u)
                                + seq![(x.1, x.2)]);
                        } else {
                            assert(listeners_for(kept, u) + Seq::<(u64, C)>::empty() =~= listeners_for(
                                kept,
                                u,
                            ));
                        }
                    }
                    kept = k2;
                }
                i += 1;
            }
            proof {
                j = j + 1;
            }
        }
        proof {
            assert(j == regs.len()) by {
                assert(self.registrations().len() == kept.len() + regs.len() - j);
            }
            assert(regs.subrange(j, regs.len() as int) =~= Seq::<(Seq<char>, u64, C)>::empty());
            assert(self.registrations() =~= kept);
            assert(regs.subrange(0, j) =~= regs);
        }
        self.entries.len() != old_len
    }

    /// The listeners registered for `event_type`, in registration order,
    /// with their callbacks cloned.
    pub fn matching(&self, event_type: &str) -> (r: Vec<EventListener<C>>) where C: Clone
        ensures
            r.len() == listeners_for(self.registrations(), event_type@).len(),
            forall|k: int|
                0 <= k < r.len() ==> (#[trigger] r@[k]).id == listeners_for(
                    self.registrations(),
                    event_type@,
                )[k].0 && cloned(listeners_for(self.registrations(), event_type@)[k].1, r@[k].callback),
    {
        let t = event_type.to_owned();
        let ghost regs = self.registrations();
        let mut r: Vec<EventListener<C>> = Vec::new();
        let mut i: usize = 0;
        proof {
            assert(regs.subrange(0, 0) =~= Seq::<(Seq<char>, u64, C)>::empty());
            reveal(Seq::filter);
        }
        while i < self.entries.len()
            invariant
                t@ == event_type@,
                regs == self.registrations(),
                0 <= i <= self.entries.len(),
                r.len() == listeners_for(regs.subrange(0, i as int), t@).len(),
                forall|k: int|
                    0 <= k < r.len() ==> (#[trigger] r@[k]).id == listeners_for(
                        regs.subrange(0, i as int),
                        t@,
                    )[k].0 && cloned(listeners_for(regs.subrange(0, i as int), t@)[k].1, r@[k].callback),
            decreases self.entries.len() - i,
        {
            let e = &self.entries[i];
            proof {
                assert(regs[i as int] == (e.event_type@, e.listener.id, e.listener.callback));
                assert(regs.subrange(0, i + 1) =~= regs.subrange(0, i as int).push(regs[i as int]));
                lemma_listeners_push(regs.subrange(0, i as int), regs[i as int], t@);
            }
            if e.event_type == t {
                let callback = e.listener.callback.clone();
                r.push(EventListener { id: e.listener.id, callback });
            }
            i += 1;
        }
        proof {
            assert(regs.subrange(0, i as int) =~= regs);
        }
        r
    }

    /// Whether the listener `listener_id` is registered for `event_type`.
    pub fn contains(&self, event_type: &str, listener_id: u64) -> (r: bool)
        ensures
            r <==> holds_id(self.registrations(), event_type@, listener_id),
    {
        let t = event_type.to_owned();
        let mut i: usize = 0;
        while i < self.entries.len()
            invariant
                t@ == event_type@,
                0 <= i <= self.entries.len(),
                forall|k: int|
                    0 <= k < i ==> !(self.registrations()[k].0 == t@ && #[trigger] self.registrations()[k].1
                        == listener_id),
            decreases self.entries.len() - i,
        {
            let e = &self.entries[i];
            proof {
                assert(self.registrations()[i as int] == (e.event_type@, e.listener.id, e.listener.callback));
            }
            if e.event_type == t && e.listener.id == listener_id {
                proof {
                    let v = self.registrations()[i as int];
                    assert(v.0 == event_type@ && v.1 == listener_id);
                }
                return true;
            }
            i += 1;
        }
        false
    }

    /// The identity the next listener will get.
    pub fn next_id(&self) -> (r: u64)
        ensures
            r == self.next_id_spec(),
    {
        self.next_id
    }

    /// Whether no listener is registered.
    pub fn is_empty(&self) -> (r: bool)
        ensures
            r <==> self.registrations().len() == 0,
    {
        self.entries.len() == 0
    }

    /// Whether some registration for `event_type` holds a callback equal to
    /// `callback`.
    fn holds_equal(&self, event_type: &String, callback: &C) -> (r: bool) where C: PartialEq
        ensures
            C::obeys_eq_spec() ==> (r <==> registered_equal(
                self.registrations(),
                event_type@,
                *callback,
            )),
    {
        let mut i: usize = 0;
        while i < self.entries.len()
            invariant
                0 <= i <= self.entries.len(),
                C::obeys_eq_spec() ==> forall|k: int|
                    0 <= k < i ==> !(self.registrations()[k].0 == event_type@
                        && #[trigger] self.registrations()[k].2.eq_spec(callback)),
            decreases self.entries.len() - i,
        {
            let e = &self.entries[i];
            if e.event_type == *event_type && e.listener.callback == *callback {
                proof {
                    let v = self.registrations()[i as int];
                    assert(v == (e.event_type@, e.listener.id, e.listener.callback));
                    if C::obeys_eq_spec() {
                        assert(v.2.eq_spec(callback));
                    }
                }
                return true;
            }
            i += 1;
        }
        false
    }
}

} // verus!
