//! How a pointing event travels along its path: which listener is
//! considered next, and how the event's flags cut the travel short.
//!
//! The path lists the target first and then its ancestors. Each node on it
//! contributes the listeners it had when the dispatch began. Listeners run
//! in path order and, on one node, in registration order. After a listener
//! calls `stopPropagation`, the remaining listeners of that node still run
//! and no later node is reached; after `stopImmediatePropagation`, nothing
//! more runs at all.
use vstd::prelude::*;

verus! {

/// The flags a dispatched event carries.
#[derive(Clone, Copy, Debug, PartialEq, Eq, Structural)]
pub struct EventFlags {
    pub cancelable: bool,
    pub default_prevented: bool,
    pub propagation_stopped: bool,
    pub immediate_propagation_stopped: bool,
}

impl EventFlags {
    /// The flags of a fresh event.
    pub fn new(cancelable: bool) -> (r: Self)
        ensures
            r == (EventFlags {
                cancelable,
                default_prevented: false,
                propagation_stopped: false,
                immediate_propagation_stopped: false,
            }),
    {
        EventFlags {
            cancelable,
            default_prevented: false,
            propagation_stopped: false,
            immediate_propagation_stopped: false,
        }
    }

    /// `preventDefault`: marks the default action prevented, where the event
    /// can be cancelled.
    pub fn prevent_default(&mut self)
        ensures
            final(self).default_prevented == (old(self).default_prevented || old(self).cancelable),
            final(self).cancelable == old(self).cancelable,
            final(self).propagation_stopped == old(self).propagation_stopped,
            final(self).immediate_propagation_stopped == old(self).immediate_propagation_stopped,
    {
        if self.cancelable {
            self.default_prevented = true;
        }
    }

    /// `stopPropagation`: no node after the current one is reached.
    pub fn stop_propagation(&mut self)
        ensures
            *final(self) == (EventFlags { propagation_stopped: true, ..*old(self) }),
    {
        self.propagation_stopped = true;
    }

    /// `stopImmediatePropagation`: no further listener runs.
    pub fn stop_immediate_propagation(&mut self)
        ensures
            *final(self) == (EventFlags {
                propagation_stopped: true,
                immediate_propagation_stopped: true,
                ..*old(self)
            }),
    {
        self.propagation_stopped = true;
        self.immediate_propagation_stopped = true;
    }
}

/// The first listener to consider from listener `j` of path node `i` on,
/// where node `k` has `counts[k]` listeners; `stopped` says whether the
/// event's propagation is stopped, which ends the travel at the end of the
/// current node.
pub open spec fn settle(counts: Seq<usize>, i: int, j: int, stopped: bool) -> Option<(int, int)>
    decreases counts.len() - i,
{
    if i < 0 || i >= counts.len() {
        None
    } else if j < counts[i] {
        Some((i, j))
    } else if stopped {
        None
    } else {
        settle(counts, i + 1, 0, stopped)
    }
}

/// Where the travel goes after the listener at (`i`, `j`) ran and left the
/// event with `flags`.
pub open spec fn after_call(counts: Seq<usize>, i: int, j: int, flags: EventFlags) -> Option<(int, int)> {
    if flags.immediate_propagation_stopped {
        if flags.propagation_stopped {
            None
        } else {
            settle(counts, i + 1, 0, false)
        }
    } else {
        settle(counts, i, j + 1, flags.propagation_stopped)
    }
}

/// A position as the contracts see it.
pub open spec fn position_view(p: Option<(usize, usize)>) -> Option<(int, int)> {
    match p {
        Some((i, j)) => Some((i as int, j as int)),
        None => None,
    }
}

/// The travel of one event along its path.
pub struct Dispatch {
    counts: Vec<usize>,
    position: Option<(usize, usize)>,
}

impl Dispatch {
    /// How many listeners each node on the path had when the dispatch began.
    pub closed spec fn counts_spec(&self) -> Seq<usize> {
        self.counts@
    }

    /// The listener to consider now, as path node and listener index;
    /// `None` once the travel is over.
    pub closed spec fn position_spec(&self) -> Option<(int, int)> {
        position_view(self.position)
    }

    pub open spec fn wf(&self) -> bool {
        self.position_spec() matches Some((i, j)) ==> 0 <= i < self.counts_spec().len() && 0 <= j
            < self.counts_spec()[i]
    }

    /// Starts the travel over a path whose node `k` has `counts[k]`
    /// listeners. It is over at once exactly when no node has any.
    pub fn new(counts: Vec<usize>) -> (r: Self)
        ensures
            r.wf(),
            r.counts_spec() == counts@,
            r.position_spec() == settle(counts@, 0, 0, false),
            r.position_spec() is None <==> forall|k: int| 0 <= k < counts.len() ==> counts[k] == 0,
    {
        let position = settle_from(&counts, 0, 0, false);
        proof {
            lemma_settle_in_range(counts@, 0, 0, false);
            lemma_none_without_listeners(counts@, 0);
        }
        Dispatch { counts, position }
    }

    /// The listener to consider now.
    pub fn position(&self) -> (r: Option<(usize, usize)>)
        ensures
            position_view(r) == self.position_spec(),
    {
        self.position
    }

    /// The listener at the current position is no longer registered: moves
    /// on without running it; `flags` are the event's flags now.
    pub fn skip(&mut self, flags: &EventFlags)
        requires
            old(self).wf(),
            old(self).position_spec() is Some,
        ensures
            final(self).wf(),
            final(self).counts_spec() == old(self).counts_spec(),
            ({
                let (i, j) = old(self).position_spec()->0;
                final(self).position_spec() == settle(
                    old(self).counts_spec(),
                    i,
                    j + 1,
                    flags.propagation_stopped,
                )
            }),
    {
        let (i, j) = self.position.unwrap();
        let next = settle_from(&self.counts, i, j + 1, flags.propagation_stopped);
        proof {
            lemma_settle_in_range(self.counts@, i as int, j + 1, flags.propagation_stopped);
        }
        self.position = next;
    }

    /// The listener at the current position ran and left the event with
    /// `flags`: moves on.
    pub fn ran(&mut self, flags: &EventFlags)
        requires
            old(self).wf(),
            old(self).position_spec() is Some,
        ensures
            final(self).wf(),
            final(self).counts_spec() == old(self).counts_spec(),
            ({
                let (i, j) = old(self).position_spec()->0;
                final(self).position_spec() == after_call(old(self).counts_spec(), i, j, *flags)
            }),
    {
        let (i, j) = self.position.unwrap();
        assert(i < self.counts.len());
        let next = if flags.immediate_propagation_stopped {
            if flags.propagation_stopped {
                None
            } else {
                proof {
                    lemma_settle_in_range(self.counts@, i + 1, 0, false);
                }
                settle_from(&self.counts, i + 1, 0, false)
            }
        } else {
            proof {
                lemma_settle_in_range(self.counts@, i as int, j + 1, flags.propagation_stopped);
            }
            settle_from(&self.counts, i, j + 1, flags.propagation_stopped)
        };
        self.position = next;
    }
}

/// Computes [`settle`].
fn settle_from(counts: &Vec<usize>, i: usize, j: usize, stopped: bool) -> (r: Option<(usize, usize)>)
    requires
        i <= counts.len(),
    ensures
        position_view(r) == settle(counts@, i as int, j as int, stopped),
{
    let mut a = i;
    let mut b = j;
    while a < counts.len()
        invariant
            i <= a <= counts.len(),
            settle(counts@, a as int, b as int, stopped) == settle(counts@, i as int, j as int, stopped),
        decreases counts.len() - a,
    {
        if b < counts[a] {
            return Some((a, b));
        }
        if stopped {
            return None;
        }
        a = a + 1;
        b = 0;
    }
    None
}

/// What [`settle`] finds is a listener of the path, at or after the start.
pub proof fn lemma_settle_in_range(counts: Seq<usize>, i: int, j: int, stopped: bool)
    requires
        0 <= j,
    ensures
        settle(counts, i, j, stopped) matches Some((a, b)) ==> {
            &&& 0 <= a < counts.len()
            &&& 0 <= b < counts[a]
            &&& (a > i || (a == i && b >= j))
        },
    decreases counts.len() - i,
{
    if 0 <= i < counts.len() && !(j < counts[i]) && !stopped {
        lemma_settle_in_range(counts, i + 1, 0, stopped);
    }
}

/// From node `i` on, the travel finds no listener exactly when no node from
/// `i` on has one.
proof fn lemma_none_without_listeners(counts: Seq<usize>, i: int)
    requires
        0 <= i,
    ensures
        settle(counts, i, 0, false) is None <==> forall|k: int| i <= k < counts.len() ==> counts[k] == 0,
    decreases counts.len() - i,
{
    if i < counts.len() {
        lemma_none_without_listeners(counts, i + 1);
        if counts[i] == 0 {
            assert forall|k: int| i <= k < counts.len() && (forall|m: int| i + 1 <= m < counts.len() ==> counts[m] == 0) implies counts[k] == 0 by {
                if k != i {
                    assert(i + 1 <= k);
                }
            }
        }
    }
}

/// After a listener calls `stopPropagation` (and not
/// `stopImmediatePropagation`), the travel does not leave its node: the
/// node's remaining listeners may still run, no later node's do.
pub proof fn lemma_stop_propagation_stays(counts: Seq<usize>, i: int, j: int, f: EventFlags)
    requires
        !f.immediate_propagation_stopped,
    ensures
        after_call(counts, i, j, EventFlags { propagation_stopped: true, ..f }) matches Some((a, _))
            ==> a == i,
{
}

/// After a listener calls `stopImmediatePropagation`, nothing more runs.
pub proof fn lemma_stop_immediate_ends(counts: Seq<usize>, i: int, j: int, f: EventFlags)
    ensures
        after_call(
            counts,
            i,
            j,
            EventFlags { propagation_stopped: true, immediate_propagation_stopped: true, ..f },
        ) is None,
{
}

} // verus!
