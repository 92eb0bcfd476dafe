//! The set of nodes that currently have a canonical script wrapper, and the
//! nodes whose wrapper was dropped since the cache was last swept, together
//! with the document whose nodes the wrappers stand for.

use std::collections::HashSet;
use vstd::prelude::*;

use crate::dom::{Dom, DomError};
use crate::node_id::NodeId;

verus! {

broadcast use vstd::std_specs::hash::group_hash_axioms;

#[derive(Debug)]
pub struct WrapperRoots {
    nodes: HashSet<u64>,
    released: Vec<NodeId>,
}

impl WrapperRoots {
    /// The nodes with a live wrapper, in FFI form.
    pub closed spec fn live(&self) -> Set<u64> {
        self.nodes@
    }

    /// The nodes released since the last sweep, in release order.
    pub closed spec fn released_view(&self) -> Seq<NodeId> {
        self.released@
    }

    pub fn new() -> (r: WrapperRoots)
        ensures
            r.live() == Set::<u64>::empty(),
            r.released_view() == Seq::<NodeId>::empty(),
    {
        WrapperRoots { nodes: HashSet::new(), released: Vec::new() }
    }

    /// Registers the canonical wrapper of a node; each node has at most one.
    pub fn acquire(&mut self, id: NodeId)
        requires
            !old(self).live().contains(id@),
        ensures
            final(self).live() == old(self).live().insert(id@),
            final(self).released_view() == old(self).released_view(),
    {
        let inserted = self.nodes.insert(id.raw());
        proof {
            assert(inserted);
        }
    }

    /// Unregisters a dropped wrapper and queues its node for the cache sweep.
    pub fn release(&mut self, id: NodeId)
        ensures
            final(self).live() == old(self).live().remove(id@),
            final(self).released_view() == if old(self).live().contains(id@) {
                old(self).released_view().push(id)
            } else {
                old(self).released_view()
            },
    {
        let removed = self.nodes.remove(&id.raw());
        if removed {
            self.released.push(id);
        }
    }

    /// Takes the queued releases, leaving the queue empty.
    pub fn take_released(&mut self) -> (r: Vec<NodeId>)
        ensures
            r@ == old(self).released_view(),
            final(self).released_view() == Seq::<NodeId>::empty(),
            final(self).live() == old(self).live(),
    {
        let mut taken: Vec<NodeId> = Vec::new();
        std::mem::swap(&mut taken, &mut self.released);
        taken
    }

    /// The number of nodes with a live wrapper.
    pub fn live_wrapper_count(&self) -> (n: usize)
        ensures
            n == self.live().len(),
    {
        self.nodes.len()
    }

    pub fn has_wrapper(&self, id: NodeId) -> (r: bool)
        ensures
            r == self.live().contains(id@),
    {
        self.nodes.contains(&id.raw())
    }
}

/// The document the script bindings read, with the wrapper registry that
/// tracks which of its nodes scripts currently hold.
pub struct DomBindingState {
    pub dom: Dom,
    pub wrapper_roots: WrapperRoots,
}

impl DomBindingState {
    pub fn new(dom: Dom) -> (s: DomBindingState)
        ensures
            s.dom == dom,
            s.wrapper_roots.live() == Set::<u64>::empty(),
            s.wrapper_roots.released_view() == Seq::<NodeId>::empty(),
    {
        DomBindingState { dom, wrapper_roots: WrapperRoots::new() }
    }

    /// Registers the canonical wrapper of a live node. A node that is not in
    /// the document gets no wrapper.
    pub fn acquire_wrapper(&mut self, id: NodeId) -> (r: Result<(), DomError>)
        requires
            old(self).dom.contains_node(id) ==> !old(self).wrapper_roots.live().contains(id@),
        ensures
            final(self).dom == old(self).dom,
            r is Ok <==> old(self).dom.contains_node(id),
            r is Err ==> r == Err::<(), DomError>(DomError::NodeNotFound(id)),
            r is Err ==> final(self).wrapper_roots == old(self).wrapper_roots,
            r is Ok ==> final(self).wrapper_roots.live() == old(self).wrapper_roots.live().insert(
                id@,
            ),
            final(self).wrapper_roots.released_view() == old(self).wrapper_roots.released_view(),
    {
        if !self.dom.contains(id) {
            return Err(DomError::NodeNotFound(id));
        }
        self.wrapper_roots.acquire(id);
        Ok(())
    }

    /// Drops the canonical wrapper of a node and queues the node for the next
    /// sweep of the script-side cache.
    pub fn release_wrapper(&mut self, id: NodeId)
        ensures
            final(self).dom == old(self).dom,
            final(self).wrapper_roots.live() == old(self).wrapper_roots.live().remove(id@),
            final(self).wrapper_roots.released_view() == if old(self).wrapper_roots.live().contains(
                id@,
            ) {
                old(self).wrapper_roots.released_view().push(id)
            } else {
                old(self).wrapper_roots.released_view()
            },
    {
        self.wrapper_roots.release(id);
    }

    /// The nodes whose wrappers were dropped since the last call, in the
    /// order they were dropped; the queue is left empty.
    pub fn take_released_wrappers(&mut self) -> (r: Vec<NodeId>)
        ensures
            r@ == old(self).wrapper_roots.released_view(),
            final(self).wrapper_roots.released_view() == Seq::<NodeId>::empty(),
            final(self).wrapper_roots.live() == old(self).wrapper_roots.live(),
            final(self).dom == old(self).dom,
    {
        self.wrapper_roots.take_released()
    }

    pub fn live_wrapper_count(&self) -> (n: usize)
        ensures
            n == self.wrapper_roots.live().len(),
    {
        self.wrapper_roots.live_wrapper_count()
    }

    pub fn has_wrapper(&self, id: NodeId) -> (r: bool)
        ensures
            r == self.wrapper_roots.live().contains(id@),
    {
        self.wrapper_roots.has_wrapper(id)
    }
}

} // verus!
