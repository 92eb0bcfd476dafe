//! The committed document that the UI thread reads, published by the script
//! host at checkpoints through an `arc_swap::ArcSwap`.
//!
//! Each publication is a snapshot: a copy of the document and the revision
//! of the publication, counted from the initial snapshot's revision 0.

use std::sync::Arc;

use arc_swap::ArcSwap;
use vstd::prelude::*;

use crate::dom::Dom;

verus! {

/// One published document and the revision of its publication.
pub struct Snapshot {
    pub revision: u64,
    pub dom: Dom,
}

/// The swap cell that holds the latest snapshot. Verus cannot take the swap
/// cell's type itself: its default loading strategy is a type of a private
/// module of arc-swap, which cannot be declared. So the cell sits in the
/// private field of this opaque struct.
#[verifier::external_body]
pub struct DomCell {
    cell: Arc<ArcSwap<Snapshot>>,
}

/// Calls `ArcSwap::from_pointee` with `initial`, in a new `Arc`.
#[verifier::external_body]
fn cell_new(initial: Snapshot) -> DomCell
    requires
        initial.dom.wf(),
{
    DomCell { cell: Arc::new(ArcSwap::from_pointee(initial)) }
}

/// Calls `Arc::clone` on the cell. The clone is the same cell: as vstd
/// specifies `Arc::clone`, the result equals its argument.
#[verifier::external_body]
fn cell_handle(c: &DomCell) -> (r: DomCell)
    ensures
        r == *c,
{
    DomCell { cell: Arc::clone(&c.cell) }
}

/// Calls `ArcSwap::store`: loads see `snapshot` from now on, until the next
/// store through any handle of the cell.
#[verifier::external_body]
fn cell_store(c: &DomCell, snapshot: Snapshot)
    requires
        snapshot.dom.wf(),
{
    c.cell.store(Arc::new(snapshot))
}

/// Calls `ArcSwap::load_full`. The cell is private to this module and every
/// snapshot stored in it holds a well-formed document (`cell_new` and
/// `cell_store` require it), so the loaded one does. Which snapshot it is
/// depends on other threads' stores, and is left unsaid.
#[verifier::external_body]
fn cell_load(c: &DomCell) -> (r: Arc<Snapshot>)
    ensures
        r.dom.wf(),
{
    c.cell.load_full()
}

/// A handle to the published document: the shared cell, and the snapshot
/// this handle last published, if any.
pub struct SharedDom {
    cell: DomCell,
    last: Ghost<Option<Snapshot>>,
}

impl SharedDom {
    /// The cell this handle publishes into.
    pub closed spec fn cell_spec(&self) -> DomCell {
        self.cell
    }

    /// The snapshot this handle last published.
    pub closed spec fn last_published(&self) -> Option<Snapshot> {
        self.last@
    }

    /// A new cell holding `initial` at revision 0.
    pub fn publishing(initial: Dom) -> (r: SharedDom)
        requires
            initial.wf(),
        ensures
            r.last_published() == Some(Snapshot { revision: 0, dom: initial }),
    {
        let ghost first = Snapshot { revision: 0, dom: initial };
        SharedDom { cell: cell_new(Snapshot { revision: 0, dom: initial }), last: Ghost(Some(first)) }
    }

    /// Another handle to the same cell, which has published nothing yet.
    pub fn handle(&self) -> (r: SharedDom)
        ensures
            r.cell_spec() == self.cell_spec(),
            r.last_published() is None,
    {
        SharedDom { cell: cell_handle(&self.cell), last: Ghost(None) }
    }

    /// Publishes `snapshot`: readers of the cell see it from now on.
    pub fn publish(&mut self, snapshot: Snapshot)
        requires
            snapshot.dom.wf(),
        ensures
            final(self).cell_spec() == old(self).cell_spec(),
            final(self).last_published() == Some(snapshot),
    {
        let ghost published = snapshot;
        cell_store(&self.cell, snapshot);
        self.last = Ghost(Some(published));
    }

    /// The latest snapshot of the cell: a well-formed document that some
    /// handle published. Which one depends on other threads.
    pub fn snapshot(&self) -> (r: Arc<Snapshot>)
        ensures
            r.dom.wf(),
    {
        cell_load(&self.cell)
    }
}

} // verus!
