//! A verified model of the Burokku UI document: a generation-keyed DOM arena,
//! the host bridge that scripts drive, wrapper lifetime rules, CSS stacking
//! paint order, layout topology lowering, white-space processing, resize
//! observation bookkeeping, event listener registries and the order in which
//! a pointing event reaches them, and a few small caches.
#![allow(unused_imports)]

mod slots;
mod seqs;
pub mod dom;
mod keys;
pub mod shared;
pub mod bridge;
pub mod text;
pub mod style;
pub mod runs;
pub mod events;
pub mod listeners;
pub mod dispatch;
pub mod wrapper_roots;
pub mod layout_cache;
pub mod topology;
pub mod reconcile;
pub mod stacking;
pub mod resize_observer;
pub mod node_id;

use vstd::prelude::*;

verus! {
} // verus!
