//! The layout topology: a validated, revision-scoped relationship graph of
//! layout boxes derived from one committed document. It may differ from DOM
//! parentage for positioned boxes.

use std::collections::{HashMap, HashSet};
use vstd::prelude::*;

use crate::keys::keys_of;
use crate::node_id::NodeId;

verus! {

broadcast use vstd::std_specs::hash::group_hash_axioms;

/// The identity of one generated layout box: the FFI form of the DOM node
/// that generates it, as the layout engine's node identifiers carry it.
#[derive(Clone, Copy, Debug, PartialEq, Eq, Hash, Structural)]
pub struct LayoutId {
    pub raw: u64,
}

impl LayoutId {
    pub open spec fn view(self) -> u64 {
        self.raw
    }

    pub fn for_dom(id: NodeId) -> (r: LayoutId)
        ensures
            r@ == id@,
    {
        LayoutId { raw: id.raw() }
    }

    /// The DOM node that generates this box, read back from its identity
    /// as `KeyData::from_ffi` reads it.
    pub fn decode_dom(self) -> (r: NodeId)
        ensures
            r@ == crate::node_id::canonical_raw(self@),
    {
        NodeId::from_ffi(self.raw)
    }
}

/// Where a box sits for positioning: its DOM parent, its containing block
/// and its position among the DOM parent's children.
#[derive(Clone, Copy, Debug, PartialEq, Eq, Structural)]
pub struct PositioningMeta {
    pub dom_parent: Option<NodeId>,
    pub containing_block: Option<LayoutId>,
    pub source_order: usize,
}

/// Why a document could not be lowered into a layout topology.
#[derive(Clone, Copy, Debug, PartialEq, Eq, Structural)]
pub enum LayoutError {
    /// The App root has more than one child.
    InvalidAppChildren { count: usize },
    /// The App child is not a Window element.
    ExpectedWindow(NodeId),
    /// A Window element appears below the layout root.
    UnexpectedWindow(NodeId),
    /// A committed node is missing or stale.
    MissingDomNode(NodeId),
    /// A child does not point back to its parent.
    InvalidDomRelationship { parent: NodeId, child: NodeId },
    /// A reachable DOM node occurs more than once.
    DuplicateDomNode(NodeId),
    /// A raw text node is attached outside a paragraph.
    RawTextOutsideParagraph(NodeId),
    /// A paragraph holds something other than text.
    InvalidParagraphChild { paragraph: NodeId, child: NodeId },
    /// The App root is missing or of the wrong kind.
    InvalidAppRoot,
    /// A layout identity has no topology entry.
    MissingLayoutNode(LayoutId),
    /// A layout node has more than one effective parent.
    MultipleLayoutParents(LayoutId),
    /// The topology contains a cycle.
    LayoutCycle(LayoutId),
    /// A layout node is not reachable from the root.
    UnreachableLayoutNode(LayoutId),
    /// A layout node has no computed sidecar.
    MissingLayoutSidecar(LayoutId),
    /// Container nesting exceeds the hard limit.
    TreeTooDeep { depth: usize, limit: usize },
}

#[derive(Debug)]
pub struct LayoutTopology {
    root: Option<LayoutId>,
    parent: HashMap<u64, LayoutId>,
    children: HashMap<u64, Vec<LayoutId>>,
    dom_to_layout: HashMap<u64, LayoutId>,
    layout_to_dom: HashMap<u64, NodeId>,
    positioning: HashMap<u64, PositioningMeta>,
}

impl LayoutTopology {
    pub closed spec fn root_spec(&self) -> Option<LayoutId> {
        self.root
    }

    pub closed spec fn parents(&self) -> Map<u64, LayoutId> {
        self.parent@
    }

    pub closed spec fn kids(&self) -> Map<u64, Seq<LayoutId>> {
        Map::new(|k: u64| self.children@.contains_key(k), |k: u64| self.children@[k]@)
    }

    pub closed spec fn d2l(&self) -> Map<u64, LayoutId> {
        self.dom_to_layout@
    }

    pub closed spec fn l2d(&self) -> Map<u64, NodeId> {
        self.layout_to_dom@
    }

    pub closed spec fn metas(&self) -> Map<u64, PositioningMeta> {
        self.positioning@
    }

    pub closed spec fn finite(&self) -> bool {
        &&& self.children@.dom().finite()
        &&& self.parent@.dom().finite()
        &&& self.dom_to_layout@.dom().finite()
        &&& self.layout_to_dom@.dom().finite()
        &&& self.positioning@.dom().finite()
    }

    /// The links of one node are consistent with the rest of the topology.
    pub open spec fn links_ok(&self, id: u64, root: u64, sidecars: Set<u64>) -> bool {
        &&& self.l2d().contains_key(id)
        &&& sidecars.contains(id)
        &&& (id != root ==> self.parents().contains_key(id))
        &&& self.kids()[id].no_duplicates()
        &&& forall|i: int|
            0 <= i < self.kids()[id].len() ==> {
                &&& self.parents().contains_key(#[trigger] self.kids()[id][i]@)
                &&& self.parents()[self.kids()[id][i]@]@ == id
                &&& self.kids().contains_key(self.kids()[id][i]@)
            }
    }

    /// Every non-root node hangs below its parent, and parents rank lower.
    pub open spec fn ranked(&self, rank: Map<u64, nat>, root: u64) -> bool {
        forall|id: u64|
            #[trigger] self.kids().contains_key(id) && id != root ==> {
                &&& self.parents().contains_key(id)
                &&& self.kids().contains_key(self.parents()[id]@)
                &&& self.kids()[self.parents()[id]@].contains(LayoutId { raw: id })
                &&& rank.contains_key(id)
                &&& rank.contains_key(self.parents()[id]@)
                &&& rank[self.parents()[id]@] < rank[id]
            }
    }

    /// The checks that need no traversal: the root has no parent, every map
    /// covers every box, every box's links are consistent, and the two
    /// identity maps invert each other.
    pub open spec fn shape_ok(&self, sidecars: Set<u64>) -> bool {
        match self.root_spec() {
            None => true,
            Some(r) => {
                &&& !self.parents().contains_key(r@)
                &&& self.d2l().len() == self.kids().len()
                &&& self.l2d().len() == self.kids().len()
                &&& self.metas().len() == self.kids().len()
                &&& forall|id: u64| #[trigger]
                    self.kids().contains_key(id) ==> self.links_ok(id, r@, sidecars)
                &&& forall|d: u64|
                    #[trigger] self.d2l().contains_key(d) ==> self.l2d().contains_key(self.d2l()[d]@)
                        && self.l2d()[self.d2l()[d]@]@ == d
            },
        }
    }

    /// A well-formed tree: one root, consistent forward and reverse links,
    /// complete mappings and sidecars, every node reachable from the root.
    pub open spec fn tree_ok(&self, sidecars: Set<u64>) -> bool {
        match self.root_spec() {
            None => self.kids().dom() == Set::<u64>::empty(),
            Some(r) => {
                &&& self.shape_ok(sidecars)
                &&& self.kids().contains_key(r@)
                &&& exists|rank: Map<u64, nat>| self.ranked(rank, r@)
            },
        }
    }

    /// Step `i` of `p` goes from a box to one of its children.
    pub open spec fn path_step(&self, p: Seq<u64>, i: int) -> bool {
        self.kids()[p[i]].contains(LayoutId { raw: p[i + 1] })
    }

    /// `p` walks down the child lists from the root.
    pub open spec fn is_path(&self, p: Seq<u64>) -> bool {
        &&& p.len() >= 1
        &&& self.root_spec() matches Some(r) && p[0] == r@
        &&& forall|i: int| 0 <= i < p.len() ==> self.kids().contains_key(#[trigger] p[i])
        &&& forall|i: int| 0 <= i < p.len() - 1 ==> #[trigger] self.path_step(p, i)
    }

    /// Along a path of a topology that passes the shape checks, each box is
    /// the parent of the next.
    proof fn lemma_path_parent(&self, sidecars: Set<u64>, p: Seq<u64>, i: int)
        requires
            self.shape_ok(sidecars),
            self.is_path(p),
            1 <= i < p.len(),
        ensures
            self.parents().contains_key(p[i]),
            self.parents()[p[i]]@ == p[i - 1],
    {
        let r = self.root_spec()->0;
        assert(self.path_step(p, i - 1));
        assert(self.kids().contains_key(p[i - 1]));
        assert(self.links_ok(p[i - 1], r@, sidecars));
        let k = self.kids()[p[i - 1]].index_of(LayoutId { raw: p[i] });
        assert(self.kids()[p[i - 1]][k] == LayoutId { raw: p[i] });
    }

    proof fn lemma_path_distinct(&self, sidecars: Set<u64>, p: Seq<u64>, i: int, j: int)
        requires
            self.shape_ok(sidecars),
            self.is_path(p),
            0 <= i < j < p.len(),
        ensures
            p[i] != p[j],
        decreases i,
    {
        self.lemma_path_parent(sidecars, p, j);
        if i > 0 {
            self.lemma_path_parent(sidecars, p, i);
            self.lemma_path_distinct(sidecars, p, i - 1, j - 1);
        }
    }

    /// In a topology that passes the shape checks, a downward path from the
    /// root visits each box at most once, so it is no longer than the number
    /// of boxes.
    pub proof fn lemma_path_len(&self, sidecars: Set<u64>, p: Seq<u64>)
        requires
            self.shape_ok(sidecars),
            self.is_path(p),
        ensures
            p.no_duplicates(),
            p.len() <= self.kids().len(),
    {
        assert forall|i: int, j: int| 0 <= i < p.len() && 0 <= j < p.len() && i != j implies p[i]
            != p[j] by {
            if i < j {
                self.lemma_path_distinct(sidecars, p, i, j);
            } else {
                self.lemma_path_distinct(sidecars, p, j, i);
            }
        }
        assert(p.to_set().subset_of(self.kids().dom())) by {
            assert forall|x: u64| p.to_set().contains(x) implies self.kids().dom().contains(x) by {
                let i = p.index_of(x);
                assert(self.kids().contains_key(p[i]));
            }
        }
        p.unique_seq_to_set();
        assert(self.kids().dom() =~= self.children@.dom());
        vstd::set_lib::lemma_len_subset(p.to_set(), self.kids().dom());
    }

    /// Every box can be reached from the root along the child lists.
    pub open spec fn all_reachable(&self) -> bool {
        forall|id: u64|
            #[trigger] self.kids().contains_key(id) ==> exists|p: Seq<u64>|
                self.is_path(p) && p.last() == id
    }

    /// A ranked box has a path from the root.
    proof fn lemma_ranked_path(&self, rank: Map<u64, nat>, r: u64, id: u64) -> (p: Seq<u64>)
        requires
            self.root_spec() == Some(LayoutId { raw: r }),
            self.kids().contains_key(r),
            self.ranked(rank, r),
            self.kids().contains_key(id),
        ensures
            self.is_path(p),
            p.last() == id,
        decreases (if id == r {
            0
        } else {
            rank[id] + 1
        }),
    {
        if id == r {
            let p = seq![r];
            assert(forall|i: int| 0 <= i < p.len() ==> p[i] == r);
            p
        } else {
            let q = self.parents()[id]@;
            let pq = self.lemma_ranked_path(rank, r, q);
            let p = pq.push(id);
            assert forall|i: int| 0 <= i < p.len() implies self.kids().contains_key(#[trigger] p[i]) by {
                if i < pq.len() {
                    assert(p[i] == pq[i]);
                }
            }
            assert forall|i: int| 0 <= i < p.len() - 1 implies #[trigger] self.path_step(p, i) by {
                if i < pq.len() - 1 {
                    assert(p[i] == pq[i] && p[i + 1] == pq[i + 1]);
                    assert(self.path_step(pq, i));
                } else {
                    assert(p[i] == q && p[i + 1] == id);
                }
            }
            p
        }
    }

    /// In a topology that passes the shape checks, a box has one path from
    /// the root.
    proof fn lemma_path_unique(&self, sidecars: Set<u64>, p1: Seq<u64>, p2: Seq<u64>)
        requires
            self.shape_ok(sidecars),
            self.is_path(p1),
            self.is_path(p2),
            p1.last() == p2.last(),
        ensures
            p1 == p2,
        decreases p1.len(),
    {
        let r = self.root_spec()->0@;
        if p1.len() == 1 || p2.len() == 1 {
            if p1.len() > 1 {
                self.lemma_path_parent(sidecars, p1, p1.len() - 1);
            }
            if p2.len() > 1 {
                self.lemma_path_parent(sidecars, p2, p2.len() - 1);
            }
            assert(p1 =~= p2);
        } else {
            self.lemma_path_parent(sidecars, p1, p1.len() - 1);
            self.lemma_path_parent(sidecars, p2, p2.len() - 1);
            let d1 = p1.drop_last();
            let d2 = p2.drop_last();
            assert forall|i: int| 0 <= i < d1.len() implies self.kids().contains_key(#[trigger] d1[i]) by {
                assert(d1[i] == p1[i]);
            }
            assert forall|i: int| 0 <= i < d1.len() - 1 implies #[trigger] self.path_step(d1, i) by {
                assert(self.path_step(p1, i));
            }
            assert forall|i: int| 0 <= i < d2.len() implies self.kids().contains_key(#[trigger] d2[i]) by {
                assert(d2[i] == p2[i]);
            }
            assert forall|i: int| 0 <= i < d2.len() - 1 implies #[trigger] self.path_step(d2, i) by {
                assert(self.path_step(p2, i));
            }
            self.lemma_path_unique(sidecars, d1, d2);
            assert(p1 =~= d1.push(p1.last()));
            assert(p2 =~= d2.push(p2.last()));
        }
    }

    /// Layout tree validity, as a law: a topology is a well-formed tree
    /// exactly when it is empty without a root, or when it passes the shape
    /// checks, holds its root, and reaches every box from the root along the
    /// child lists. Such paths never repeat a box (`lemma_path_len`), so the
    /// tree has no cycle.
    pub proof fn lemma_tree_ok_law(&self, sidecars: Set<u64>)
        ensures
            self.tree_ok(sidecars) <==> match self.root_spec() {
                None => self.kids().dom() == Set::<u64>::empty(),
                Some(r) => self.shape_ok(sidecars) && self.kids().contains_key(r@) && self.all_reachable(),
            },
    {
        if let Some(root) = self.root_spec() {
            let r = root@;
            if self.tree_ok(sidecars) {
                let rank = choose|rank: Map<u64, nat>| self.ranked(rank, r);
                assert forall|id: u64| #[trigger] self.kids().contains_key(id) implies exists|p: Seq<u64>|
                    self.is_path(p) && p.last() == id by {
                    let p = self.lemma_ranked_path(rank, r, id);
                }
            }
            if self.shape_ok(sidecars) && self.kids().contains_key(r) && self.all_reachable() {
                let path_of = |id: u64| choose|p: Seq<u64>| self.is_path(p) && p.last() == id;
                let rank = Map::new(
                    |id: u64| self.kids().contains_key(id),
                    |id: u64| (path_of(id).len() - 1) as nat,
                );
                assert forall|id: u64| #[trigger] self.kids().contains_key(id) && id != r implies {
                    &&& self.parents().contains_key(id)
                    &&& self.kids().contains_key(self.parents()[id]@)
                    &&& self.kids()[self.parents()[id]@].contains(LayoutId { raw: id })
                    &&& rank.contains_key(id)
                    &&& rank.contains_key(self.parents()[id]@)
                    &&& rank[self.parents()[id]@] < rank[id]
                } by {
                    let p = path_of(id);
                    assert(self.is_path(p) && p.last() == id);
                    let n = p.len();
                    assert(n > 1) by {
                        if n == 1 {
                            assert(p[0] == r);
                        }
                    }
                    self.lemma_path_parent(sidecars, p, n - 1);
                    let q = p[n - 2];
                    assert(self.path_step(p, n - 2));
                    assert(self.kids().contains_key(p[n - 2]));
                    let d = p.drop_last();
                    assert forall|i: int| 0 <= i < d.len() implies self.kids().contains_key(#[trigger] d[i]) by {
                        assert(d[i] == p[i]);
                    }
                    assert forall|i: int| 0 <= i < d.len() - 1 implies #[trigger] self.path_step(d, i) by {
                        assert(self.path_step(p, i));
                    }
                    assert(self.is_path(d));
                    let pq = path_of(q);
                    assert(self.is_path(pq) && pq.last() == q);
                    self.lemma_path_unique(sidecars, d, pq);
                }
                assert(self.ranked(rank, r));
            }
        }
    }

    /// A topology that holds only its root box, with that box's sidecar,
    /// is a well-formed tree.
    pub proof fn lemma_single_root_tree(t: &LayoutTopology, sc: Set<u64>, dom_id: NodeId, meta: PositioningMeta)
        requires
            t.root_spec() == Some(LayoutId { raw: dom_id@ }),
            t.kids() == Map::<u64, Seq<LayoutId>>::empty().insert(dom_id@, Seq::<LayoutId>::empty()),
            t.d2l() == Map::<u64, LayoutId>::empty().insert(dom_id@, LayoutId { raw: dom_id@ }),
            t.l2d() == Map::<u64, NodeId>::empty().insert(dom_id@, dom_id),
            t.parents() == Map::<u64, LayoutId>::empty(),
            t.metas() == Map::<u64, PositioningMeta>::empty().insert(dom_id@, meta),
            sc.contains(dom_id@),
        ensures
            t.tree_ok(sc),
    {
        let r = dom_id@;
        assert(t.d2l().dom() =~= set![r]);
        assert(t.l2d().dom() =~= set![r]);
        assert(t.kids().dom() =~= set![r]);
        assert(t.metas().dom() =~= set![r]);
        assert(t.ranked(Map::<u64, nat>::empty(), r));
        assert(t.links_ok(r, r, sc));
    }

    /// Hanging a fresh box at the end of the child list of a box of a
    /// well-formed tree, with its sidecar, keeps the topology a tree.
    pub proof fn lemma_insert_keeps_tree(
        a: &LayoutTopology,
        b: &LayoutTopology,
        sc: Set<u64>,
        dom_id: NodeId,
        parent: LayoutId,
        meta: PositioningMeta,
    )
        requires
            a.tree_ok(sc),
            a.root_spec() is Some,
            a.kids().contains_key(parent@),
            !a.kids().contains_key(dom_id@),
            !a.d2l().contains_key(dom_id@),
            !a.l2d().contains_key(dom_id@),
            !a.parents().contains_key(dom_id@),
            !a.metas().contains_key(dom_id@),
            b.root_spec() == a.root_spec(),
            b.d2l() == a.d2l().insert(dom_id@, LayoutId { raw: dom_id@ }),
            b.l2d() == a.l2d().insert(dom_id@, dom_id),
            b.parents() == a.parents().insert(dom_id@, parent),
            b.kids() == a.kids().insert(dom_id@, Seq::<LayoutId>::empty()).insert(
                parent@,
                a.kids()[parent@].push(LayoutId { raw: dom_id@ }),
            ),
            b.metas() == a.metas().insert(dom_id@, meta),
        ensures
            b.tree_ok(sc.insert(dom_id@)),
    {
        let id = dom_id@;
        let r = a.root_spec()->0@;
        let sc2 = sc.insert(id);
        assert(a.kids().dom() =~= a.children@.dom());
        assert(a.kids().dom().finite());
        assert(a.d2l().dom().finite());
        assert(a.l2d().dom().finite());
        assert(a.metas().dom().finite());
        assert(b.kids().dom() =~= a.kids().dom().insert(id));
        assert(b.kids().len() == a.kids().len() + 1);
        assert(b.d2l().len() == a.d2l().len() + 1);
        assert(b.l2d().len() == a.l2d().len() + 1);
        assert(b.metas().len() == a.metas().len() + 1);
        assert(a.links_ok(parent@, r, sc));
        let old_list = a.kids()[parent@];
        let new_list = old_list.push(LayoutId { raw: id });
        assert(!old_list.contains(LayoutId { raw: id })) by {
            if old_list.contains(LayoutId { raw: id }) {
                let k = old_list.index_of(LayoutId { raw: id });
                assert(a.parents().contains_key(old_list[k]@));
            }
        }
        assert forall|x: u64| #[trigger] b.kids().contains_key(x) implies b.links_ok(x, r, sc2) by {
            if x == id {
                assert(b.kids()[x] =~= Seq::<LayoutId>::empty());
            } else if x == parent@ {
                assert(b.kids()[x] == new_list);
                assert forall|i: int| 0 <= i < new_list.len() implies {
                    &&& b.parents().contains_key(#[trigger] b.kids()[x][i]@)
                    &&& b.parents()[b.kids()[x][i]@]@ == x
                    &&& b.kids().contains_key(b.kids()[x][i]@)
                } by {
                    if i < old_list.len() {
                        assert(new_list[i] == old_list[i]);
                        assert(a.parents().contains_key(old_list[i]@));
                    }
                }
                assert forall|i: int, j: int| 0 <= i < new_list.len() && 0 <= j < new_list.len() && i != j
                    implies new_list[i] != new_list[j] by {
                    if i < old_list.len() && j < old_list.len() {
                    } else if i == old_list.len() {
                        assert(old_list.contains(new_list[j]));
                    } else {
                        assert(old_list.contains(new_list[i]));
                    }
                }
            } else {
                assert(a.kids().contains_key(x));
                assert(a.links_ok(x, r, sc));
                assert(b.kids()[x] == a.kids()[x]);
                assert forall|i: int| 0 <= i < b.kids()[x].len() implies {
                    &&& b.parents().contains_key(#[trigger] b.kids()[x][i]@)
                    &&& b.parents()[b.kids()[x][i]@]@ == x
                    &&& b.kids().contains_key(b.kids()[x][i]@)
                } by {
                    assert(a.parents().contains_key(a.kids()[x][i]@));
                }
            }
        }
        assert forall|d: u64| #[trigger] b.d2l().contains_key(d) implies b.l2d().contains_key(
            b.d2l()[d]@,
        ) && b.l2d()[b.d2l()[d]@]@ == d by {
            if d != id {
                assert(a.d2l().contains_key(d));
                assert(a.l2d().contains_key(a.d2l()[d]@));
            }
        }
        let rank = choose|rank: Map<u64, nat>| a.ranked(rank, r);
        let rp: nat = if rank.contains_key(parent@) { rank[parent@] } else { 0 };
        let rank2 = rank.insert(parent@, rp).insert(id, rp + 1);
        assert forall|x: u64| #[trigger] b.kids().contains_key(x) && x != r implies {
            &&& b.parents().contains_key(x)
            &&& b.kids().contains_key(b.parents()[x]@)
            &&& b.kids()[b.parents()[x]@].contains(LayoutId { raw: x })
            &&& rank2.contains_key(x)
            &&& rank2.contains_key(b.parents()[x]@)
            &&& rank2[b.parents()[x]@] < rank2[x]
        } by {
            if x == id {
                assert(new_list[new_list.len() - 1] == LayoutId { raw: id });
            } else {
                assert(a.kids().contains_key(x));
                let px = a.parents()[x]@;
                assert(a.kids()[px].contains(LayoutId { raw: x }));
                if px == parent@ {
                    let k = old_list.index_of(LayoutId { raw: x });
                    assert(new_list[k] == LayoutId { raw: x });
                }
                if x == parent@ {
                    assert(rank.contains_key(parent@));
                }
            }
        }
        assert(b.ranked(rank2, r));
    }

    /// Every child of a visited box is visited or waiting.
    pub open spec fn closed_under_children(&self, visited: Set<u64>, waiting: Set<u64>) -> bool {
        forall|v: u64, c: LayoutId|
            #![trigger visited.contains(v), self.kids()[v].contains(c)]
            visited.contains(v) && self.kids()[v].contains(c) ==> visited.contains(c@)
                || waiting.contains(c@)
    }

    /// Under a ranking, every box is reached by a walk from the root that
    /// is closed under children.
    proof fn lemma_ranked_reached(&self, rank: Map<u64, nat>, r: u64, visited: Set<u64>, u: u64)
        requires
            self.ranked(rank, r),
            visited.contains(r),
            self.closed_under_children(visited, Set::empty()),
            self.kids().contains_key(u),
        ensures
            visited.contains(u),
        decreases rank[u],
    {
        if u != r {
            let p = self.parents()[u]@;
            assert(self.kids()[p].contains(LayoutId { raw: u }));
            self.lemma_ranked_reached(rank, r, visited, p);
            assert(visited.contains(LayoutId { raw: u }@));
        }
    }

    /// Checks that the topology is one well-formed tree whose boxes all have
    /// sidecars. The walk from the root does not go deeper than
    /// `max_depth`, which every caller guarantees.
    pub fn validate(&self, sidecar_ids: &HashSet<u64>, max_depth: usize) -> (r: Result<(), LayoutError>)
        requires
            self.shape_ok(sidecar_ids@) ==> forall|p: Seq<u64>| #[trigger]
                self.is_path(p) ==> p.len() <= max_depth + 1,
        ensures
            r is Ok <==> self.tree_ok(sidecar_ids@),
            self.root_spec() is Some && self.parents().contains_key(self.root_spec()->0@) ==> r
                == Err::<(), LayoutError>(LayoutError::MultipleLayoutParents(self.root_spec()->0)),
            self.root_spec() is Some && !self.parents().contains_key(self.root_spec()->0@) && (
            self.d2l().len() != self.kids().len() || self.l2d().len() != self.kids().len()
                || self.metas().len() != self.kids().len()) ==> r == Err::<(), LayoutError>(
                LayoutError::MissingLayoutNode(self.root_spec()->0),
            ),
            self.root_spec() is None && r is Err ==> (r->Err_0 matches LayoutError::UnreachableLayoutNode(
                id,
            ) && self.kids().contains_key(id@)),
    {
        let ghost sc = sidecar_ids@;
        proof {
            assert(self.kids().dom() =~= self.children@.dom());
        }
        let root = match self.root {
            None => {
                let keys = keys_of(&self.children);
                if keys.len() > 0 {
                    proof {
                        assert(keys@.to_set().contains(keys@[0]));
                    }
                    return Err(LayoutError::UnreachableLayoutNode(LayoutId { raw: keys[0] }));
                }
                proof {
                    assert(self.kids().dom() =~= Set::<u64>::empty());
                }
                return Ok(());
            },
            Some(r) => r,
        };
        if self.parent.contains_key(&root.raw) {
            return Err(LayoutError::MultipleLayoutParents(root));
        }
        let n = self.children.len();
        if self.dom_to_layout.len() != n || self.layout_to_dom.len() != n || self.positioning.len() != n {
            return Err(LayoutError::MissingLayoutNode(root));
        }
        let ids = keys_of(&self.children);
        let mut i: usize = 0;
        while i < ids.len()
            invariant
                0 <= i <= ids.len(),
                ids@.to_set() == self.kids().dom(),
                self.root_spec() == Some(root),
                sc == sidecar_ids@,
                !self.parents().contains_key(root@),
                self.d2l().len() == self.kids().len(),
                self.l2d().len() == self.kids().len(),
                self.metas().len() == self.kids().len(),
                forall|k: int| 0 <= k < i ==> self.links_ok(#[trigger] ids@[k], root@, sc),
            decreases ids.len() - i,
        {
            let id = ids[i];
            let lid = LayoutId { raw: id };
            proof {
                assert(ids@.to_set().contains(ids@[i as int]));
            }
            if !self.layout_to_dom.contains_key(&id) {
                return Err(LayoutError::MissingLayoutNode(lid));
            }
            if !sidecar_ids.contains(&id) {
                return Err(LayoutError::MissingLayoutSidecar(lid));
            }
            if id != root.raw && !self.parent.contains_key(&id) {
                return Err(LayoutError::UnreachableLayoutNode(lid));
            }
            let children = match self.children.get(&id) {
                Some(c) => c,
                None => return Err(LayoutError::MissingLayoutNode(lid)),
            };
            let mut direct: HashSet<u64> = HashSet::new();
            let mut j: usize = 0;
            while j < children.len()
                invariant
                    0 <= j <= children.len(),
                    children@ == self.kids()[id],
                    self.kids().contains_key(id),
                    self.root_spec() == Some(root),
                    !self.parents().contains_key(root@),
                    self.d2l().len() == self.kids().len(),
                    self.l2d().len() == self.kids().len(),
                    self.metas().len() == self.kids().len(),
                    direct@ == children@.take(j as int).map_values(|c: LayoutId| c@).to_set(),
                    children@.take(j as int).no_duplicates(),
                    forall|k: int|
                        0 <= k < j ==> {
                            &&& self.parents().contains_key(#[trigger] children@[k]@)
                            &&& self.parents()[children@[k]@]@ == id
                            &&& self.kids().contains_key(children@[k]@)
                        },
                decreases children.len() - j,
            {
                let child = children[j];
                let fresh = direct.insert(child.raw);
                let parent_ok = match self.parent.get(&child.raw) {
                    Some(p) => p.raw == id,
                    None => false,
                };
                if !fresh || !parent_ok {
                    proof {
                        assert(children@[j as int] == child);
                        if !fresh {
                            let pre = children@.take(j as int);
                            let mv = pre.map_values(|c: LayoutId| c@);
                            assert(mv.to_set().contains(child@));
                            assert(mv.contains(child@));
                            let q = mv.index_of(child@);
                            assert(pre[q]@ == child@);
                            assert(pre[q] == child);
                            assert(children@[q] == children@[j as int]);
                            assert(!self.kids()[id].no_duplicates());
                        }
                        if self.links_ok(id, root@, sc) {
                            let e = self.kids()[id][j as int];
                            assert(self.parents().contains_key(e@) && self.parents()[e@]@ == id);
                        }
                        assert(!self.links_ok(id, root@, sc));
                    }
                    return Err(LayoutError::MultipleLayoutParents(child));
                }
                if !self.children.contains_key(&child.raw) {
                    proof {
                        assert(children@[j as int] == child);
                        if self.links_ok(id, root@, sc) {
                            let e = self.kids()[id][j as int];
                            assert(self.kids().contains_key(e@));
                        }
                        assert(!self.links_ok(id, root@, sc));
                    }
                    return Err(LayoutError::MissingLayoutNode(child));
                }
                proof {
                    let pre = children@.take(j as int);
                    assert(children@.take(j as int + 1) =~= pre.push(child));
                    assert(children@.take(j as int + 1).map_values(|c: LayoutId| c@) =~= pre.map_values(|c: LayoutId| c@).push(child@));
                    pre.map_values(|c: LayoutId| c@).lemma_push_to_set_commute(child@);
                    let ext = children@.take(j as int + 1);
                    assert forall|a: int, b: int| 0 <= a < ext.len() && 0 <= b < ext.len() && a != b implies
                        #[trigger] ext[a] != #[trigger] ext[b] by {
                        if b == pre.len() {
                            assert(pre.map_values(|c: LayoutId| c@)[a] == pre[a]@);
                            assert(pre.map_values(|c: LayoutId| c@).to_set().contains(pre[a]@));
                        } else if a == pre.len() {
                            assert(pre.map_values(|c: LayoutId| c@)[b] == pre[b]@);
                            assert(pre.map_values(|c: LayoutId| c@).to_set().contains(pre[b]@));
                        }
                    }
                }
                j += 1;
            }
            proof {
                assert(children@.take(j as int) =~= children@);
                assert(self.links_ok(id, root@, sc));
            }
            i += 1;
        }
        proof {
            assert forall|id: u64| #[trigger] self.kids().contains_key(id) implies self.links_ok(id, root@, sc) by {
                assert(ids@.to_set().contains(id));
                let k = ids@.index_of(id);
                assert(ids@[k] == id);
            }
        }
        let dkeys = keys_of(&self.dom_to_layout);
        let mut i: usize = 0;
        while i < dkeys.len()
            invariant
                0 <= i <= dkeys.len(),
                dkeys@.to_set() == self.d2l().dom(),
                self.root_spec() == Some(root),
                !self.parents().contains_key(root@),
                self.d2l().len() == self.kids().len(),
                self.l2d().len() == self.kids().len(),
                self.metas().len() == self.kids().len(),
                forall|k: int|
                    0 <= k < i ==> self.l2d().contains_key(self.d2l()[#[trigger] dkeys@[k]]@)
                        && self.l2d()[self.d2l()[dkeys@[k]]@]@ == dkeys@[k],
            decreases dkeys.len() - i,
        {
            let d = dkeys[i];
            proof {
                assert(dkeys@.to_set().contains(dkeys@[i as int]));
            }
            let layout_id = match self.dom_to_layout.get(&d) {
                Some(l) => *l,
                None => return Err(LayoutError::MissingLayoutNode(root)),
            };
            let back_ok = match self.layout_to_dom.get(&layout_id.raw) {
                Some(x) => x.raw() == d,
                None => false,
            };
            if !back_ok {
                proof {
                    assert(self.d2l()[d] == layout_id);
                }
                return Err(LayoutError::MissingLayoutNode(layout_id));
            }
            i += 1;
        }
        proof {
            assert forall|d: u64| #[trigger] self.d2l().contains_key(d) implies self.l2d().contains_key(
                self.d2l()[d]@,
            ) && self.l2d()[self.d2l()[d]@]@ == d by {
                assert(dkeys@.to_set().contains(d));
                let k = dkeys@.index_of(d);
                assert(dkeys@[k] == d);
            }
            assert(self.shape_ok(sc));
        }
        self.walk_from_root(sidecar_ids, max_depth, root, &ids)
    }

    /// The walk from the root: every box is reached once, at its depth.
    fn walk_from_root(
        &self,
        sidecar_ids: &HashSet<u64>,
        max_depth: usize,
        root: LayoutId,
        ids: &Vec<u64>,
    ) -> (r: Result<(), LayoutError>)
        requires
            self.root_spec() == Some(root),
            self.shape_ok(sidecar_ids@),
            ids@.to_set() == self.kids().dom(),
            forall|p: Seq<u64>| #[trigger] self.is_path(p) ==> p.len() <= max_depth + 1,
        ensures
            r is Ok <==> self.tree_ok(sidecar_ids@),
    {
        let ghost sc = sidecar_ids@;
        let ghost r = root@;
        proof {
            assert(self.kids().dom() =~= self.children@.dom());
        }
        let mut visited: HashSet<u64> = HashSet::new();
        let mut pending: Vec<(LayoutId, usize)> = Vec::new();
        pending.push((root, 0));
        let ghost mut rank: Map<u64, nat> = Map::empty();
        let ghost mut path_to: Map<u64, Seq<u64>> = Map::empty();
        let ghost mut waiting: Set<u64> = Set::empty().insert(r);
        while pending.len() > 0
            invariant
                self.root_spec() == Some(root),
                self.shape_ok(sc),
                r == root@,
                self.kids().dom() == self.children@.dom(),
                self.kids().dom().finite(),
                forall|p: Seq<u64>| #[trigger] self.is_path(p) ==> p.len() <= max_depth + 1,
                visited@.subset_of(self.kids().dom()),
                rank.dom() == visited@,
                path_to.dom() == visited@,
                visited@.finite(),
                waiting.finite(),
                waiting.len() == pending.len(),
                waiting.disjoint(visited@),
                visited@.len() == 0 ==> pending@ == seq![(root, 0usize)] && waiting == Set::empty().insert(r),
                visited@.len() > 0 ==> visited@.contains(r),
                forall|v: u64|
                    #[trigger] visited@.contains(v) ==> {
                        &&& self.is_path(path_to[v])
                        &&& path_to[v].last() == v
                        &&& path_to[v].len() == rank[v] + 1
                    },
                forall|v: u64|
                    #[trigger] visited@.contains(v) && v != r ==> {
                        &&& self.parents().contains_key(v)
                        &&& visited@.contains(self.parents()[v]@)
                        &&& rank[self.parents()[v]@] < rank[v]
                        &&& self.kids()[self.parents()[v]@].contains(LayoutId { raw: v })
                    },
                forall|k: int| 0 <= k < pending.len() ==> waiting.contains(#[trigger] pending@[k].0@),
                forall|x: u64|
                    #[trigger] waiting.contains(x) && visited@.len() > 0 ==> {
                        &&& self.parents().contains_key(x)
                        &&& visited@.contains(self.parents()[x]@)
                    },
                forall|k: int|
                    0 <= k < pending.len() && visited@.len() > 0 ==> {
                        let c = #[trigger] pending@[k].0;
                        &&& self.parents().contains_key(c@)
                        &&& visited@.contains(self.parents()[c@]@)
                        &&& pending@[k].1 == rank[self.parents()[c@]@] + 1
                        &&& self.kids()[self.parents()[c@]@].contains(c)
                        &&& self.kids().contains_key(c@)
                    },
                forall|a: int, b: int|
                    0 <= a < pending.len() && 0 <= b < pending.len() && a != b ==> (
                    #[trigger] pending@[a]).0@ != (#[trigger] pending@[b]).0@,
                self.closed_under_children(visited@, waiting),
            decreases self.kids().dom().difference(visited@).len(),
        {
            let ghost old_visited = visited@;
            let ghost old_pending = pending@;
            let ghost old_waiting = waiting;
            let ghost old_rank = rank;
            let (id, depth) = match pending.pop() {
                Some(e) => e,
                None => return Err(LayoutError::MissingLayoutNode(root)),
            };
            proof {
                let last = old_pending.len() - 1;
                assert(old_pending[last] == (id, depth));
                assert(old_waiting.contains(id@));
            }
            let fresh = visited.insert(id.raw);
            if !fresh {
                return Err(LayoutError::LayoutCycle(id));
            }
            if !self.layout_to_dom.contains_key(&id.raw) {
                proof {
                    if self.kids().contains_key(id@) {
                        assert(self.links_ok(id@, r, sc));
                    }
                }
                return Err(LayoutError::MissingLayoutNode(id));
            }
            let children = match self.children.get(&id.raw) {
                Some(c) => c,
                None => return Err(LayoutError::MissingLayoutNode(id)),
            };
            proof {
                let last = old_pending.len() - 1;
                if old_visited.len() > 0 {
                    let p = self.parents()[id@]@;
                    assert(id@ != r) by {
                        assert(self.parents().contains_key(id@));
                    }
                    rank = rank.insert(id@, depth as nat);
                    path_to = path_to.insert(id@, path_to[p].push(id@));
                    let q = path_to[id@];
                    assert(old_visited.contains(p));
                    assert(self.path_step(q, q.len() - 2)) by {
                        assert(q[q.len() - 2] == p);
                    }
                    assert forall|i: int| 0 <= i < q.len() - 1 implies #[trigger] self.path_step(q, i) by {
                        if i < q.len() - 2 {
                            assert(self.path_step(path_to[p], i));
                        }
                    }
                    assert(self.is_path(q));
                } else {
                    assert(id == root);
                    rank = rank.insert(id@, 0);
                    path_to = path_to.insert(id@, seq![id@]);
                    assert(self.is_path(path_to[id@]));
                }
                assert(depth <= max_depth);
                waiting = waiting.remove(id@);
                assert(self.kids().dom().difference(visited@) =~= self.kids().dom().difference(
                    old_visited,
                ).remove(id@));
                assert forall|x: u64| #[trigger] waiting.contains(x) implies self.parents().contains_key(x)
                    && old_visited.contains(self.parents()[x]@) by {
                    if old_visited.len() == 0 {
                        assert(old_waiting == Set::empty().insert(r));
                    }
                }
            }
            let ghost before_push = pending@;
            let ghost waiting_before = waiting;
            let mut k = children.len();
            while k > 0
                invariant
                    0 <= k <= children.len(),
                    children@ == self.kids()[id@],
                    self.shape_ok(sc),
                    self.root_spec() == Some(root),
                    r == root@,
                    visited@.contains(id@),
                    !old_visited.contains(id@),
                    visited@ == old_visited.insert(id@),
                    old_visited.len() > 0 ==> self.parents().contains_key(id@) && old_visited.contains(
                        self.parents()[id@]@,
                    ),
                    old_visited.len() == 0 ==> id == root,
                    forall|v: u64|
                        #[trigger] old_visited.contains(v) && v != r ==> {
                            &&& self.parents().contains_key(v)
                            &&& old_visited.contains(self.parents()[v]@)
                        },
                    self.kids().contains_key(id@),
                    path_to.contains_key(id@),
                    self.is_path(path_to[id@]),
                    path_to[id@].last() == id@,
                    path_to[id@].len() == depth + 1,
                    rank.contains_key(id@),
                    rank[id@] == depth,
                    forall|p: Seq<u64>| #[trigger] self.is_path(p) ==> p.len() <= max_depth + 1,
                    pending@.len() == before_push.len() + (children.len() - k),
                    before_push.len() + 1 == old_pending.len(),
                    forall|a: int| 0 <= a < before_push.len() ==> before_push[a] == old_pending[a],
                    forall|a: int| 0 <= a < before_push.len() ==> pending@[a] == before_push[a],
                    forall|a: int|
                        before_push.len() <= a < pending.len() ==> pending@[a] == (
                        children@[children.len() - 1 - (a - before_push.len())],
                        (depth + 1) as usize,
                    ),
                    k < children.len() ==> depth + 1 <= max_depth,
                    waiting.finite(),
                    waiting.len() == pending.len(),
                    waiting.disjoint(visited@),
                    waiting_before.subset_of(waiting),
                    forall|x: u64|
                        #[trigger] waiting_before.contains(x) ==> self.parents().contains_key(x)
                            && old_visited.contains(self.parents()[x]@),
                    forall|a: int| k <= a < children.len() ==> waiting.contains(#[trigger] children@[a]@),
                    forall|a: int|
                        k <= a < children.len() ==> !waiting_before.contains(#[trigger] children@[a]@),
                    forall|x: u64|
                        #[trigger] waiting.contains(x) ==> waiting_before.contains(x)
                            || children@.subrange(k as int, children.len() as int).map_values(
                            |c: LayoutId| c@,
                        ).contains(x),
                decreases k,
            {
                k -= 1;
                let child = children[k];
                proof {
                    assert(self.links_ok(id@, r, sc));
                    assert(children@[k as int] == child);
                    let q = path_to[id@].push(child@);
                    assert(self.kids().contains_key(child@));
                    assert(self.path_step(q, q.len() - 2));
                    assert forall|i: int| 0 <= i < q.len() - 1 implies #[trigger] self.path_step(q, i) by {
                        if i < q.len() - 2 {
                            assert(self.path_step(path_to[id@], i));
                        }
                    }
                    assert(self.is_path(q));
                    // The child is new to the frontier and to the visited set.
                    assert(self.parents()[child@]@ == id@);
                    if waiting.contains(child@) {
                        if !waiting_before.contains(child@) {
                            let tail = children@.subrange(k as int + 1, children.len() as int).map_values(
                                |c: LayoutId| c@,
                            );
                            let t = tail.index_of(child@);
                            assert(children@[k as int + 1 + t]@ == child@);
                            assert(children@[k as int + 1 + t] == children@[k as int]);
                        }
                    }
                    assert(!waiting.contains(child@));
                    assert(!visited@.contains(child@)) by {
                        if visited@.contains(child@) && child@ != id@ {
                            assert(old_visited.contains(child@));
                            assert(child@ != r);
                        }
                    }
                }
                pending.push((child, depth + 1));
                proof {
                    waiting = waiting.insert(child@);
                    assert forall|x: u64| #[trigger] waiting.contains(x) implies waiting_before.contains(x)
                        || children@.subrange(k as int, children.len() as int).map_values(
                        |c: LayoutId| c@,
                    ).contains(x) by {
                        let tail = children@.subrange(k as int, children.len() as int).map_values(
                            |c: LayoutId| c@,
                        );
                        let tail1 = children@.subrange(k as int + 1, children.len() as int).map_values(
                            |c: LayoutId| c@,
                        );
                        if x == child@ {
                            assert(tail[0] == x);
                        } else if !waiting_before.contains(x) {
                            let t = tail1.index_of(x);
                            assert(tail[t + 1] == x);
                        }
                    }
                }
            }
            proof {
                assert(self.links_ok(id@, r, sc));
                assert(visited@.remove(id@).len() + 1 == visited@.len());
                let bl = before_push.len();
                assert forall|a: int| 0 <= a < bl implies #[trigger] waiting_before.contains(
                    before_push[a].0@,
                ) by {
                    assert(old_pending[a] == before_push[a]);
                    assert(old_pending[old_pending.len() - 1].0 == id);
                    assert(old_waiting.contains(old_pending[a].0@));
                }
                assert forall|a: int, b: int|
                    0 <= a < pending.len() && 0 <= b < pending.len() && a != b implies (
                    #[trigger] pending@[a]).0@ != (#[trigger] pending@[b]).0@ by {
                    if a < bl && b < bl {
                        assert(old_pending[a] == pending@[a]);
                        assert(old_pending[b] == pending@[b]);
                    } else if a >= bl && b >= bl {
                        let ta = children.len() - 1 - (a - bl);
                        let tb = children.len() - 1 - (b - bl);
                        assert(pending@[a].0 == children@[ta]);
                        assert(pending@[b].0 == children@[tb]);
                        assert(children@[ta] != children@[tb]);
                    } else if a < bl {
                        assert(waiting_before.contains(before_push[a].0@));
                        let tb = children.len() - 1 - (b - bl);
                        assert(!waiting_before.contains(children@[tb]@));
                    } else {
                        assert(waiting_before.contains(before_push[b].0@));
                        let ta = children.len() - 1 - (a - bl);
                        assert(!waiting_before.contains(children@[ta]@));
                    }
                }
                assert forall|q: int| 0 <= q < pending.len() implies waiting.contains(
                    #[trigger] pending@[q].0@,
                ) by {
                    if q >= bl {
                        let t = children.len() - 1 - (q - bl);
                        assert(waiting.contains(children@[t]@));
                    } else {
                        assert(waiting_before.contains(before_push[q].0@));
                    }
                }
                assert forall|x: u64| #[trigger] waiting.contains(x) && visited@.len() > 0 implies {
                    &&& self.parents().contains_key(x)
                    &&& visited@.contains(self.parents()[x]@)
                } by {
                    if !waiting_before.contains(x) {
                        let tail = children@.subrange(0, children.len() as int).map_values(
                            |c: LayoutId| c@,
                        );
                        let t = tail.index_of(x);
                        assert(children@[t]@ == x);
                        let e = self.kids()[id@][t];
                        assert(self.parents().contains_key(e@) && self.parents()[e@]@ == id@);
                    }
                }
                assert forall|q: int| 0 <= q < pending.len() && visited@.len() > 0 implies {
                    let c = #[trigger] pending@[q].0;
                    &&& self.parents().contains_key(c@)
                    &&& visited@.contains(self.parents()[c@]@)
                    &&& pending@[q].1 == rank[self.parents()[c@]@] + 1
                    &&& self.kids()[self.parents()[c@]@].contains(c)
                    &&& self.kids().contains_key(c@)
                } by {
                    if q >= bl {
                        let t = children.len() - 1 - (q - bl);
                        assert(pending@[q].0 == children@[t]);
                        let e = self.kids()[id@][t];
                        assert(self.parents().contains_key(e@) && self.parents()[e@]@ == id@
                            && self.kids().contains_key(e@));
                    } else {
                        assert(old_pending[q] == pending@[q]);
                        assert(old_visited.len() > 0);
                        assert(old_pending[q].0@ != id@) by {
                            assert(old_pending[old_pending.len() - 1].0 == id);
                        }
                        let c = old_pending[q].0;
                        assert(old_visited.contains(self.parents()[c@]@));
                    }
                }
                assert forall|v: u64|
                    #[trigger] visited@.contains(v) && v != r implies {
                    &&& self.parents().contains_key(v)
                    &&& visited@.contains(self.parents()[v]@)
                    &&& rank[self.parents()[v]@] < rank[v]
                    &&& self.kids()[self.parents()[v]@].contains(LayoutId { raw: v })
                } by {
                    if v == id@ {
                        let last = old_pending.len() - 1;
                        assert(old_pending[last] == (id, depth));
                        assert(old_visited.len() > 0);
                    }
                }
                assert forall|v: u64|
                    #[trigger] visited@.contains(v) implies {
                    &&& self.is_path(path_to[v])
                    &&& path_to[v].last() == v
                    &&& path_to[v].len() == rank[v] + 1
                } by {
                    if v != id@ {
                        assert(old_visited.contains(v));
                    }
                }
                assert forall|v: u64, c: LayoutId|
                    #![trigger visited@.contains(v), self.kids()[v].contains(c)]
                    visited@.contains(v) && self.kids()[v].contains(c) implies visited@.contains(c@)
                        || waiting.contains(c@) by {
                    if v == id@ {
                        let t = children@.index_of(c);
                        assert(waiting.contains(children@[t]@));
                    } else {
                        assert(old_visited.contains(v));
                        if !old_visited.contains(c@) && c@ != id@ {
                            assert(old_waiting.contains(c@));
                            assert(waiting_before.contains(c@));
                        }
                    }
                }
            }
        }
        proof {
            if visited@.len() == 0 {
                assert(pending@.len() == 1);
            }
            assert(waiting =~= Set::<u64>::empty()) by {
                if exists|x: u64| waiting.contains(x) {
                    let x = choose|x: u64| waiting.contains(x);
                    assert(waiting.remove(x).len() + 1 == waiting.len());
                }
            }
        }
        let mut i: usize = 0;
        while i < ids.len()
            invariant
                0 <= i <= ids.len(),
                forall|k: int| 0 <= k < i ==> visited@.contains(#[trigger] ids@[k]),
                ids@.to_set() == self.kids().dom(),
                self.root_spec() == Some(root),
                r == root@,
                visited@.contains(r),
                sc == sidecar_ids@,
                self.closed_under_children(visited@, Set::empty()),
            decreases ids.len() - i,
        {
            if !visited.contains(&ids[i]) {
                proof {
                    assert(ids@.to_set().contains(ids@[i as int]));
                    if self.tree_ok(sc) {
                        let rk = choose|rk: Map<u64, nat>| self.ranked(rk, r);
                        assert(self.ranked(rk, r));
                        assert(self.kids().contains_key(ids@[i as int]));
                        self.lemma_ranked_reached(rk, r, visited@, ids@[i as int]);
                        assert(visited@.contains(ids@[i as int]));
                    }
                }
                return Err(LayoutError::UnreachableLayoutNode(LayoutId { raw: ids[i] }));
            }
            i += 1;
        }
        proof {
            assert forall|id: u64| #[trigger] self.kids().contains_key(id) implies visited@.contains(id) by {
                assert(ids@.to_set().contains(id));
                let k = ids@.index_of(id);
                assert(ids@[k] == id);
            }
            assert(self.ranked(rank, r));
        }
        Ok(())
    }

    /// Registers the mapping between a DOM node and the box it generates,
    /// with an empty child list. A DOM node that is already mapped, or a box
    /// identity that is already taken, is refused.
    fn insert_mapping(&mut self, dom_id: NodeId) -> (r: Result<LayoutId, LayoutError>)
        ensures
            final(self).root_spec() == old(self).root_spec(),
            final(self).parents() == old(self).parents(),
            final(self).metas() == old(self).metas(),
            old(self).d2l().contains_key(dom_id@) ==> {
                &&& r == Err::<LayoutId, LayoutError>(LayoutError::DuplicateDomNode(dom_id))
                &&& final(self).d2l() == old(self).d2l()
                &&& final(self).l2d() == old(self).l2d()
                &&& final(self).kids() == old(self).kids()
            },
            !old(self).d2l().contains_key(dom_id@) && old(self).l2d().contains_key(dom_id@) ==> {
                &&& r == Err::<LayoutId, LayoutError>(LayoutError::DuplicateDomNode(dom_id))
                &&& final(self).d2l() == old(self).d2l()
                &&& final(self).l2d() == old(self).l2d().insert(dom_id@, dom_id)
                &&& final(self).kids() == old(self).kids()
            },
            !old(self).d2l().contains_key(dom_id@) && !old(self).l2d().contains_key(dom_id@) ==> {
                &&& r == Ok::<LayoutId, LayoutError>(LayoutId { raw: dom_id@ })
                &&& final(self).d2l() == old(self).d2l().insert(dom_id@, LayoutId { raw: dom_id@ })
                &&& final(self).l2d() == old(self).l2d().insert(dom_id@, dom_id)
                &&& final(self).kids() == old(self).kids().insert(dom_id@, Seq::<LayoutId>::empty())
            },
    {
        let key = dom_id.raw();
        if self.dom_to_layout.contains_key(&key) {
            return Err(LayoutError::DuplicateDomNode(dom_id));
        }
        let id = LayoutId::for_dom(dom_id);
        let previous = self.layout_to_dom.insert(key, dom_id);
        if previous.is_some() {
            return Err(LayoutError::DuplicateDomNode(dom_id));
        }
        self.dom_to_layout.insert(key, id);
        self.children.insert(key, Vec::new());
        proof {
            assert(self.kids() =~= old(self).kids().insert(dom_id@, Seq::<LayoutId>::empty()));
        }
        Ok(id)
    }

    /// Registers the root box. A second root is refused, though the root
    /// field then already names the new box, as the mapping does.
    pub fn insert_root(&mut self, dom_id: NodeId) -> (r: Result<LayoutId, LayoutError>)
        ensures
            old(self).d2l().contains_key(dom_id@) || old(self).l2d().contains_key(dom_id@) ==> {
                &&& r == Err::<LayoutId, LayoutError>(LayoutError::DuplicateDomNode(dom_id))
                &&& final(self).root_spec() == old(self).root_spec()
                &&& final(self).parents() == old(self).parents()
                &&& final(self).metas() == old(self).metas()
                &&& final(self).d2l() == old(self).d2l()
                &&& final(self).kids() == old(self).kids()
                &&& final(self).l2d() == if old(self).d2l().contains_key(dom_id@) {
                    old(self).l2d()
                } else {
                    old(self).l2d().insert(dom_id@, dom_id)
                }
            },
            !old(self).d2l().contains_key(dom_id@) && !old(self).l2d().contains_key(dom_id@) ==> {
                &&& final(self).d2l() == old(self).d2l().insert(dom_id@, LayoutId { raw: dom_id@ })
                &&& final(self).l2d() == old(self).l2d().insert(dom_id@, dom_id)
                &&& final(self).kids() == old(self).kids().insert(dom_id@, Seq::<LayoutId>::empty())
                &&& final(self).parents() == old(self).parents()
                &&& final(self).root_spec() == Some(LayoutId { raw: dom_id@ })
                &&& old(self).root_spec() is Some ==> {
                    &&& r == Err::<LayoutId, LayoutError>(
                        LayoutError::MultipleLayoutParents(LayoutId { raw: dom_id@ }),
                    )
                    &&& final(self).metas() == old(self).metas()
                }
                &&& old(self).root_spec() is None ==> {
                    &&& r == Ok::<LayoutId, LayoutError>(LayoutId { raw: dom_id@ })
                    &&& final(self).metas() == old(self).metas().insert(
                        dom_id@,
                        PositioningMeta { dom_parent: None, containing_block: None, source_order: 0 },
                    )
                }
            },
    {
        let id = match self.insert_mapping(dom_id) {
            Ok(id) => id,
            Err(e) => return Err(e),
        };
        let previous = self.root;
        self.root = Some(id);
        if previous.is_some() {
            return Err(LayoutError::MultipleLayoutParents(id));
        }
        self.positioning.insert(
            id.raw,
            PositioningMeta { dom_parent: None, containing_block: None, source_order: 0 },
        );
        Ok(id)
    }

    /// Registers a box below `layout_parent`, its effective parent, at the
    /// end of that parent's child list.
    pub fn insert_child(
        &mut self,
        dom_id: NodeId,
        dom_parent: NodeId,
        layout_parent: LayoutId,
        source_order: usize,
    ) -> (r: Result<LayoutId, LayoutError>)
        ensures
            final(self).root_spec() == old(self).root_spec(),
            !old(self).kids().contains_key(layout_parent@) ==> {
                &&& r == Err::<LayoutId, LayoutError>(LayoutError::MissingLayoutNode(layout_parent))
                &&& final(self).parents() == old(self).parents()
                &&& final(self).metas() == old(self).metas()
                &&& final(self).d2l() == old(self).d2l()
                &&& final(self).l2d() == old(self).l2d()
                &&& final(self).kids() == old(self).kids()
            },
            old(self).kids().contains_key(layout_parent@) && (old(self).d2l().contains_key(dom_id@)
                || old(self).l2d().contains_key(dom_id@)) ==> {
                &&& r == Err::<LayoutId, LayoutError>(LayoutError::DuplicateDomNode(dom_id))
                &&& final(self).parents() == old(self).parents()
                &&& final(self).metas() == old(self).metas()
                &&& final(self).d2l() == old(self).d2l()
                &&& final(self).kids() == old(self).kids()
                &&& final(self).l2d() == if old(self).d2l().contains_key(dom_id@) {
                    old(self).l2d()
                } else {
                    old(self).l2d().insert(dom_id@, dom_id)
                }
            },
            old(self).kids().contains_key(layout_parent@) && !old(self).d2l().contains_key(dom_id@)
                && !old(self).l2d().contains_key(dom_id@) ==> {
                let id = LayoutId { raw: dom_id@ };
                let fresh = old(self).kids().insert(dom_id@, Seq::<LayoutId>::empty());
                &&& final(self).d2l() == old(self).d2l().insert(dom_id@, id)
                &&& final(self).l2d() == old(self).l2d().insert(dom_id@, dom_id)
                &&& final(self).parents() == old(self).parents().insert(dom_id@, layout_parent)
                &&& old(self).parents().contains_key(dom_id@) ==> {
                    &&& r == Err::<LayoutId, LayoutError>(LayoutError::MultipleLayoutParents(id))
                    &&& final(self).kids() == fresh
                    &&& final(self).metas() == old(self).metas()
                }
                &&& !old(self).parents().contains_key(dom_id@) ==> {
                    &&& r == Ok::<LayoutId, LayoutError>(id)
                    &&& final(self).kids() == fresh.insert(
                        layout_parent@,
                        fresh[layout_parent@].push(id),
                    )
                    &&& final(self).metas() == old(self).metas().insert(
                        dom_id@,
                        PositioningMeta {
                            dom_parent: Some(dom_parent),
                            containing_block: Some(layout_parent),
                            source_order,
                        },
                    )
                }
            },
    {
        if !self.children.contains_key(&layout_parent.raw) {
            return Err(LayoutError::MissingLayoutNode(layout_parent));
        }
        let id = match self.insert_mapping(dom_id) {
            Ok(id) => id,
            Err(e) => return Err(e),
        };
        let previous = self.parent.insert(id.raw, layout_parent);
        if previous.is_some() {
            return Err(LayoutError::MultipleLayoutParents(id));
        }
        let ghost fresh = self.kids();
        let ghost before = self.children@;
        assert(fresh.contains_key(layout_parent@));
        let mut siblings = match self.children.remove(&layout_parent.raw) {
            Some(v) => v,
            None => Vec::new(),
        };
        assert(siblings@ == fresh[layout_parent@]);
        assert(self.children@ == before.remove(layout_parent@));
        siblings.push(id);
        self.children.insert(layout_parent.raw, siblings);
        proof {
            assert(self.kids() =~= fresh.insert(layout_parent@, fresh[layout_parent@].push(id)));
        }
        self.positioning.insert(
            id.raw,
            PositioningMeta {
                dom_parent: Some(dom_parent),
                containing_block: Some(layout_parent),
                source_order,
            },
        );
        Ok(id)
    }

    pub fn new() -> (t: LayoutTopology)
        ensures
            t.finite(),
            t.root_spec() is None,
            t.kids().dom() == Set::<u64>::empty(),
            t.parents().dom() == Set::<u64>::empty(),
            t.d2l().dom() == Set::<u64>::empty(),
            t.l2d().dom() == Set::<u64>::empty(),
            t.metas().dom() == Set::<u64>::empty(),
    {
        let t = LayoutTopology {
            root: None,
            parent: HashMap::new(),
            children: HashMap::new(),
            dom_to_layout: HashMap::new(),
            layout_to_dom: HashMap::new(),
            positioning: HashMap::new(),
        };
        proof {
            assert(t.kids().dom() =~= Set::<u64>::empty());
        }
        t
    }

    pub fn root(&self) -> (r: Option<LayoutId>)
        ensures
            r == self.root_spec(),
    {
        self.root
    }

    pub fn parent(&self, id: LayoutId) -> (r: Option<LayoutId>)
        ensures
            r == if self.parents().contains_key(id@) {
                Some(self.parents()[id@])
            } else {
                None
            },
    {
        match self.parent.get(&id.raw) {
            Some(p) => Some(*p),
            None => None,
        }
    }

    pub fn children(&self, id: LayoutId) -> (r: Option<&Vec<LayoutId>>)
        ensures
            r is Some <==> self.kids().contains_key(id@),
            r matches Some(c) ==> c@ == self.kids()[id@],
    {
        self.children.get(&id.raw)
    }

    pub fn dom_id(&self, id: LayoutId) -> (r: Option<NodeId>)
        ensures
            r == if self.l2d().contains_key(id@) {
                Some(self.l2d()[id@])
            } else {
                None
            },
    {
        match self.layout_to_dom.get(&id.raw) {
            Some(d) => Some(*d),
            None => None,
        }
    }

    pub fn layout_id(&self, id: NodeId) -> (r: Option<LayoutId>)
        ensures
            r == if self.d2l().contains_key(id@) {
                Some(self.d2l()[id@])
            } else {
                None
            },
    {
        match self.dom_to_layout.get(&id.raw()) {
            Some(l) => Some(*l),
            None => None,
        }
    }

    pub fn positioning(&self, id: LayoutId) -> (r: Option<PositioningMeta>)
        ensures
            r == if self.metas().contains_key(id@) {
                Some(self.metas()[id@])
            } else {
                None
            },
    {
        match self.positioning.get(&id.raw) {
            Some(m) => Some(*m),
            None => None,
        }
    }

    /// The number of layout nodes.
    pub fn len(&self) -> (n: usize)
        ensures
            n == self.kids().len(),
    {
        proof {
            assert(self.kids().dom() == self.children@.dom());
        }
        self.children.len()
    }

    pub fn is_empty(&self) -> (r: bool)
        ensures
            r == (self.kids().len() == 0),
    {
        self.len() == 0
    }
}

} // verus!
