//! CSS stacking contexts and paint order.
//!
//! Boxes are visited in document order below the Window. Each box that
//! creates a stacking context paints atomically inside its parent context:
//! first the context root, then child contexts with negative z-index (by
//! level, then document order), then the normal-flow descendants, then the
//! level-zero contexts and the positioned boxes without a z-index in document
//! order, and last the child contexts with positive z-index.

use std::collections::{HashMap, HashSet};
use vstd::prelude::*;
use vstd::relations::{sorted_by, total_ordering};

use crate::dom::{Dom, ElementStyle, ElementTag, NodeKind, NodeKindView, Position, ZIndex};
use crate::node_id::NodeId;
use crate::reconcile::position_spec;

verus! {

broadcast use vstd::std_specs::hash::group_hash_axioms;

/// The z-index level of a node; `auto` counts as zero.
pub open spec fn z_level(k: NodeKindView) -> i32 {
    match k {
        NodeKindView::Element(_, style) => match style.z_index {
            ZIndex::Auto => 0,
            ZIndex::Level(v) => v,
        },
        _ => 0,
    }
}

/// A Flex or Grid element.
pub open spec fn is_flex_or_grid(k: NodeKindView) -> bool {
    match k {
        NodeKindView::Element(ElementTag::Flex, _) => true,
        NodeKindView::Element(ElementTag::Grid, _) => true,
        _ => false,
    }
}

/// Whether the box of `n` creates a stacking context: fixed positioning,
/// or a z-index on a positioned box or on a flex or grid item.
pub open spec fn creates_context(dom: Dom, n: NodeId) -> bool {
    match dom.kind_of(n) {
        NodeKindView::Element(_, style) => if style.position == Position::Fixed {
            true
        } else if style.z_index == ZIndex::Auto {
            false
        } else {
            style.position != Position::Static || (dom.parent_of(n) is Some && dom.contains_node(
                dom.parent_of(n)->0,
            ) && is_flex_or_grid(dom.kind_of(dom.parent_of(n)->0)))
        },
        _ => false,
    }
}

/// The boxes below `n`, from its child `i` on, in document order; a child
/// without a box is skipped together with everything below it.
pub open spec fn boxed_preorder(dom: Dom, bx: Set<u64>, n: NodeId, i: int) -> Seq<NodeId>
    decreases dom.depth_measure(n), dom.children_of(n).len() - i,
{
    if i < 0 || i >= dom.children_of(n).len() {
        Seq::empty()
    } else {
        let c = dom.children_of(n)[i];
        let here = if bx.contains(c@) && dom.depth_measure(c) < dom.depth_measure(n) {
            seq![c] + boxed_preorder(dom, bx, c, 0)
        } else {
            Seq::empty()
        };
        here + boxed_preorder(dom, bx, n, i + 1)
    }
}

/// The stacking context that a box below the Window `w` paints in: the
/// nearest proper ancestor that is `w` or creates a context.
pub open spec fn context_of(dom: Dom, w: NodeId, v: NodeId) -> NodeId
    decreases dom.rank_of(v),
{
    match dom.parent_of(v) {
        Some(p) => if p == w {
            w
        } else if creates_context(dom, p) {
            p
        } else if dom.rank_of(p) < dom.rank_of(v) {
            context_of(dom, w, p)
        } else {
            w
        },
        None => w,
    }
}

#[verifier::spinoff_prover]
#[verifier::rlimit(40)]
/// Facts about a document-order walk: it holds distinct boxed proper
/// descendants of `n` below its children from `i` on, whose parents are `n`
/// or come earlier, and every ancestor comes before its descendants.
pub proof fn lemma_preorder(dom: Dom, bx: Set<u64>, n: NodeId, i: int)
    requires
        dom.wf(),
        dom.contains_node(n),
        0 <= i,
    ensures
        ({
            let s = boxed_preorder(dom, bx, n, i);
            &&& forall|x: NodeId| #[trigger]
                s.contains(x) ==> {
                    &&& dom.contains_node(x)
                    &&& dom.in_subtree(n, x)
                    &&& x != n
                    &&& bx.contains(x@)
                    &&& dom.parent_of(x) is Some
                    &&& (dom.parent_of(x) == Some(n) || s.contains(dom.parent_of(x)->0))
                }
            &&& forall|k: int, x: NodeId|
                0 <= k < i && k < dom.children_of(n).len() && #[trigger] s.contains(x) ==> !dom.in_subtree(
                    #[trigger] dom.children_of(n)[k],
                    x,
                )
            &&& s.no_duplicates()
            &&& forall|a: int, b: int|
                0 <= a < s.len() && 0 <= b < s.len() && a != b && dom.in_subtree(
                    #[trigger] s[a],
                    #[trigger] s[b],
                ) ==> a < b
        }),
    decreases dom.depth_measure(n), dom.children_of(n).len() - i,
{
    let s = boxed_preorder(dom, bx, n, i);
    if i >= dom.children_of(n).len() {
        assert(s =~= Seq::<NodeId>::empty());
    } else {
        dom.lemma_node(n);
        let c = dom.children_of(n)[i];
        dom.lemma_child_measure(n, i);
        dom.lemma_node(c);
        let rest = boxed_preorder(dom, bx, n, i + 1);
        lemma_preorder(dom, bx, n, i + 1);
        dom.lemma_in_subtree_refl(n);
        dom.lemma_in_subtree_step(n, c);
        dom.lemma_ancestor_measure(n, c);
        if bx.contains(c@) {
            let sub = boxed_preorder(dom, bx, c, 0);
            lemma_preorder(dom, bx, c, 0);
            let item = seq![c] + sub;
            assert(s =~= item + rest);
            dom.lemma_in_subtree_refl(c);
            assert forall|x: NodeId| #[trigger] item.contains(x) implies dom.in_subtree(c, x) && dom.contains_node(x) by {
                if x != c {
                    let q = item.index_of(x);
                    assert(sub[q - 1] == x);
                    assert(sub.contains(x));
                }
            }
            assert forall|x: NodeId| #[trigger] s.contains(x) implies {
                &&& dom.contains_node(x)
                &&& dom.in_subtree(n, x)
                &&& x != n
                &&& bx.contains(x@)
                &&& dom.parent_of(x) is Some
                &&& (dom.parent_of(x) == Some(n) || s.contains(dom.parent_of(x)->0))
            } by {
                let q = s.index_of(x);
                if q < item.len() {
                    assert(item[q] == x);
                    assert(item.contains(x));
                    dom.lemma_in_subtree_chain(n, c, x);
                    if x != c {
                        assert(sub[q - 1] == x);
                        assert(sub.contains(x));
                        dom.lemma_ancestor_measure(c, x);
                        let p = dom.parent_of(x)->0;
                        if p != c {
                            assert(sub.contains(p));
                            let r = sub.index_of(p);
                            assert(s[r + 1] == p);
                        } else {
                            assert(s[0] == p);
                        }
                    }
                } else {
                    assert(rest[q - item.len()] == x);
                    assert(rest.contains(x));
                    let p = dom.parent_of(x)->0;
                    if p != n {
                        assert(rest.contains(p));
                        let r = rest.index_of(p);
                        assert(s[item.len() + r] == p);
                    }
                }
            }
            assert forall|k: int, x: NodeId|
                0 <= k < i && k < dom.children_of(n).len() && #[trigger] s.contains(x) implies !dom.in_subtree(
                #[trigger] dom.children_of(n)[k],
                x,
            ) by {
                let q = s.index_of(x);
                if q < item.len() {
                    assert(item[q] == x);
                    assert(item.contains(x));
                    let ck = dom.children_of(n)[k];
                    assert(ck != c);
                    dom.lemma_node(ck);
                    dom.lemma_siblings_disjoint(c, ck, x);
                } else {
                    assert(rest[q - item.len()] == x);
                    assert(rest.contains(x));
                }
            }
            assert forall|a: int, b: int| 0 <= a < s.len() && 0 <= b < s.len() && a != b implies s[a]
                != s[b] by {
                if a < item.len() && b < item.len() {
                    if a == 0 || b == 0 {
                        let o = if a == 0 { b } else { a };
                        assert(sub[o - 1] == s[o]);
                        assert(sub.contains(s[o]));
                    }
                } else if a >= item.len() && b >= item.len() {
                    assert(rest[a - item.len()] == s[a]);
                    assert(rest[b - item.len()] == s[b]);
                } else {
                    let (ii, rr) = if a < item.len() { (a, b) } else { (b, a) };
                    assert(item[ii] == s[ii]);
                    assert(item.contains(s[ii]));
                    assert(rest[rr - item.len()] == s[rr]);
                    assert(rest.contains(s[rr]));
                    if s[ii] == s[rr] {
                        assert(!dom.in_subtree(dom.children_of(n)[i], s[rr]));
                    }
                }
            }
            assert forall|a: int, b: int|
                0 <= a < s.len() && 0 <= b < s.len() && a != b && dom.in_subtree(
                    #[trigger] s[a],
                    #[trigger] s[b],
                ) implies a < b by {
                if a < item.len() && b < item.len() {
                    if a > 0 && b > 0 {
                        assert(sub[a - 1] == s[a]);
                        assert(sub[b - 1] == s[b]);
                    } else if b == 0 {
                        assert(sub[a - 1] == s[a]);
                        assert(sub.contains(s[a]));
                        dom.lemma_ancestor_measure(c, s[a]);
                        dom.lemma_in_subtree_rank(s[a], c);
                    }
                } else if a >= item.len() && b >= item.len() {
                    assert(rest[a - item.len()] == s[a]);
                    assert(rest[b - item.len()] == s[b]);
                } else if a >= item.len() && b < item.len() {
                    let x = s[a];
                    let y = s[b];
                    assert(rest[a - item.len()] == x);
                    assert(rest.contains(x));
                    assert(item[b] == y);
                    assert(item.contains(y));
                    assert(!dom.in_subtree(dom.children_of(n)[i], x));
                    dom.lemma_ancestors_comparable(c, x, y);
                    dom.lemma_in_subtree_step(x, c);
                    dom.lemma_ancestor_measure(n, x);
                    dom.lemma_in_subtree_rank(x, n);
                }
            }
        } else {
            assert(s =~= rest);
        }
    }
}

/// The walk of the boxes below the Window `w`, in document order.
pub open spec fn walk(dom: Dom, bx: Set<u64>, w: NodeId) -> Seq<NodeId> {
    if dom.contains_node(w) {
        boxed_preorder(dom, bx, w, 0)
    } else {
        Seq::empty()
    }
}

/// The context of a walked box is the Window or a walked box that creates
/// a context, and it is a proper ancestor of the box.
pub proof fn lemma_context_of(dom: Dom, bx: Set<u64>, w: NodeId, x: NodeId)
    requires
        dom.wf(),
        dom.contains_node(w),
        boxed_preorder(dom, bx, w, 0).contains(x),
    ensures
        ({
            let c = context_of(dom, w, x);
            &&& c == w || (boxed_preorder(dom, bx, w, 0).contains(c) && creates_context(dom, c))
            &&& dom.in_subtree(c, x)
            &&& c != x
        }),
    decreases dom.rank_of(x),
{
    let f = boxed_preorder(dom, bx, w, 0);
    lemma_preorder(dom, bx, w, 0);
    let p = dom.parent_of(x)->0;
    dom.lemma_parent_rank(x);
    dom.lemma_in_subtree_refl(p);
    dom.lemma_in_subtree_step(p, x);
    if p != w {
        assert(f.contains(p));
        if !creates_context(dom, p) {
            lemma_context_of(dom, bx, w, p);
            dom.lemma_in_subtree_chain(context_of(dom, w, p), p, x);
            dom.lemma_in_subtree_rank(context_of(dom, w, p), p);
        }
    } else {
        dom.lemma_in_subtree_refl(w);
    }
}

/// Where a box paints within its stacking context.
#[derive(Clone, Copy, Debug)]
pub struct ContextMeta {
    pub parent: Option<NodeId>,
    pub level: i32,
    pub source_order: usize,
}

/// The stacking contexts of one document: each context's parent, level and
/// document position, its child contexts, and its positioned boxes that do
/// not create contexts.
#[derive(Debug)]
pub struct StackingContexts {
    root: Option<NodeId>,
    contexts: HashMap<u64, ContextMeta>,
    children: HashMap<u64, Vec<NodeId>>,
    positioned_auto: HashMap<u64, Vec<NodeId>>,
    source_order: HashMap<u64, usize>,
}

/// `v` is a box that creates a context inside context `c`.
pub open spec fn child_context_of(dom: Dom, w: NodeId, c: NodeId) -> spec_fn(NodeId) -> bool {
    |v: NodeId| creates_context(dom, v) && context_of(dom, w, v) == c
}

/// `v` is a positioned box without a context of its own inside context `c`.
pub open spec fn positioned_in(dom: Dom, w: NodeId, c: NodeId) -> spec_fn(NodeId) -> bool {
    |v: NodeId|
        !creates_context(dom, v) && position_spec(dom.kind_of(v)) != Position::Static && context_of(
            dom,
            w,
            v,
        ) == c
}

impl StackingContexts {
    pub closed spec fn root_spec(&self) -> Option<NodeId> {
        self.root
    }

    pub closed spec fn metas(&self) -> Map<u64, ContextMeta> {
        self.contexts@
    }

    pub closed spec fn context_children(&self) -> Map<u64, Seq<NodeId>> {
        Map::new(|k: u64| self.children@.contains_key(k), |k: u64| self.children@[k]@)
    }

    pub closed spec fn positioned(&self) -> Map<u64, Seq<NodeId>> {
        Map::new(
            |k: u64| self.positioned_auto@.contains_key(k),
            |k: u64| self.positioned_auto@[k]@,
        )
    }

    pub closed spec fn orders(&self) -> Map<u64, usize> {
        self.source_order@
    }

    /// The structure records the boxes `log` walked so far below `w`.
    pub open spec fn records(&self, dom: Dom, w: NodeId, log: Seq<NodeId>) -> bool {
        &&& self.root_spec() == Some(w)
        &&& self.orders().dom() == log.map_values(|v: NodeId| v@).to_set().insert(w@)
        &&& self.orders()[w@] == 0
        &&& forall|i: int| 0 <= i < log.len() ==> self.orders()[#[trigger] log[i]@] == i + 1
        &&& self.metas().dom().subset_of(self.orders().dom())
        &&& self.metas().contains_key(w@)
        &&& self.metas()[w@] == ContextMeta { parent: None, level: 0, source_order: 0 }
        &&& self.context_children().contains_key(w@)
        &&& self.context_children()[w@] == log.filter(child_context_of(dom, w, w))
        &&& self.positioned().contains_key(w@)
        &&& self.positioned()[w@] == log.filter(positioned_in(dom, w, w))
        &&& forall|i: int|
            0 <= i < log.len() ==> self.metas().contains_key(#[trigger] log[i]@) == creates_context(
                dom,
                log[i],
            )
        &&& forall|i: int|
            0 <= i < log.len() && creates_context(dom, #[trigger] log[i]) ==> {
                &&& self.metas()[log[i]@] == ContextMeta {
                    parent: Some(context_of(dom, w, log[i])),
                    level: z_level(dom.kind_of(log[i])),
                    source_order: (i + 1) as usize,
                }
                &&& self.context_children().contains_key(log[i]@)
                &&& self.context_children()[log[i]@] == log.filter(child_context_of(dom, w, log[i]))
                &&& self.positioned().contains_key(log[i]@)
                &&& self.positioned()[log[i]@] == log.filter(positioned_in(dom, w, log[i]))
            }
    }

    /// The structure that the walk of the boxes `bx` below `window` builds.
    pub open spec fn built_from(&self, dom: Dom, window: Option<NodeId>, bx: Set<u64>) -> bool {
        match window {
            None => {
                &&& self.root_spec() is None
                &&& self.orders().dom() == Set::<u64>::empty()
                &&& self.metas().dom() == Set::<u64>::empty()
            },
            Some(w) => self.records(dom, w, walk(dom, bx, w)),
        }
    }
}

/// Which walked boxes root a stacking context, as a law over the box's own
/// style and its parent's tag: a fixed box always does; otherwise a box
/// with a z-index does when it is positioned or when its parent is a Flex
/// or Grid element (it is a flex or grid item); a box with `z-index: auto`
/// that is not fixed never does. A context's level is its z-index.
pub proof fn lemma_context_rule(
    s: StackingContexts,
    dom: Dom,
    w: NodeId,
    bx: Set<u64>,
    x: NodeId,
    tag: ElementTag,
    style: ElementStyle,
    p: NodeId,
    ptag: ElementTag,
    pstyle: ElementStyle,
)
    requires
        dom.wf(),
        s.built_from(dom, Some(w), bx),
        walk(dom, bx, w).contains(x),
        dom.kind_of(x) == NodeKindView::Element(tag, style),
        dom.parent_of(x) == Some(p),
        dom.kind_of(p) == NodeKindView::Element(ptag, pstyle),
    ensures
        s.metas().contains_key(x@) <==> (style.position == Position::Fixed || (style.z_index
            != ZIndex::Auto && (style.position != Position::Static || ptag == ElementTag::Flex || ptag
            == ElementTag::Grid))),
        s.metas().contains_key(x@) ==> s.metas()[x@].level == match style.z_index {
            ZIndex::Auto => 0i32,
            ZIndex::Level(v) => v,
        },
{
    let log = walk(dom, bx, w);
    let i = choose|i: int| 0 <= i < log.len() && log[i] == x;
    assert(log[i] == x);
    lemma_preorder(dom, bx, w, 0);
    assert(dom.contains_node(w)) by {
        if !dom.contains_node(w) {
            assert(log =~= Seq::<NodeId>::empty());
        }
    }
    assert(dom.contains_node(x));
    dom.lemma_node(x);
    assert(dom.contains_node(p));
    assert(s.metas().contains_key(log[i]@) == creates_context(dom, log[i]));
}

/// Whether the box of `node` creates a stacking context.
fn creates_stacking_context(dom: &Dom, node: NodeId) -> (r: bool)
    requires
        dom.wf(),
        dom.contains_node(node),
    ensures
        r == creates_context(*dom, node),
{
    match dom.kind(node).unwrap() {
        NodeKind::Element(_, style) => {
            match style.position {
                Position::Fixed => {
                    return true;
                },
                _ => {},
            }
            match style.z_index {
                ZIndex::Auto => {
                    return false;
                },
                _ => {},
            }
            match style.position {
                Position::Static => {},
                _ => {
                    return true;
                },
            }
            match dom.parent(node) {
                Some(p) => match dom.kind(p) {
                    Some(NodeKind::Element(ElementTag::Flex, _)) => true,
                    Some(NodeKind::Element(ElementTag::Grid, _)) => true,
                    _ => false,
                },
                None => false,
            }
        },
        _ => false,
    }
}

impl StackingContexts {
    /// Walks the boxes below `n` in document order; `ctx` is the context
    /// that the children of `n` paint in, and `counter` the number of boxes
    /// walked so far.
    fn visit(
        &mut self,
        dom: &Dom,
        boxes: &HashSet<u64>,
        w: NodeId,
        n: NodeId,
        ctx: NodeId,
        counter: &mut usize,
    )
        requires
            dom.wf(),
            forall|m: NodeId| dom.contains_node(m) && boxes@.contains(m@) ==> #[trigger] dom.kind_of(m) is Element,
            dom.contains_node(w),
            dom.contains_node(n),
            n == w || boxed_preorder(*dom, boxes@, w, 0).contains(n),
            ctx == (if n == w {
                w
            } else if creates_context(*dom, n) {
                n
            } else {
                context_of(*dom, w, n)
            }),
            ctx == w || (boxed_preorder(*dom, boxes@, w, 0).contains(ctx) && creates_context(*dom, ctx)),
            old(self).records(*dom, w, boxed_preorder(*dom, boxes@, w, 0).take(*old(counter) as int)),
            *old(counter) + boxed_preorder(*dom, boxes@, n, 0).len() <= boxed_preorder(*dom, boxes@, w, 0).len(),
            boxed_preorder(*dom, boxes@, w, 0).subrange(
                *old(counter) as int,
                *old(counter) + boxed_preorder(*dom, boxes@, n, 0).len(),
            ) == boxed_preorder(*dom, boxes@, n, 0),
            boxed_preorder(*dom, boxes@, w, 0).len() <= usize::MAX,
        ensures
            *final(counter) == *old(counter) + boxed_preorder(*dom, boxes@, n, 0).len(),
            final(self).records(*dom, w, boxed_preorder(*dom, boxes@, w, 0).take(*final(counter) as int)),
        decreases dom.depth_measure(n),
    {
        let ghost bx = boxes@;
        let ghost f = boxed_preorder(*dom, bx, w, 0);
        let ghost c0 = *counter;
        proof {
            lemma_preorder(*dom, bx, w, 0);
            dom.lemma_node(n);
        }
        let children = dom.children(n).unwrap();
        let mut i: usize = 0;
        while i < children.len()
            invariant
                dom.wf(),
                forall|m: NodeId| dom.contains_node(m) && bx.contains(m@) ==> #[trigger] dom.kind_of(m) is Element,
                bx == boxes@,
                f == boxed_preorder(*dom, bx, w, 0),
                dom.contains_node(w),
                dom.contains_node(n),
                n == w || f.contains(n),
                ctx == (if n == w {
                    w
                } else if creates_context(*dom, n) {
                    n
                } else {
                    context_of(*dom, w, n)
                }),
                ctx == w || (f.contains(ctx) && creates_context(*dom, ctx)),
                children@ == dom.children_of(n),
                forall|k: int|
                    0 <= k < children@.len() ==> {
                        &&& dom.contains_node(#[trigger] children@[k])
                        &&& dom.parent_of(children@[k]) == Some(n)
                    },
                0 <= i <= children.len(),
                f.len() <= usize::MAX,
                f.no_duplicates(),
                *counter + boxed_preorder(*dom, bx, n, i as int).len() <= f.len(),
                c0 + boxed_preorder(*dom, bx, n, 0).len() == *counter + boxed_preorder(*dom, bx, n, i as int).len(),
                f.subrange(*counter as int, *counter + boxed_preorder(*dom, bx, n, i as int).len())
                    == boxed_preorder(*dom, bx, n, i as int),
                self.records(*dom, w, f.take(*counter as int)),
            decreases children.len() - i,
        {
            let x = children[i];
            proof {
                dom.lemma_child_measure(n, i as int);
                dom.lemma_node(x);
                dom.lemma_parent_rank(x);
            }
            let ghost pre_i = boxed_preorder(*dom, bx, n, i as int);
            let ghost rest = boxed_preorder(*dom, bx, n, i as int + 1);
            if !boxes.contains(&x.raw()) {
                proof {
                    assert(pre_i =~= rest);
                }
                i += 1;
                continue;
            }
            let ghost sub = boxed_preorder(*dom, bx, x, 0);
            let ghost k = *counter as int;
            proof {
                assert(pre_i =~= seq![x] + sub + rest);
                assert(f[k] == pre_i[0]);
                assert(f.contains(x));
            }
            let ghost a = *self;
            let ghost l = f.take(k);
            let ghost l1 = f.take(k + 1);
            proof {
                assert(l1 =~= l.push(x));
                assert(!l.contains(x)) by {
                    if l.contains(x) {
                        let j = l.index_of(x);
                        assert(f[j] == x);
                    }
                }
                assert(x != w);
                assert(ctx == context_of(*dom, w, x));
                lemma_preorder(*dom, bx, w, 0);
                lemma_context_of(*dom, bx, w, x);
                if ctx != w {
                    let j = f.index_of(ctx);
                    assert(f[j] == ctx);
                    assert(j < k) by {
                        assert(f[k] == x);
                        assert(dom.in_subtree(f[j], f[k]));
                    }
                    assert(l[j] == ctx);
                    assert(l.contains(ctx));
                }
                assert(forall|y: NodeId| #[trigger] l.contains(y) ==> y@ != x@) by {
                    assert forall|y: NodeId| #[trigger] l.contains(y) implies y@ != x@ by {
                        NodeId::lemma_view_injective(y, x);
                    }
                }
                NodeId::lemma_view_injective(w, x);
            }
            let c1 = *counter + 1;
            *counter = c1;
            self.source_order.insert(x.raw(), c1);
            let creates = creates_stacking_context(dom, x);
            let next_ctx = if creates {
                let level: i32 = match dom.kind(x).unwrap() {
                    NodeKind::Element(_, style) => match style.z_index {
                        ZIndex::Auto => 0,
                        ZIndex::Level(v) => v,
                    },
                    _ => 0,
                };
                self.contexts.insert(x.raw(), ContextMeta { parent: Some(ctx), level, source_order: c1 });
                let mut list = match self.children.remove(&ctx.raw()) {
                    Some(v) => v,
                    None => Vec::new(),
                };
                list.push(x);
                self.children.insert(ctx.raw(), list);
                self.children.insert(x.raw(), Vec::new());
                self.positioned_auto.insert(x.raw(), Vec::new());
                x
            } else {
                let is_static = match dom.kind(x).unwrap() {
                    NodeKind::Element(_, style) => match style.position {
                        Position::Static => true,
                        _ => false,
                    },
                    _ => true,
                };
                if !is_static {
                    let mut list = match self.positioned_auto.remove(&ctx.raw()) {
                        Some(v) => v,
                        None => Vec::new(),
                    };
                    list.push(x);
                    self.positioned_auto.insert(ctx.raw(), list);
                }
                ctx
            };
            proof {
                let b = *self;
                let ccx = child_context_of(*dom, w, x);
                let pix = positioned_in(*dom, w, x);
                assert(b.orders() == a.orders().insert(x@, c1));
                assert(l1.map_values(|v: NodeId| v@) =~= l.map_values(|v: NodeId| v@).push(x@));
                l.map_values(|v: NodeId| v@).lemma_push_to_set_commute(x@);
                assert(b.orders().dom() =~= l1.map_values(|v: NodeId| v@).to_set().insert(w@));
                if creates {
                    assert(b.metas() == a.metas().insert(x@, ContextMeta { parent: Some(ctx), level: z_level(dom.kind_of(x)), source_order: c1 }));
                    assert(b.context_children() =~= a.context_children().insert(
                        ctx@,
                        a.context_children()[ctx@].push(x),
                    ).insert(x@, Seq::<NodeId>::empty()));
                    assert(b.positioned() =~= a.positioned().insert(x@, Seq::<NodeId>::empty()));
                    // No walked box paints inside the new context yet.
                    assert(l1.all(|y: NodeId| !ccx(y))) by {
                        assert forall|q: int| 0 <= q < l1.len() implies !ccx(#[trigger] l1[q]) by {
                            if q < k && creates_context(*dom, l1[q]) && context_of(*dom, w, l1[q]) == x {
                                assert(f[q] == l1[q]);
                                lemma_context_of(*dom, bx, w, f[q]);
                                assert(dom.in_subtree(f[k], f[q]));
                            }
                        }
                    }
                    assert(l1.all(|y: NodeId| !pix(y))) by {
                        assert forall|q: int| 0 <= q < l1.len() implies !pix(#[trigger] l1[q]) by {
                            if q < k && context_of(*dom, w, l1[q]) == x {
                                assert(f[q] == l1[q]);
                                lemma_context_of(*dom, bx, w, f[q]);
                                assert(dom.in_subtree(f[k], f[q]));
                            }
                        }
                    }
                    l1.lemma_all_neg_filter_empty(ccx);
                    l1.lemma_all_neg_filter_empty(pix);
                    assert(l1.filter(ccx) =~= Seq::<NodeId>::empty());
                    assert(l1.filter(pix) =~= Seq::<NodeId>::empty());
                } else {
                    assert(b.metas() == a.metas());
                    assert(b.context_children() =~= a.context_children());
                    assert(!l.map_values(|v: NodeId| v@).contains(x@)) by {
                        if l.map_values(|v: NodeId| v@).contains(x@) {
                            let q = l.map_values(|v: NodeId| v@).index_of(x@);
                            assert(l[q]@ == x@);
                            assert(l.contains(l[q]));
                        }
                    }
                    assert(!a.orders().contains_key(x@));
                }
                l.lemma_filter_push(x, child_context_of(*dom, w, w));
                l.lemma_filter_push(x, positioned_in(*dom, w, w));
                if ctx == w {
                    assert(b.context_children()[w@] == l1.filter(child_context_of(*dom, w, w)));
                    assert(b.positioned()[w@] == l1.filter(positioned_in(*dom, w, w)));
                }
                assert forall|q: int| 0 <= q < l1.len() implies b.orders()[#[trigger] l1[q]@] == q + 1 by {
                    if q < k {
                        assert(l.contains(l[q]));
                    }
                }
                assert forall|q: int|
                    0 <= q < l1.len() implies b.metas().contains_key(#[trigger] l1[q]@) == creates_context(
                    *dom,
                    l1[q],
                ) by {
                    if q < k {
                        assert(l.contains(l[q]));
                    }
                }
                assert forall|q: int|
                    0 <= q < l1.len() && creates_context(*dom, #[trigger] l1[q]) implies {
                        &&& b.metas()[l1[q]@] == ContextMeta {
                            parent: Some(context_of(*dom, w, l1[q])),
                            level: z_level(dom.kind_of(l1[q])),
                            source_order: (q + 1) as usize,
                        }
                        &&& b.context_children().contains_key(l1[q]@)
                        &&& b.context_children()[l1[q]@] == l1.filter(child_context_of(*dom, w, l1[q]))
                        &&& b.positioned().contains_key(l1[q]@)
                        &&& b.positioned()[l1[q]@] == l1.filter(positioned_in(*dom, w, l1[q]))
                    } by {
                    if q < k {
                        let y = l[q];
                        assert(l.contains(y));
                        l.lemma_filter_push(x, child_context_of(*dom, w, y));
                        l.lemma_filter_push(x, positioned_in(*dom, w, y));
                        NodeId::lemma_view_injective(y, ctx);
                    }
                }
                assert(b.records(*dom, w, l1));
                assert(f.take(*counter as int) == l1);
                let big = f.subrange(k, k + pre_i.len());
                assert(f.subrange(k + 1, k + 1 + sub.len()) =~= big.subrange(1, 1 + sub.len() as int));
                assert(big.subrange(1, 1 + sub.len() as int) =~= sub);
                assert(f.subrange(k + 1 + sub.len(), k + pre_i.len()) =~= big.subrange(
                    1 + sub.len() as int,
                    pre_i.len() as int,
                ));
                assert(big.subrange(1 + sub.len() as int, pre_i.len() as int) =~= rest);
            }
            self.visit(dom, boxes, w, x, next_ctx, counter);
            i += 1;
        }
        proof {
            assert(boxed_preorder(*dom, bx, n, i as int) =~= Seq::<NodeId>::empty());
        }
    }
}

impl StackingContexts {
    /// Walks the boxes below `window` in document order and records the
    /// stacking contexts they form.
    pub fn build(dom: &Dom, window: Option<NodeId>, boxes: &HashSet<u64>) -> (r: StackingContexts)
        requires
            dom.wf(),
            forall|m: NodeId| dom.contains_node(m) && boxes@.contains(m@) ==> #[trigger] dom.kind_of(m) is Element,
        ensures
            r.built_from(*dom, window, boxes@),
    {
        let mut tree = StackingContexts {
            root: None,
            contexts: HashMap::new(),
            children: HashMap::new(),
            positioned_auto: HashMap::new(),
            source_order: HashMap::new(),
        };
        let w = match window {
            None => {
                proof {
                    assert(tree.orders().dom() =~= Set::<u64>::empty());
                    assert(tree.metas().dom() =~= Set::<u64>::empty());
                }
                return tree;
            },
            Some(w) => w,
        };
        tree.root = Some(w);
        tree.contexts.insert(w.raw(), ContextMeta { parent: None, level: 0, source_order: 0 });
        tree.children.insert(w.raw(), Vec::new());
        tree.positioned_auto.insert(w.raw(), Vec::new());
        tree.source_order.insert(w.raw(), 0);
        let ghost empty = Seq::<NodeId>::empty();
        proof {
            assert(empty.map_values(|v: NodeId| v@) =~= Seq::<u64>::empty());
            assert(empty.map_values(|v: NodeId| v@).to_set() =~= Set::<u64>::empty());
            assert(tree.orders().dom() =~= empty.map_values(|v: NodeId| v@).to_set().insert(w@));
            assert(tree.metas().dom() =~= set![w@]);
            assert(empty.filter(child_context_of(*dom, w, w)) =~= empty) by {
                reveal(Seq::filter);
            }
            assert(empty.filter(positioned_in(*dom, w, w)) =~= empty) by {
                reveal(Seq::filter);
            }
            assert(tree.context_children()[w@] =~= Seq::<NodeId>::empty());
            assert(tree.positioned()[w@] =~= Seq::<NodeId>::empty());
            assert(tree.records(*dom, w, empty));
        }
        if !dom.contains(w) {
            return tree;
        }
        let total = dom.len();
        let ghost f = boxed_preorder(*dom, boxes@, w, 0);
        proof {
            lemma_preorder(*dom, boxes@, w, 0);
            assert(f.to_set().subset_of(dom.nodes().dom())) by {
                assert forall|x: NodeId| f.to_set().contains(x) implies dom.nodes().dom().contains(x) by {
                    assert(f.contains(x));
                }
            }
            f.unique_seq_to_set();
            dom.lemma_root();
            vstd::set_lib::lemma_len_subset(f.to_set(), dom.nodes().dom());
            assert(f.take(0) =~= empty);
            assert(f.subrange(0, f.len() as int) =~= f);
        }
        let mut counter: usize = 0;
        tree.visit(dom, boxes, w, w, w, &mut counter);
        proof {
            assert(f.take(counter as int) =~= f);
        }
        tree
    }
}

/// Orders boxes by a primary key, then a secondary key, then identity.
pub open spec fn key_order(k1: spec_fn(NodeId) -> int, k2: spec_fn(NodeId) -> int) -> spec_fn(
    NodeId,
    NodeId,
) -> bool {
    |a: NodeId, b: NodeId|
        k1(a) < k1(b) || (k1(a) == k1(b) && (k2(a) < k2(b) || (k2(a) == k2(b) && a@ <= b@)))
}

pub proof fn lemma_key_order_total(k1: spec_fn(NodeId) -> int, k2: spec_fn(NodeId) -> int)
    ensures
        total_ordering(key_order(k1, k2)),
{
    let leq = key_order(k1, k2);
    assert forall|a: NodeId, b: NodeId| #[trigger] leq(a, b) && #[trigger] leq(b, a) implies a == b by {
        NodeId::lemma_view_injective(a, b);
    }
}

impl StackingContexts {
    /// Child contexts paint by level, then in document order.
    pub open spec fn context_leq(&self) -> spec_fn(NodeId, NodeId) -> bool {
        key_order(
            |v: NodeId| self.metas()[v@].level as int,
            |v: NodeId| self.metas()[v@].source_order as int,
        )
    }

    /// Level-zero items paint in document order.
    pub open spec fn zero_leq(&self) -> spec_fn(NodeId, NodeId) -> bool {
        key_order(|v: NodeId| self.orders()[v@] as int, |v: NodeId| 0int)
    }

    /// Contexts whose level has the sign of `sign`.
    pub open spec fn level_sign(&self, sign: i32) -> spec_fn(NodeId) -> bool {
        |v: NodeId|
            if sign < 0 {
                self.metas()[v@].level < 0
            } else if sign == 0 {
                self.metas()[v@].level == 0
            } else {
                self.metas()[v@].level > 0
            }
    }

    /// The child contexts of `c` with a negative level, in paint order.
    pub open spec fn negative(&self, c: NodeId) -> Seq<NodeId> {
        self.context_children()[c@].filter(self.level_sign(-1i32)).sort_by(self.context_leq())
    }

    /// The child contexts of `c` with a positive level, in paint order.
    pub open spec fn positive(&self, c: NodeId) -> Seq<NodeId> {
        self.context_children()[c@].filter(self.level_sign(1i32)).sort_by(self.context_leq())
    }

    /// The level-zero child contexts and the positioned boxes of `c`, in
    /// paint order.
    pub open spec fn zero_items(&self, c: NodeId) -> Seq<NodeId> {
        (self.context_children()[c@].filter(self.level_sign(0i32)) + self.positioned()[c@]).sort_by(
            self.zero_leq(),
        )
    }

    /// The paint order of the context rooted at `c`.
    pub open spec fn paint_seq(&self, dom: Dom, c: NodeId) -> Seq<NodeId>
        decreases dom.depth_measure(c), 3int, 0int,
    {
        seq![c] + self.paint_list(dom, c, self.negative(c), 0) + self.normal_seq(dom, c, 0)
            + self.zero_seq(dom, c, self.zero_items(c), 0) + self.paint_list(
            dom,
            c,
            self.positive(c),
            0,
        )
    }

    /// The paint orders of the contexts in `list` from `i` on, one after
    /// another; they all lie below `c`.
    pub open spec fn paint_list(&self, dom: Dom, c: NodeId, list: Seq<NodeId>, i: int) -> Seq<NodeId>
        decreases dom.depth_measure(c), 2int, list.len() - i,
    {
        if i < 0 || i >= list.len() {
            Seq::empty()
        } else {
            (if dom.depth_measure(list[i]) < dom.depth_measure(c) {
                self.paint_seq(dom, list[i])
            } else {
                Seq::empty()
            }) + self.paint_list(dom, c, list, i + 1)
        }
    }

    /// The level-zero items of `c` in `list` from `i` on: a context paints
    /// atomically, a positioned box paints with its normal-flow descendants.
    pub open spec fn zero_seq(&self, dom: Dom, c: NodeId, list: Seq<NodeId>, i: int) -> Seq<NodeId>
        decreases dom.depth_measure(c), 2int, list.len() - i,
    {
        if i < 0 || i >= list.len() {
            Seq::empty()
        } else {
            (if dom.depth_measure(list[i]) < dom.depth_measure(c) {
                if self.metas().contains_key(list[i]@) {
                    self.paint_seq(dom, list[i])
                } else {
                    seq![list[i]] + self.normal_seq(dom, list[i], 0)
                }
            } else {
                Seq::empty()
            }) + self.zero_seq(dom, c, list, i + 1)
        }
    }

    /// The normal-flow boxes below `p`, from its child `i` on: walked
    /// static boxes that create no context, each followed by its own.
    pub open spec fn normal_seq(&self, dom: Dom, p: NodeId, i: int) -> Seq<NodeId>
        decreases dom.depth_measure(p), 1int, dom.children_of(p).len() - i,
    {
        if i < 0 || i >= dom.children_of(p).len() || !dom.contains_node(p) {
            Seq::empty()
        } else {
            let x = dom.children_of(p)[i];
            (if self.orders().contains_key(x@) && !self.metas().contains_key(x@) && position_spec(
                dom.kind_of(x),
            ) == Position::Static && dom.depth_measure(x) < dom.depth_measure(p) {
                seq![x] + self.normal_seq(dom, x, 0)
            } else {
                Seq::empty()
            }) + self.normal_seq(dom, p, i + 1)
        }
    }

    /// The full paint order.
    pub open spec fn paint_order_spec(&self, dom: Dom) -> Seq<NodeId> {
        match self.root_spec() {
            Some(w) => self.paint_seq(dom, w),
            None => Seq::empty(),
        }
    }

    /// Appends the normal-flow boxes below `parent`.
    fn paint_normal_children(&self, dom: &Dom, parent: NodeId, order: &mut Vec<NodeId>)
        requires
            dom.wf(),
            dom.contains_node(parent),
        ensures
            final(order)@ == old(order)@ + self.normal_seq(*dom, parent, 0),
        decreases dom.depth_measure(parent),
    {
        let children = dom.children(parent).unwrap();
        proof {
            dom.lemma_node(parent);
        }
        let ghost start = old(order)@;
        let mut i: usize = 0;
        while i < children.len()
            invariant
                dom.wf(),
                dom.contains_node(parent),
                children@ == dom.children_of(parent),
                forall|k: int| 0 <= k < children@.len() ==> dom.contains_node(#[trigger] children@[k]),
                0 <= i <= children.len(),
                order@ + self.normal_seq(*dom, parent, i as int) == start + self.normal_seq(*dom, parent, 0),
            decreases children.len() - i,
        {
            let child = children[i];
            proof {
                dom.lemma_child_measure(parent, i as int);
            }
            let ghost before = order@;
            let is_static = match dom.kind(child).unwrap() {
                NodeKind::Element(_, style) => match style.position {
                    Position::Static => true,
                    _ => false,
                },
                _ => true,
            };
            if self.source_order.contains_key(&child.raw()) && !self.contexts.contains_key(&child.raw())
                && is_static {
                order.push(child);
                self.paint_normal_children(dom, child, order);
                proof {
                    assert(order@ =~= before + (seq![child] + self.normal_seq(*dom, child, 0)));
                }
            }
            proof {
                assert(self.normal_seq(*dom, parent, i as int) =~= (if self.orders().contains_key(child@)
                    && !self.metas().contains_key(child@) && position_spec(dom.kind_of(child))
                    == Position::Static && dom.depth_measure(child) < dom.depth_measure(parent) {
                    seq![child] + self.normal_seq(*dom, child, 0)
                } else {
                    Seq::empty()
                }) + self.normal_seq(*dom, parent, i as int + 1));
            }
            i += 1;
        }
    }

    /// Appends a positioned box without a context and its normal flow.
    fn paint_positioned(&self, dom: &Dom, node: NodeId, order: &mut Vec<NodeId>)
        requires
            dom.wf(),
            dom.contains_node(node),
        ensures
            final(order)@ == old(order)@ + (seq![node] + self.normal_seq(*dom, node, 0)),
    {
        order.push(node);
        self.paint_normal_children(dom, node, order);
    }
}

impl StackingContexts {
    /// Whether `a` paints before `b`: among contexts by level and document
    /// order, among level-zero items by document order.
    fn before(&self, a: NodeId, b: NodeId, by_level: bool) -> (r: bool)
        requires
            by_level ==> self.metas().contains_key(a@) && self.metas().contains_key(b@),
            !by_level ==> self.orders().contains_key(a@) && self.orders().contains_key(b@),
        ensures
            r == (if by_level {
                self.context_leq()
            } else {
                self.zero_leq()
            })(a, b),
    {
        let (a1, a2, b1, b2): (i64, u64, i64, u64) = if by_level {
            let ma = *self.contexts.get(&a.raw()).unwrap();
            let mb = *self.contexts.get(&b.raw()).unwrap();
            (ma.level as i64, ma.source_order as u64, mb.level as i64, mb.source_order as u64)
        } else {
            let oa = *self.source_order.get(&a.raw()).unwrap();
            let ob = *self.source_order.get(&b.raw()).unwrap();
            (0, oa as u64, 0, ob as u64)
        };
        if by_level {
            if a1 != b1 {
                return a1 < b1;
            }
            if a2 != b2 {
                return a2 < b2;
            }
        } else {
            if a2 != b2 {
                return a2 < b2;
            }
        }
        a.raw() <= b.raw()
    }

    /// `items` sorted into paint order.
    fn sort_items(&self, items: &Vec<NodeId>, by_level: bool) -> (r: Vec<NodeId>)
        requires
            forall|i: int|
                0 <= i < items@.len() ==> (by_level ==> self.metas().contains_key(#[trigger] items@[i]@))
                    && (!by_level ==> self.orders().contains_key(items@[i]@)),
        ensures
            r@ == items@.sort_by(
                if by_level {
                    self.context_leq()
                } else {
                    self.zero_leq()
                },
            ),
    {
        let ghost leq = if by_level {
            self.context_leq()
        } else {
            self.zero_leq()
        };
        proof {
            if by_level {
                lemma_key_order_total(
                    |v: NodeId| self.metas()[v@].level as int,
                    |v: NodeId| self.metas()[v@].source_order as int,
                );
            } else {
                lemma_key_order_total(|v: NodeId| self.orders()[v@] as int, |v: NodeId| 0int);
            }
        }
        let mut r: Vec<NodeId> = Vec::new();
        let mut i: usize = 0;
        proof {
            assert(r@ =~= items@.take(0));
        }
        while i < items.len()
            invariant
                0 <= i <= items.len(),
                total_ordering(leq),
                leq == (if by_level {
                    self.context_leq()
                } else {
                    self.zero_leq()
                }),
                forall|k: int|
                    0 <= k < items@.len() ==> (by_level ==> self.metas().contains_key(#[trigger] items@[k]@))
                        && (!by_level ==> self.orders().contains_key(items@[k]@)),
                r@.to_multiset() == items@.take(i as int).to_multiset(),
                sorted_by(r@, leq),
                forall|k: int|
                    0 <= k < r@.len() ==> (by_level ==> self.metas().contains_key(#[trigger] r@[k]@)) && (
                    !by_level ==> self.orders().contains_key(r@[k]@)),
            decreases items.len() - i,
        {
            let x = items[i];
            let mut p: usize = 0;
            while p < r.len()
                invariant
                    0 <= p <= r.len(),
                    total_ordering(leq),
                    leq == (if by_level {
                        self.context_leq()
                    } else {
                        self.zero_leq()
                    }),
                    by_level ==> self.metas().contains_key(x@),
                    !by_level ==> self.orders().contains_key(x@),
                    forall|k: int|
                        0 <= k < r@.len() ==> (by_level ==> self.metas().contains_key(#[trigger] r@[k]@))
                            && (!by_level ==> self.orders().contains_key(r@[k]@)),
                    forall|q: int| 0 <= q < p ==> leq(#[trigger] r@[q], x),
                ensures
                    0 <= p <= r.len(),
                    forall|q: int| 0 <= q < p ==> leq(#[trigger] r@[q], x),
                    p < r.len() ==> !leq(r@[p as int], x),
                decreases r.len() - p,
            {
                if !self.before(r[p], x, by_level) {
                    break;
                }
                p += 1;
            }
            let ghost old_r = r@;
            r.insert(p, x);
            proof {
                assert(items@.take(i as int + 1) =~= items@.take(i as int).push(x));
                vstd::seq_lib::to_multiset_insert(old_r, p as int, x);
                vstd::seq_lib::to_multiset_build(items@.take(i as int), x);
                assert forall|a: int, b: int| 0 <= a < b < r@.len() implies #[trigger] leq(r@[a], r@[b]) by {
                    if p < old_r.len() {
                        assert(!leq(old_r[p as int], x));
                        assert(leq(x, old_r[p as int]));
                    }
                    if a < p && b == p {
                    } else if a == p && b > p {
                        if b - 1 > p {
                            assert(leq(old_r[p as int], old_r[b - 1]));
                        }
                    } else if a < p && b > p {
                        assert(leq(old_r[a], old_r[b - 1]));
                    } else if b < p {
                        assert(leq(old_r[a], old_r[b]));
                    } else {
                        assert(leq(old_r[a - 1], old_r[b - 1]));
                    }
                }
            }
            i += 1;
        }
        proof {
            assert(items@.take(items@.len() as int) =~= items@);
            items@.lemma_sort_by_ensures(leq);
            vstd::seq_lib::lemma_sorted_unique(r@, items@.sort_by(leq), leq);
        }
        r
    }

    /// The contexts in `list` whose level has the sign of `sign`.
    fn filter_level(&self, list: &Vec<NodeId>, sign: i32) -> (r: Vec<NodeId>)
        requires
            forall|i: int| 0 <= i < list@.len() ==> self.metas().contains_key(#[trigger] list@[i]@),
        ensures
            r@ == list@.filter(self.level_sign(sign)),
    {
        let mut r: Vec<NodeId> = Vec::new();
        let mut i: usize = 0;
        proof {
            assert(list@.take(0) =~= Seq::<NodeId>::empty());
            reveal(Seq::filter);
        }
        while i < list.len()
            invariant
                0 <= i <= list.len(),
                forall|k: int| 0 <= k < list@.len() ==> self.metas().contains_key(#[trigger] list@[k]@),
                r@ == list@.take(i as int).filter(self.level_sign(sign)),
            decreases list.len() - i,
        {
            let x = list[i];
            let level = self.contexts.get(&x.raw()).unwrap().level;
            let keep = if sign < 0 {
                level < 0
            } else if sign == 0 {
                level == 0
            } else {
                level > 0
            };
            proof {
                assert(list@.take(i as int + 1) =~= list@.take(i as int).push(x));
                list@.take(i as int).lemma_filter_push(x, self.level_sign(sign));
            }
            if keep {
                r.push(x);
            }
            i += 1;
        }
        proof {
            assert(list@.take(list@.len() as int) =~= list@);
        }
        r
    }
}

/// A member of a filtered sequence is a member that passes the filter.
proof fn lemma_filtered(s: Seq<NodeId>, pred: spec_fn(NodeId) -> bool, v: NodeId)
    requires
        s.filter(pred).contains(v),
    ensures
        s.contains(v),
        pred(v),
{
    broadcast use vstd::seq_lib::group_filter_ensures;

    s.lemma_filter_contains_rev(pred, v);
    let k = s.filter(pred).index_of(v);
    assert(pred(s.filter(pred)[k]));
}

impl StackingContexts {
    /// The lists of a recorded context hold walked boxes below it: child
    /// contexts with their metadata, and positioned boxes without.
    proof fn lemma_context_lists(&self, dom: Dom, bx: Set<u64>, w: NodeId, c: NodeId)
        requires
            dom.wf(),
            dom.contains_node(w),
            self.records(dom, w, boxed_preorder(dom, bx, w, 0)),
            c == w || (boxed_preorder(dom, bx, w, 0).contains(c) && creates_context(dom, c)),
        ensures
            dom.contains_node(c),
            self.context_children().contains_key(c@),
            self.positioned().contains_key(c@),
            forall|v: NodeId| #[trigger]
                self.context_children()[c@].contains(v) ==> {
                    &&& boxed_preorder(dom, bx, w, 0).contains(v)
                    &&& creates_context(dom, v)
                    &&& dom.contains_node(v)
                    &&& self.metas().contains_key(v@)
                    &&& self.orders().contains_key(v@)
                    &&& dom.depth_measure(v) < dom.depth_measure(c)
                },
            forall|v: NodeId| #[trigger]
                self.positioned()[c@].contains(v) ==> {
                    &&& boxed_preorder(dom, bx, w, 0).contains(v)
                    &&& dom.contains_node(v)
                    &&& !self.metas().contains_key(v@)
                    &&& self.orders().contains_key(v@)
                    &&& dom.depth_measure(v) < dom.depth_measure(c)
                },
    {
        let f = boxed_preorder(dom, bx, w, 0);
        lemma_preorder(dom, bx, w, 0);
        if c != w {
            let j = f.index_of(c);
            assert(f[j] == c);
        }
        assert forall|v: NodeId| #[trigger] self.context_children()[c@].contains(v) implies {
            &&& f.contains(v)
            &&& creates_context(dom, v)
            &&& dom.contains_node(v)
            &&& self.metas().contains_key(v@)
            &&& self.orders().contains_key(v@)
            &&& dom.depth_measure(v) < dom.depth_measure(c)
        } by {
            lemma_filtered(f, child_context_of(dom, w, c), v);
            let k = f.index_of(v);
            assert(f[k] == v);
            lemma_context_of(dom, bx, w, v);
            dom.lemma_ancestor_measure(c, v);
            assert(f.map_values(|u: NodeId| u@)[k] == v@);
        }
        assert forall|v: NodeId| #[trigger] self.positioned()[c@].contains(v) implies {
            &&& f.contains(v)
            &&& dom.contains_node(v)
            &&& !self.metas().contains_key(v@)
            &&& self.orders().contains_key(v@)
            &&& dom.depth_measure(v) < dom.depth_measure(c)
        } by {
            lemma_filtered(f, positioned_in(dom, w, c), v);
            let k = f.index_of(v);
            assert(f[k] == v);
            lemma_context_of(dom, bx, w, v);
            dom.lemma_ancestor_measure(c, v);
            assert(f.map_values(|u: NodeId| u@)[k] == v@);
        }
    }

    /// Appends the paint order of the context rooted at `root`.
    fn paint_context(
        &self,
        dom: &Dom,
        Ghost(bx): Ghost<Set<u64>>,
        w: NodeId,
        root: NodeId,
        order: &mut Vec<NodeId>,
    )
        requires
            dom.wf(),
            dom.contains_node(w),
            self.records(*dom, w, boxed_preorder(*dom, bx, w, 0)),
            root == w || (boxed_preorder(*dom, bx, w, 0).contains(root) && creates_context(*dom, root)),
        ensures
            final(order)@ == old(order)@ + self.paint_seq(*dom, root),
        decreases dom.depth_measure(root),
    {
        proof {
            self.lemma_context_lists(*dom, bx, w, root);
        }
        let ghost start = old(order)@;
        order.push(root);
        let child_contexts = self.children.get(&root.raw()).unwrap();
        proof {
            assert(child_contexts@ == self.context_children()[root@]);
            assert forall|i: int| 0 <= i < child_contexts@.len() implies self.metas().contains_key(
                #[trigger] child_contexts@[i]@,
            ) by {
                assert(child_contexts@.contains(child_contexts@[i]));
            }
        }
        let negative_all = self.filter_level(child_contexts, -1);
        proof {
            assert forall|i: int| 0 <= i < negative_all@.len() implies self.metas().contains_key(
                #[trigger] negative_all@[i]@,
            ) by {
                assert(negative_all@.contains(negative_all@[i]));
                lemma_filtered(child_contexts@, self.level_sign(-1i32), negative_all@[i]);
            }
        }
        let negative = self.sort_items(&negative_all, true);
        proof {
            lemma_key_order_total(
                |v: NodeId| self.metas()[v@].level as int,
                |v: NodeId| self.metas()[v@].source_order as int,
            );
            negative_all@.lemma_sort_by_ensures(self.context_leq());
            assert forall|v: NodeId| #[trigger] negative@.contains(v) implies boxed_preorder(*dom, bx, w, 0).contains(v)
                && creates_context(*dom, v) && dom.depth_measure(v) < dom.depth_measure(root) by {
                assert(negative_all@.contains(v));
                lemma_filtered(child_contexts@, self.level_sign(-1i32), v);
            }
        }
        let ghost base1 = order@;
        let mut j: usize = 0;
        while j < negative.len()
            invariant
                dom.wf(),
                dom.contains_node(w),
                dom.contains_node(root),
                self.records(*dom, w, boxed_preorder(*dom, bx, w, 0)),
                negative@ == self.negative(root),
                forall|v: NodeId| #[trigger]
                    negative@.contains(v) ==> boxed_preorder(*dom, bx, w, 0).contains(v) && creates_context(
                        *dom,
                        v,
                    ) && dom.depth_measure(v) < dom.depth_measure(root),
                0 <= j <= negative.len(),
                order@ + self.paint_list(*dom, root, negative@, j as int) == base1 + self.paint_list(
                    *dom,
                    root,
                    negative@,
                    0,
                ),
            decreases negative.len() - j,
        {
            let child = negative[j];
            proof {
                assert(negative@.contains(child));
            }
            let ghost before = order@;
            self.paint_context(dom, Ghost(bx), w, child, order);
            proof {
                assert(self.paint_list(*dom, root, negative@, j as int) =~= self.paint_seq(*dom, child)
                    + self.paint_list(*dom, root, negative@, j as int + 1));
            }
            j += 1;
        }
        let ghost base2 = order@;
        self.paint_normal_children(dom, root, order);
        let mut zero_all = self.filter_level(child_contexts, 0);
        let positioned = self.positioned_auto.get(&root.raw()).unwrap();
        let ghost zero_contexts = zero_all@;
        let mut k: usize = 0;
        while k < positioned.len()
            invariant
                0 <= k <= positioned.len(),
                zero_all@ == zero_contexts + positioned@.take(k as int),
            decreases positioned.len() - k,
        {
            zero_all.push(positioned[k]);
            proof {
                assert(positioned@.take(k as int + 1) =~= positioned@.take(k as int).push(positioned@[k as int]));
            }
            k += 1;
        }
        proof {
            assert(positioned@.take(positioned@.len() as int) =~= positioned@);
            assert(positioned@ == self.positioned()[root@]);
            assert forall|i: int| 0 <= i < zero_all@.len() implies self.orders().contains_key(
                #[trigger] zero_all@[i]@,
            ) by {
                if i < zero_contexts.len() {
                    assert(zero_contexts.contains(zero_all@[i]));
                    lemma_filtered(child_contexts@, self.level_sign(0i32), zero_all@[i]);
                } else {
                    assert(positioned@[i - zero_contexts.len()] == zero_all@[i]);
                    assert(positioned@.contains(zero_all@[i]));
                }
            }
        }
        let zero = self.sort_items(&zero_all, false);
        proof {
            lemma_key_order_total(|v: NodeId| self.orders()[v@] as int, |v: NodeId| 0int);
            zero_all@.lemma_sort_by_ensures(self.zero_leq());
            assert forall|v: NodeId| #[trigger] zero@.contains(v) implies {
                &&& boxed_preorder(*dom, bx, w, 0).contains(v)
                &&& dom.contains_node(v)
                &&& dom.depth_measure(v) < dom.depth_measure(root)
                &&& (self.metas().contains_key(v@) ==> creates_context(*dom, v))
            } by {
                assert(zero_all@.contains(v));
                let q = zero_all@.index_of(v);
                if q < zero_contexts.len() {
                    assert(zero_contexts[q] == v);
                    assert(zero_contexts.contains(v));
                    lemma_filtered(child_contexts@, self.level_sign(0i32), v);
                } else {
                    assert(positioned@[q - zero_contexts.len()] == v);
                    assert(positioned@.contains(v));
                }
            }
        }
        let ghost base3 = order@;
        let mut j: usize = 0;
        while j < zero.len()
            invariant
                dom.wf(),
                dom.contains_node(w),
                dom.contains_node(root),
                self.records(*dom, w, boxed_preorder(*dom, bx, w, 0)),
                zero@ == self.zero_items(root),
                forall|v: NodeId| #[trigger]
                    zero@.contains(v) ==> {
                        &&& boxed_preorder(*dom, bx, w, 0).contains(v)
                        &&& dom.contains_node(v)
                        &&& dom.depth_measure(v) < dom.depth_measure(root)
                        &&& (self.metas().contains_key(v@) ==> creates_context(*dom, v))
                    },
                0 <= j <= zero.len(),
                order@ + self.zero_seq(*dom, root, zero@, j as int) == base3 + self.zero_seq(
                    *dom,
                    root,
                    zero@,
                    0,
                ),
            decreases zero.len() - j,
        {
            let item = zero[j];
            proof {
                assert(zero@.contains(item));
            }
            if self.contexts.contains_key(&item.raw()) {
                self.paint_context(dom, Ghost(bx), w, item, order);
            } else {
                self.paint_positioned(dom, item, order);
            }
            proof {
                assert(self.zero_seq(*dom, root, zero@, j as int) =~= (if self.metas().contains_key(item@) {
                    self.paint_seq(*dom, item)
                } else {
                    seq![item] + self.normal_seq(*dom, item, 0)
                }) + self.zero_seq(*dom, root, zero@, j as int + 1));
            }
            j += 1;
        }
        let positive_all = self.filter_level(child_contexts, 1);
        proof {
            assert forall|i: int| 0 <= i < positive_all@.len() implies self.metas().contains_key(
                #[trigger] positive_all@[i]@,
            ) by {
                assert(positive_all@.contains(positive_all@[i]));
                lemma_filtered(child_contexts@, self.level_sign(1i32), positive_all@[i]);
            }
        }
        let positive = self.sort_items(&positive_all, true);
        proof {
            lemma_key_order_total(
                |v: NodeId| self.metas()[v@].level as int,
                |v: NodeId| self.metas()[v@].source_order as int,
            );
            positive_all@.lemma_sort_by_ensures(self.context_leq());
            assert forall|v: NodeId| #[trigger] positive@.contains(v) implies boxed_preorder(*dom, bx, w, 0).contains(v)
                && creates_context(*dom, v) && dom.depth_measure(v) < dom.depth_measure(root) by {
                assert(positive_all@.contains(v));
                lemma_filtered(child_contexts@, self.level_sign(1i32), v);
            }
        }
        let ghost base4 = order@;
        let mut j: usize = 0;
        while j < positive.len()
            invariant
                dom.wf(),
                dom.contains_node(w),
                dom.contains_node(root),
                self.records(*dom, w, boxed_preorder(*dom, bx, w, 0)),
                positive@ == self.positive(root),
                forall|v: NodeId| #[trigger]
                    positive@.contains(v) ==> boxed_preorder(*dom, bx, w, 0).contains(v) && creates_context(
                        *dom,
                        v,
                    ) && dom.depth_measure(v) < dom.depth_measure(root),
                0 <= j <= positive.len(),
                order@ + self.paint_list(*dom, root, positive@, j as int) == base4 + self.paint_list(
                    *dom,
                    root,
                    positive@,
                    0,
                ),
            decreases positive.len() - j,
        {
            let child = positive[j];
            proof {
                assert(positive@.contains(child));
            }
            self.paint_context(dom, Ghost(bx), w, child, order);
            proof {
                assert(self.paint_list(*dom, root, positive@, j as int) =~= self.paint_seq(*dom, child)
                    + self.paint_list(*dom, root, positive@, j as int + 1));
            }
            j += 1;
        }
        proof {
            assert(self.paint_list(*dom, root, negative@, negative@.len() as int) =~= Seq::<NodeId>::empty());
            assert(self.zero_seq(*dom, root, zero@, zero@.len() as int) =~= Seq::<NodeId>::empty());
            assert(self.paint_list(*dom, root, positive@, positive@.len() as int) =~= Seq::<NodeId>::empty());
            assert(order@ =~= start + self.paint_seq(*dom, root));
        }
    }
}

impl StackingContexts {
    /// The order in which the recorded boxes paint, each box after
    /// everything it paints over.
    pub fn paint_order(&self, dom: &Dom) -> (r: Vec<NodeId>)
        requires
            dom.wf(),
            exists|window: Option<NodeId>, bx: Set<u64>| self.built_from(*dom, window, bx),
        ensures
            r@ == self.paint_order_spec(*dom),
    {
        let ghost (window, bx) = choose|window: Option<NodeId>, bx: Set<u64>|
            self.built_from(*dom, window, bx);
        let mut order: Vec<NodeId> = Vec::new();
        match self.root {
            None => {},
            Some(w) => {
                proof {
                    assert(window == Some(w));
                }
                if dom.contains(w) {
                    self.paint_context(dom, Ghost(bx), w, w, &mut order);
                } else {
                    order.push(w);
                    proof {
                        let e = Seq::<NodeId>::empty();
                        assert(walk(*dom, bx, w) == e);
                        assert(self.records(*dom, w, e));
                        assert(e.filter(self.level_sign(-1i32)) =~= e) by {
                            reveal(Seq::filter);
                        }
                        assert(e.filter(self.level_sign(1i32)) =~= e) by {
                            reveal(Seq::filter);
                        }
                        assert(e.filter(self.level_sign(0i32)) =~= e) by {
                            reveal(Seq::filter);
                        }
                        assert(e.filter(child_context_of(*dom, w, w)) =~= e) by {
                            reveal(Seq::filter);
                        }
                        assert(e.filter(positioned_in(*dom, w, w)) =~= e) by {
                            reveal(Seq::filter);
                        }
                        assert(e.sort_by(self.context_leq()) =~= e) by {
                            broadcast use vstd::seq_lib::group_to_multiset_ensures;

                            lemma_key_order_total(
                                |v: NodeId| self.metas()[v@].level as int,
                                |v: NodeId| self.metas()[v@].source_order as int,
                            );
                            e.lemma_sort_by_ensures(self.context_leq());
                            assert(e.to_multiset().len() == 0);
                        }
                        assert(e.sort_by(self.zero_leq()) =~= e) by {
                            broadcast use vstd::seq_lib::group_to_multiset_ensures;

                            lemma_key_order_total(|v: NodeId| self.orders()[v@] as int, |v: NodeId| 0int);
                            e.lemma_sort_by_ensures(self.zero_leq());
                            assert(e.to_multiset().len() == 0);
                        }
                        assert(e + e =~= e);
                        assert(self.paint_seq(*dom, w) =~= seq![w]);
                    }
                }
            },
        }
        proof {
            assert(order@ =~= self.paint_order_spec(*dom));
        }
        order
    }

    /// The stacking context that `id` roots: its parent context, level and
    /// document position.
    pub fn context(&self, id: NodeId) -> (r: Option<ContextMeta>)
        ensures
            r == if self.metas().contains_key(id@) {
                Some(self.metas()[id@])
            } else {
                None
            },
    {
        match self.contexts.get(&id.raw()) {
            Some(m) => Some(*m),
            None => None,
        }
    }

    /// The document root of the stacking tree: the Window, if there is one.
    pub fn root(&self) -> (r: Option<NodeId>)
        ensures
            r == self.root_spec(),
    {
        self.root
    }
}

/// Two sequences without duplicates and without common members make one.
proof fn lemma_concat_distinct(a: Seq<NodeId>, b: Seq<NodeId>)
    requires
        a.no_duplicates(),
        b.no_duplicates(),
        forall|x: NodeId| #[trigger] a.contains(x) ==> !b.contains(x),
    ensures
        (a + b).no_duplicates(),
{
    assert forall|i: int, j: int| 0 <= i < a.len() && 0 <= j < b.len() implies a[i] != b[j] by {
        assert(a.contains(a[i]));
        assert(b.contains(b[j]));
    }
    vstd::seq_lib::lemma_no_dup_in_concat(a, b);
}

impl StackingContexts {
    /// A recorded box that paints in normal flow: static, without a context
    /// of its own.
    pub open spec fn plain(&self, dom: Dom, x: NodeId) -> bool {
        &&& self.orders().contains_key(x@)
        &&& !self.metas().contains_key(x@)
        &&& position_spec(dom.kind_of(x)) == Position::Static
    }

    /// `x` is a normal-flow box of `p`: it and every box between it and `p`
    /// is plain.
    pub open spec fn normal_of(&self, dom: Dom, p: NodeId, x: NodeId) -> bool
        decreases dom.rank_of(x),
    {
        &&& dom.contains_node(x)
        &&& self.plain(dom, x)
        &&& dom.parent_of(x) is Some
        &&& (dom.parent_of(x)->0 == p || (dom.rank_of(dom.parent_of(x)->0) < dom.rank_of(x)
            && self.normal_of(dom, p, dom.parent_of(x)->0)))
    }

    /// A normal-flow box lies strictly below its root.
    proof fn lemma_normal_below(&self, dom: Dom, p: NodeId, x: NodeId)
        requires
            dom.wf(),
            self.normal_of(dom, p, x),
        ensures
            dom.in_subtree(p, x),
            x != p,
            dom.contains_node(p),
        decreases dom.rank_of(x),
    {
        let q = dom.parent_of(x)->0;
        dom.lemma_parent_rank(x);
        dom.lemma_in_subtree_step(p, x);
        if q != p {
            self.lemma_normal_below(dom, p, q);
            dom.lemma_in_subtree_rank(p, q);
        } else {
            dom.lemma_in_subtree_refl(p);
        }
        dom.lemma_in_subtree_rank(p, x);
        if x == p {
            dom.lemma_in_subtree_rank(p, q);
        }
    }

    /// Every box between a normal-flow box and its root is a normal-flow box
    /// of that root.
    proof fn lemma_normal_path(&self, dom: Dom, p: NodeId, x: NodeId, m: NodeId)
        requires
            dom.wf(),
            self.normal_of(dom, p, x),
            dom.in_subtree(m, x),
            dom.in_subtree(p, m),
            m != p,
        ensures
            self.normal_of(dom, p, m),
        decreases dom.rank_of(x),
    {
        if m != x {
            let q = dom.parent_of(x)->0;
            dom.lemma_parent_rank(x);
            dom.lemma_in_subtree_step(m, x);
            if q == p {
                dom.lemma_in_subtree_rank(m, p);
                dom.lemma_in_subtree_rank(p, m);
                dom.lemma_in_subtree_rank(m, x);
                self.lemma_normal_below(dom, p, x);
                dom.lemma_ancestor_measure(p, m);
            } else {
                self.lemma_normal_path(dom, p, q, m);
            }
        }
    }

    /// A normal-flow box of `p` below the child `c` of `p` is a normal-flow
    /// box of `c`.
    proof fn lemma_normal_lower(&self, dom: Dom, p: NodeId, c: NodeId, x: NodeId)
        requires
            dom.wf(),
            self.normal_of(dom, p, x),
            dom.contains_node(c),
            dom.parent_of(c) == Some(p),
            dom.in_subtree(c, x),
            x != c,
        ensures
            self.normal_of(dom, c, x),
        decreases dom.rank_of(x),
    {
        let q = dom.parent_of(x)->0;
        dom.lemma_parent_rank(x);
        dom.lemma_in_subtree_step(c, x);
        if q == p {
            dom.lemma_parent_rank(c);
            dom.lemma_in_subtree_rank(c, p);
        } else if q != c {
            self.lemma_normal_lower(dom, p, c, q);
        }
    }

    /// A normal-flow box of a plain child `c` of `p` is a normal-flow box of
    /// `p`.
    proof fn lemma_normal_lift(&self, dom: Dom, p: NodeId, c: NodeId, x: NodeId)
        requires
            dom.wf(),
            self.normal_of(dom, c, x),
            dom.contains_node(c),
            dom.parent_of(c) == Some(p),
            self.plain(dom, c),
        ensures
            self.normal_of(dom, p, x),
        decreases dom.rank_of(x),
    {
        let q = dom.parent_of(x)->0;
        dom.lemma_parent_rank(x);
        if q == c {
            dom.lemma_parent_rank(c);
            assert(self.normal_of(dom, p, c));
        } else {
            self.lemma_normal_lift(dom, p, c, q);
        }
    }

    /// The normal-flow run below the children of `p` from `i` on holds each
    /// normal-flow box of `p` below those children once, and nothing else.
    proof fn lemma_normal_exact(&self, dom: Dom, p: NodeId, i: int)
        requires
            dom.wf(),
            dom.contains_node(p),
            0 <= i,
        ensures
            self.normal_seq(dom, p, i).no_duplicates(),
            forall|x: NodeId| #[trigger]
                self.normal_seq(dom, p, i).contains(x) <==> (self.normal_of(dom, p, x) && exists|j: int|
                    i <= j < dom.children_of(p).len() && dom.in_subtree(
                        #[trigger] dom.children_of(p)[j],
                        x,
                    )),
        decreases dom.depth_measure(p), dom.children_of(p).len() - i,
    {
        broadcast use vstd::seq_lib::lemma_seq_concat_contains_all_elements;

        let s = self.normal_seq(dom, p, i);
        let kids = dom.children_of(p);
        dom.lemma_node(p);
        if i >= kids.len() {
            assert(s.len() == 0);
        } else {
            let c = kids[i];
            dom.lemma_child_measure(p, i);
            dom.lemma_node(c);
            let cond = self.orders().contains_key(c@) && !self.metas().contains_key(c@)
                && position_spec(dom.kind_of(c)) == Position::Static && dom.depth_measure(c)
                < dom.depth_measure(p);
            let inner = self.normal_seq(dom, c, 0);
            let here = if cond {
                seq![c] + inner
            } else {
                Seq::empty()
            };
            let rest = self.normal_seq(dom, p, i + 1);
            assert(s == here + rest);
            self.lemma_normal_exact(dom, p, i + 1);
            self.lemma_normal_exact(dom, c, 0);
            dom.lemma_in_subtree_refl(c);
            // What lies in `here` lies below `c`; what lies in `rest` lies below a later child.
            assert forall|x: NodeId| #[trigger] here.contains(x) implies dom.in_subtree(c, x)
                && self.normal_of(dom, p, x) by {
                if x == c {
                    assert(self.normal_of(dom, p, c));
                } else {
                    assert(inner.contains(x));
                    let j = choose|j: int|
                        0 <= j < dom.children_of(c).len() && dom.in_subtree(
                            #[trigger] dom.children_of(c)[j],
                            x,
                        );
                    let m = dom.children_of(c)[j];
                    dom.lemma_in_subtree_refl(c);
                    dom.lemma_in_subtree_step(c, m);
                    self.lemma_normal_below(dom, c, x);
                    dom.lemma_in_subtree_chain(c, m, x);
                    self.lemma_normal_lift(dom, p, c, x);
                }
            }
            assert forall|x: NodeId| #[trigger] here.contains(x) implies !rest.contains(x) by {
                if rest.contains(x) {
                    let j = choose|j: int|
                        i + 1 <= j < kids.len() && dom.in_subtree(#[trigger] kids[j], x);
                    self.lemma_normal_below(dom, p, x);
                    dom.lemma_siblings_disjoint(c, kids[j], x);
                }
            }
            if cond {
                assert(!inner.contains(c)) by {
                    if inner.contains(c) {
                        self.lemma_normal_below(dom, c, c);
                    }
                }
                lemma_concat_distinct(seq![c], inner);
            }
            lemma_concat_distinct(here, rest);
            assert forall|x: NodeId| #[trigger] s.contains(x) <== (self.normal_of(dom, p, x)
                && exists|j: int| i <= j < kids.len() && dom.in_subtree(#[trigger] kids[j], x)) by {
                if self.normal_of(dom, p, x) && exists|j: int|
                    i <= j < kids.len() && dom.in_subtree(#[trigger] kids[j], x) {
                    let j = choose|j: int| i <= j < kids.len() && dom.in_subtree(#[trigger] kids[j], x);
                    if j > i {
                        assert(rest.contains(x));
                    } else if x == c {
                        assert(cond);
                        assert(seq![c][0] == c);
                        assert(seq![c].contains(c));
                        assert(here.contains(x));
                    } else {
                        self.lemma_normal_below(dom, p, x);
                        dom.lemma_in_subtree_refl(p);
                        dom.lemma_in_subtree_step(p, c);
                        self.lemma_normal_path(dom, p, x, c);
                        self.lemma_normal_lower(dom, p, c, x);
                        let m = dom.lemma_child_on_path(c, x);
                        let k = dom.children_of(c).index_of(m);
                        assert(dom.children_of(c)[k] == m);
                        assert(inner.contains(x));
                        assert(here.contains(x));
                    }
                }
            }
            assert forall|x: NodeId| #[trigger] s.contains(x) implies (self.normal_of(dom, p, x)
                && exists|j: int| i <= j < kids.len() && dom.in_subtree(#[trigger] kids[j], x)) by {
                if here.contains(x) {
                    assert(dom.in_subtree(kids[i], x));
                }
            }
        }
    }
}

/// Filtering keeps a sequence free of duplicates.
proof fn lemma_filter_distinct(s: Seq<NodeId>, pred: spec_fn(NodeId) -> bool)
    requires
        s.no_duplicates(),
    ensures
        s.filter(pred).no_duplicates(),
    decreases s.len(),
{
    reveal(Seq::filter);
    if s.len() > 0 {
        let rest = s.drop_last();
        assert(rest.no_duplicates());
        lemma_filter_distinct(rest, pred);
        if pred(s.last()) {
            assert(!rest.filter(pred).contains(s.last())) by {
                if rest.filter(pred).contains(s.last()) {
                    lemma_filtered(rest, pred, s.last());
                    let k = rest.index_of(s.last());
                    assert(s[k] == s[s.len() - 1]);
                }
            }
            assert(s.filter(pred) == rest.filter(pred).push(s.last()));
            lemma_concat_distinct(rest.filter(pred), seq![s.last()]);
            assert(rest.filter(pred) + seq![s.last()] =~= rest.filter(pred).push(s.last()));
        }
    }
}

/// Sorting keeps the members of a sequence and keeps it free of duplicates.
proof fn lemma_sort_distinct(s: Seq<NodeId>, leq: spec_fn(NodeId, NodeId) -> bool)
    requires
        s.no_duplicates(),
        total_ordering(leq),
    ensures
        s.sort_by(leq).no_duplicates(),
        forall|x: NodeId| #[trigger] s.sort_by(leq).contains(x) <==> s.contains(x),
{
    broadcast use vstd::seq_lib::group_to_multiset_ensures;

    s.lemma_sort_by_ensures(leq);
    s.lemma_multiset_has_no_duplicates();
    s.sort_by(leq).lemma_multiset_has_no_duplicates_conv();
    assert forall|x: NodeId| #[trigger] s.sort_by(leq).contains(x) <==> s.contains(x) by {
        assert(s.to_multiset().contains(x) == s.contains(x));
        assert(s.sort_by(leq).to_multiset().contains(x) == s.sort_by(leq).contains(x));
    }
}

/// No box strictly between a box and the context it paints in creates a
/// context.
pub proof fn lemma_no_context_between(dom: Dom, w: NodeId, v: NodeId, m: NodeId)
    requires
        dom.wf(),
        dom.contains_node(v),
        dom.in_subtree(m, v),
        m != v,
        dom.in_subtree(context_of(dom, w, v), m),
        m != context_of(dom, w, v),
    ensures
        !creates_context(dom, m),
        m != w,
    decreases dom.rank_of(v),
{
    let c = context_of(dom, w, v);
    dom.lemma_in_subtree_step(m, v);
    let p = dom.parent_of(v)->0;
    dom.lemma_parent_rank(v);
    dom.lemma_in_subtree_rank(m, v);
    if p == w || creates_context(dom, p) {
        assert(c == p);
        if m != p {
            dom.lemma_ancestor_measure(m, p);
            dom.lemma_in_subtree_rank(c, m);
            dom.lemma_ancestor_measure(c, m);
        }
    } else {
        assert(c == context_of(dom, w, p));
        if m != p {
            lemma_no_context_between(dom, w, p, m);
        }
    }
}

impl StackingContexts {
    /// What paints with the item `v` of a context: the whole walked subtree
    /// of a child context, or a positioned box with its normal-flow boxes.
    pub open spec fn in_group(&self, dom: Dom, f: Seq<NodeId>, v: NodeId, x: NodeId) -> bool {
        if self.metas().contains_key(v@) {
            f.contains(x) && dom.in_subtree(v, x)
        } else {
            x == v || self.normal_of(dom, v, x)
        }
    }

    /// `v` is an item of context `c`: a walked child context, or a walked
    /// positioned box without a context of its own, that paints in `c`.
    pub open spec fn item_of(&self, dom: Dom, f: Seq<NodeId>, w: NodeId, c: NodeId, v: NodeId) -> bool {
        &&& f.contains(v)
        &&& context_of(dom, w, v) == c
        &&& (creates_context(dom, v) || position_spec(dom.kind_of(v)) != Position::Static)
    }

    /// A recorded box is the Window or a walked box.
    proof fn lemma_recorded_walked(&self, dom: Dom, bx: Set<u64>, w: NodeId, x: NodeId)
        requires
            self.records(dom, w, boxed_preorder(dom, bx, w, 0)),
            self.orders().contains_key(x@),
        ensures
            x == w || boxed_preorder(dom, bx, w, 0).contains(x),
    {
        let f = boxed_preorder(dom, bx, w, 0);
        let keys = f.map_values(|u: NodeId| u@);
        if x@ == w@ {
            NodeId::lemma_view_injective(x, w);
        } else {
            assert(keys.to_set().contains(x@));
            let k = choose|k: int| 0 <= k < keys.len() && keys[k] == x@;
            NodeId::lemma_view_injective(x, f[k]);
            assert(f.contains(f[k]));
        }
    }

    /// What the structure records of a walked box.
    proof fn lemma_walked(&self, dom: Dom, bx: Set<u64>, w: NodeId, x: NodeId)
        requires
            dom.wf(),
            dom.contains_node(w),
            self.records(dom, w, boxed_preorder(dom, bx, w, 0)),
            boxed_preorder(dom, bx, w, 0).contains(x),
        ensures
            dom.contains_node(x),
            dom.in_subtree(w, x),
            x != w,
            self.orders().contains_key(x@),
            self.metas().contains_key(x@) == creates_context(dom, x),
            creates_context(dom, x) ==> self.context_children()[context_of(dom, w, x)@].contains(x),
            !creates_context(dom, x) && position_spec(dom.kind_of(x)) != Position::Static
                ==> self.positioned()[context_of(dom, w, x)@].contains(x),
    {
        let f = boxed_preorder(dom, bx, w, 0);
        lemma_preorder(dom, bx, w, 0);
        let k = f.index_of(x);
        assert(f[k] == x);
        assert(f.map_values(|u: NodeId| u@)[k] == x@);
        assert(f.map_values(|u: NodeId| u@).contains(x@));
        let c = context_of(dom, w, x);
        lemma_context_of(dom, bx, w, x);
        if c != w {
            let j = f.index_of(c);
            assert(f[j] == c);
        }
        if creates_context(dom, x) {
            f.lemma_filter_contains(child_context_of(dom, w, c), k);
        }
        if !creates_context(dom, x) && position_spec(dom.kind_of(x)) != Position::Static {
            f.lemma_filter_contains(positioned_in(dom, w, c), k);
        }
    }

    /// A group lies in the walked subtree of its item.
    proof fn lemma_group_below(&self, dom: Dom, bx: Set<u64>, w: NodeId, v: NodeId, x: NodeId)
        requires
            dom.wf(),
            dom.contains_node(w),
            self.records(dom, w, boxed_preorder(dom, bx, w, 0)),
            boxed_preorder(dom, bx, w, 0).contains(v),
            self.in_group(dom, boxed_preorder(dom, bx, w, 0), v, x),
        ensures
            boxed_preorder(dom, bx, w, 0).contains(x),
            dom.in_subtree(v, x),
    {
        let f = boxed_preorder(dom, bx, w, 0);
        self.lemma_walked(dom, bx, w, v);
        if !self.metas().contains_key(v@) {
            if x == v {
                dom.lemma_in_subtree_refl(v);
            } else {
                self.lemma_normal_below(dom, v, x);
                self.lemma_recorded_walked(dom, bx, w, x);
                if x == w {
                    dom.lemma_in_subtree_rank(v, w);
                    dom.lemma_ancestor_measure(w, v);
                }
            }
        }
    }

    /// Groups of two items of one context, one above the other, share
    /// nothing.
    proof fn lemma_groups_nested(
        &self,
        dom: Dom,
        bx: Set<u64>,
        w: NodeId,
        c: NodeId,
        v1: NodeId,
        v2: NodeId,
        x: NodeId,
    )
        requires
            dom.wf(),
            dom.contains_node(w),
            self.records(dom, w, boxed_preorder(dom, bx, w, 0)),
            self.item_of(dom, boxed_preorder(dom, bx, w, 0), w, c, v1),
            self.item_of(dom, boxed_preorder(dom, bx, w, 0), w, c, v2),
            dom.in_subtree(v1, v2),
            v1 != v2,
            self.in_group(dom, boxed_preorder(dom, bx, w, 0), v1, x)
                || self.in_group(dom, boxed_preorder(dom, bx, w, 0), v2, x),
        ensures
            !(self.in_group(dom, boxed_preorder(dom, bx, w, 0), v1, x) && self.in_group(
                dom,
                boxed_preorder(dom, bx, w, 0),
                v2,
                x,
            )),
    {
        if self.in_group(dom, boxed_preorder(dom, bx, w, 0), v1, x) && self.in_group(
            dom,
            boxed_preorder(dom, bx, w, 0),
            v2,
            x,
        ) {
            self.lemma_walked(dom, bx, w, v1);
            self.lemma_walked(dom, bx, w, v2);
            self.lemma_group_below(dom, bx, w, v1, x);
            self.lemma_group_below(dom, bx, w, v2, x);
            lemma_context_of(dom, bx, w, v1);
            if self.metas().contains_key(v1@) {
                lemma_no_context_between(dom, w, v2, v1);
            } else if x == v1 {
                dom.lemma_in_subtree_rank(v2, v1);
                dom.lemma_ancestor_measure(v1, v2);
            } else {
                self.lemma_normal_path(dom, v1, x, v2);
            }
        }
    }

    /// Groups of two items of one context share nothing.
    proof fn lemma_groups_disjoint(
        &self,
        dom: Dom,
        bx: Set<u64>,
        w: NodeId,
        c: NodeId,
        v1: NodeId,
        v2: NodeId,
        x: NodeId,
    )
        requires
            dom.wf(),
            dom.contains_node(w),
            self.records(dom, w, boxed_preorder(dom, bx, w, 0)),
            self.item_of(dom, boxed_preorder(dom, bx, w, 0), w, c, v1),
            self.item_of(dom, boxed_preorder(dom, bx, w, 0), w, c, v2),
            v1 != v2,
            self.in_group(dom, boxed_preorder(dom, bx, w, 0), v1, x),
        ensures
            !self.in_group(dom, boxed_preorder(dom, bx, w, 0), v2, x),
    {
        if self.in_group(dom, boxed_preorder(dom, bx, w, 0), v2, x) {
            self.lemma_group_below(dom, bx, w, v1, x);
            self.lemma_group_below(dom, bx, w, v2, x);
            self.lemma_walked(dom, bx, w, x);
            dom.lemma_ancestors_comparable(v1, v2, x);
            if dom.in_subtree(v1, v2) {
                self.lemma_groups_nested(dom, bx, w, c, v1, v2, x);
            } else {
                self.lemma_groups_nested(dom, bx, w, c, v2, v1, x);
            }
        }
    }
}

impl StackingContexts {
    /// Every walked box below a context paints with one of its items or in
    /// its normal flow.
    proof fn lemma_cover(&self, dom: Dom, bx: Set<u64>, w: NodeId, c: NodeId, x: NodeId)
        requires
            dom.wf(),
            dom.contains_node(w),
            self.records(dom, w, boxed_preorder(dom, bx, w, 0)),
            c == w || (boxed_preorder(dom, bx, w, 0).contains(c) && creates_context(dom, c)),
            boxed_preorder(dom, bx, w, 0).contains(x),
            dom.in_subtree(c, x),
            x != c,
        ensures
            (exists|v: NodeId|
                self.item_of(dom, boxed_preorder(dom, bx, w, 0), w, c, v) && #[trigger] self.in_group(
                    dom,
                    boxed_preorder(dom, bx, w, 0),
                    v,
                    x,
                )) || self.normal_of(dom, c, x),
        decreases dom.rank_of(x),
    {
        let f = boxed_preorder(dom, bx, w, 0);
        self.lemma_walked(dom, bx, w, x);
        lemma_preorder(dom, bx, w, 0);
        let y = dom.parent_of(x)->0;
        dom.lemma_parent_rank(x);
        dom.lemma_in_subtree_step(c, x);
        if c != w {
            self.lemma_walked(dom, bx, w, c);
        }
        if creates_context(dom, x) || position_spec(dom.kind_of(x)) != Position::Static {
            let c2 = context_of(dom, w, x);
            lemma_context_of(dom, bx, w, x);
            dom.lemma_ancestors_comparable(c, c2, x);
            if c2 == c {
                dom.lemma_in_subtree_refl(x);
                assert(self.item_of(dom, f, w, c, x));
                assert(self.in_group(dom, f, x, x));
            } else if dom.in_subtree(c, c2) {
                if c2 == w {
                    dom.lemma_in_subtree_rank(c, w);
                    dom.lemma_ancestor_measure(w, c);
                }
                self.lemma_walked(dom, bx, w, c2);
                dom.lemma_ancestor_measure(c2, x);
                self.lemma_cover(dom, bx, w, c, c2);
                if self.normal_of(dom, c, c2) {
                    assert(false);
                } else {
                    let v = choose|v: NodeId|
                        self.item_of(dom, f, w, c, v) && #[trigger] self.in_group(dom, f, v, c2);
                    self.lemma_walked(dom, bx, w, v);
                    if self.metas().contains_key(v@) {
                        dom.lemma_in_subtree_chain(v, c2, x);
                        assert(self.in_group(dom, f, v, x));
                    } else {
                        assert(c2 != v);
                        assert(self.normal_of(dom, v, c2));
                        assert(false);
                    }
                }
            } else {
                lemma_no_context_between(dom, w, x, c);
            }
        } else {
            if y == c {
                assert(self.normal_of(dom, c, x));
            } else {
                if y == w {
                    dom.lemma_in_subtree_rank(c, w);
                    dom.lemma_ancestor_measure(w, c);
                }
                assert(f.contains(y));
                self.lemma_cover(dom, bx, w, c, y);
                if self.normal_of(dom, c, y) {
                    assert(self.normal_of(dom, c, x));
                } else {
                    let v = choose|v: NodeId|
                        self.item_of(dom, f, w, c, v) && #[trigger] self.in_group(dom, f, v, y);
                    dom.lemma_in_subtree_refl(y);
                    dom.lemma_in_subtree_step(v, x);
                    if self.metas().contains_key(v@) {
                        assert(self.in_group(dom, f, v, x));
                    } else {
                        assert(self.normal_of(dom, v, x));
                        assert(self.in_group(dom, f, v, x));
                    }
                }
            }
        }
    }
}

impl StackingContexts {
    /// `v` is in the filtered list `s.filter(pred)` exactly when it is in `s`
    /// and passes.
    proof fn lemma_filter_member(s: Seq<NodeId>, pred: spec_fn(NodeId) -> bool, v: NodeId)
        ensures
            s.filter(pred).contains(v) <==> s.contains(v) && pred(v),
    {
        if s.filter(pred).contains(v) {
            lemma_filtered(s, pred, v);
        }
        if s.contains(v) && pred(v) {
            let k = s.index_of(v);
            s.lemma_filter_contains(pred, k);
        }
    }

    /// The three paint lists of a context hold its items, each once: child
    /// contexts by the sign of their level, positioned boxes at level zero.
    proof fn lemma_item_lists(&self, dom: Dom, bx: Set<u64>, w: NodeId, c: NodeId)
        requires
            dom.wf(),
            dom.contains_node(w),
            self.records(dom, w, boxed_preorder(dom, bx, w, 0)),
            c == w || (boxed_preorder(dom, bx, w, 0).contains(c) && creates_context(dom, c)),
        ensures
            self.negative(c).no_duplicates(),
            self.positive(c).no_duplicates(),
            self.zero_items(c).no_duplicates(),
            forall|v: NodeId| #[trigger]
                self.negative(c).contains(v) <==> (self.item_of(dom, boxed_preorder(dom, bx, w, 0), w, c, v)
                    && self.metas().contains_key(v@) && self.metas()[v@].level < 0),
            forall|v: NodeId| #[trigger]
                self.positive(c).contains(v) <==> (self.item_of(dom, boxed_preorder(dom, bx, w, 0), w, c, v)
                    && self.metas().contains_key(v@) && self.metas()[v@].level > 0),
            forall|v: NodeId| #[trigger]
                self.zero_items(c).contains(v) <==> (self.item_of(dom, boxed_preorder(dom, bx, w, 0), w, c, v)
                    && (!self.metas().contains_key(v@) || self.metas()[v@].level == 0)),
    {
        let f = boxed_preorder(dom, bx, w, 0);
        lemma_preorder(dom, bx, w, 0);
        self.lemma_context_lists(dom, bx, w, c);
        if c != w {
            let j = f.index_of(c);
            assert(f[j] == c);
        }
        let cc = self.context_children()[c@];
        let pp = self.positioned()[c@];
        assert(cc == f.filter(child_context_of(dom, w, c)));
        assert(pp == f.filter(positioned_in(dom, w, c)));
        lemma_filter_distinct(f, child_context_of(dom, w, c));
        lemma_filter_distinct(f, positioned_in(dom, w, c));
        let neg = cc.filter(self.level_sign(-1i32));
        let pos = cc.filter(self.level_sign(1i32));
        let zc = cc.filter(self.level_sign(0i32));
        lemma_filter_distinct(cc, self.level_sign(-1i32));
        lemma_filter_distinct(cc, self.level_sign(1i32));
        lemma_filter_distinct(cc, self.level_sign(0i32));
        assert forall|v: NodeId| #[trigger] zc.contains(v) implies !pp.contains(v) by {
            StackingContexts::lemma_filter_member(cc, self.level_sign(0i32), v);
            StackingContexts::lemma_filter_member(f, child_context_of(dom, w, c), v);
            StackingContexts::lemma_filter_member(f, positioned_in(dom, w, c), v);
        }
        lemma_concat_distinct(zc, pp);
        lemma_key_order_total(
            |v: NodeId| self.metas()[v@].level as int,
            |v: NodeId| self.metas()[v@].source_order as int,
        );
        lemma_key_order_total(|v: NodeId| self.orders()[v@] as int, |v: NodeId| 0int);
        lemma_sort_distinct(neg, self.context_leq());
        lemma_sort_distinct(pos, self.context_leq());
        lemma_sort_distinct(zc + pp, self.zero_leq());
        assert forall|v: NodeId| #[trigger] cc.contains(v) <==> (self.item_of(dom, f, w, c, v)
            && self.metas().contains_key(v@)) by {
            StackingContexts::lemma_filter_member(f, child_context_of(dom, w, c), v);
            if f.contains(v) {
                self.lemma_walked(dom, bx, w, v);
            }
        }
        assert forall|v: NodeId| #[trigger] pp.contains(v) <==> (self.item_of(dom, f, w, c, v)
            && !self.metas().contains_key(v@)) by {
            StackingContexts::lemma_filter_member(f, positioned_in(dom, w, c), v);
            if f.contains(v) {
                self.lemma_walked(dom, bx, w, v);
            }
        }
        assert forall|v: NodeId| #[trigger] self.negative(c).contains(v) <==> (self.item_of(
            dom,
            f,
            w,
            c,
            v,
        ) && self.metas().contains_key(v@) && self.metas()[v@].level < 0) by {
            StackingContexts::lemma_filter_member(cc, self.level_sign(-1i32), v);
        }
        assert forall|v: NodeId| #[trigger] self.positive(c).contains(v) <==> (self.item_of(
            dom,
            f,
            w,
            c,
            v,
        ) && self.metas().contains_key(v@) && self.metas()[v@].level > 0) by {
            StackingContexts::lemma_filter_member(cc, self.level_sign(1i32), v);
        }
        assert forall|v: NodeId| #[trigger] self.zero_items(c).contains(v) <==> (self.item_of(
            dom,
            f,
            w,
            c,
            v,
        ) && (!self.metas().contains_key(v@) || self.metas()[v@].level == 0)) by {
            broadcast use vstd::seq_lib::lemma_seq_concat_contains_all_elements;

            StackingContexts::lemma_filter_member(cc, self.level_sign(0i32), v);
            if self.item_of(dom, f, w, c, v) {
                self.lemma_walked(dom, bx, w, v);
            }
        }
    }
}

impl StackingContexts {
    /// What paints with an item of a context is not in its normal flow.
    proof fn lemma_group_not_normal(&self, dom: Dom, bx: Set<u64>, w: NodeId, c: NodeId, v: NodeId, x: NodeId)
        requires
            dom.wf(),
            dom.contains_node(w),
            self.records(dom, w, boxed_preorder(dom, bx, w, 0)),
            self.item_of(dom, boxed_preorder(dom, bx, w, 0), w, c, v),
            self.in_group(dom, boxed_preorder(dom, bx, w, 0), v, x),
        ensures
            !self.normal_of(dom, c, x),
    {
        if self.normal_of(dom, c, x) {
            self.lemma_walked(dom, bx, w, v);
            self.lemma_group_below(dom, bx, w, v, x);
            lemma_context_of(dom, bx, w, v);
            self.lemma_normal_path(dom, c, x, v);
        }
    }

    /// A list of child contexts paints the walked subtree of each, once.
    proof fn lemma_list_exact(&self, dom: Dom, bx: Set<u64>, w: NodeId, c: NodeId, list: Seq<NodeId>, i: int)
        requires
            dom.wf(),
            dom.contains_node(w),
            self.records(dom, w, boxed_preorder(dom, bx, w, 0)),
            list.no_duplicates(),
            forall|v: NodeId| #[trigger]
                list.contains(v) ==> self.item_of(dom, boxed_preorder(dom, bx, w, 0), w, c, v)
                    && self.metas().contains_key(v@),
            0 <= i,
        ensures
            self.paint_list(dom, c, list, i).no_duplicates(),
            forall|x: NodeId| #[trigger]
                self.paint_list(dom, c, list, i).contains(x) <==> exists|k: int|
                    i <= k < list.len() && self.in_group(dom, boxed_preorder(dom, bx, w, 0), #[trigger] list[k], x),
        decreases dom.depth_measure(c), 2int, list.len() - i,
    {
        broadcast use vstd::seq_lib::lemma_seq_concat_contains_all_elements;

        let f = boxed_preorder(dom, bx, w, 0);
        let s = self.paint_list(dom, c, list, i);
        if i >= list.len() {
            assert(s.len() == 0);
        } else {
            let v = list[i];
            assert(list.contains(v));
            self.lemma_walked(dom, bx, w, v);
            lemma_context_of(dom, bx, w, v);
            dom.lemma_ancestor_measure(c, v);
            dom.lemma_in_subtree_refl(v);
            let here = self.paint_seq(dom, v);
            let rest = self.paint_list(dom, c, list, i + 1);
            assert(s == here + rest);
            self.lemma_paint_exact(dom, bx, w, v);
            self.lemma_list_exact(dom, bx, w, c, list, i + 1);
            assert forall|x: NodeId| #[trigger] here.contains(x) <==> self.in_group(dom, f, v, x) by {}
            assert forall|x: NodeId| #[trigger] here.contains(x) implies !rest.contains(x) by {
                if rest.contains(x) {
                    let k = choose|k: int| i + 1 <= k < list.len() && self.in_group(dom, f, #[trigger] list[k], x);
                    assert(list.contains(list[k]));
                    self.lemma_groups_disjoint(dom, bx, w, c, v, list[k], x);
                }
            }
            lemma_concat_distinct(here, rest);
            assert forall|x: NodeId| #[trigger] s.contains(x) <==> exists|k: int|
                i <= k < list.len() && self.in_group(dom, f, #[trigger] list[k], x) by {
                if exists|k: int| i <= k < list.len() && self.in_group(dom, f, #[trigger] list[k], x) {
                    let k = choose|k: int| i <= k < list.len() && self.in_group(dom, f, #[trigger] list[k], x);
                    if k > i {
                        assert(rest.contains(x));
                    }
                }
            }
        }
    }

    /// The level-zero items of a context paint their groups, each once.
    proof fn lemma_zero_exact(&self, dom: Dom, bx: Set<u64>, w: NodeId, c: NodeId, list: Seq<NodeId>, i: int)
        requires
            dom.wf(),
            dom.contains_node(w),
            self.records(dom, w, boxed_preorder(dom, bx, w, 0)),
            list.no_duplicates(),
            forall|v: NodeId| #[trigger]
                list.contains(v) ==> self.item_of(dom, boxed_preorder(dom, bx, w, 0), w, c, v),
            0 <= i,
        ensures
            self.zero_seq(dom, c, list, i).no_duplicates(),
            forall|x: NodeId| #[trigger]
                self.zero_seq(dom, c, list, i).contains(x) <==> exists|k: int|
                    i <= k < list.len() && self.in_group(dom, boxed_preorder(dom, bx, w, 0), #[trigger] list[k], x),
        decreases dom.depth_measure(c), 2int, list.len() - i,
    {
        broadcast use vstd::seq_lib::lemma_seq_concat_contains_all_elements;

        let f = boxed_preorder(dom, bx, w, 0);
        let s = self.zero_seq(dom, c, list, i);
        if i >= list.len() {
            assert(s.len() == 0);
        } else {
            let v = list[i];
            assert(list.contains(v));
            self.lemma_walked(dom, bx, w, v);
            lemma_context_of(dom, bx, w, v);
            dom.lemma_ancestor_measure(c, v);
            dom.lemma_in_subtree_refl(v);
            let here = if self.metas().contains_key(v@) {
                self.paint_seq(dom, v)
            } else {
                seq![v] + self.normal_seq(dom, v, 0)
            };
            let rest = self.zero_seq(dom, c, list, i + 1);
            assert(s == here + rest);
            if self.metas().contains_key(v@) {
                self.lemma_paint_exact(dom, bx, w, v);
                assert forall|x: NodeId| #[trigger] here.contains(x) <==> self.in_group(dom, f, v, x) by {}
            } else {
                self.lemma_normal_exact(dom, v, 0);
                assert(!self.normal_seq(dom, v, 0).contains(v)) by {
                    if self.normal_seq(dom, v, 0).contains(v) {
                        self.lemma_normal_below(dom, v, v);
                    }
                }
                lemma_concat_distinct(seq![v], self.normal_seq(dom, v, 0));
                assert forall|x: NodeId| #[trigger] here.contains(x) <==> self.in_group(dom, f, v, x) by {
                    if x == v {
                        assert(seq![v][0] == v);
                        assert(seq![v].contains(v));
                    } else if self.normal_of(dom, v, x) {
                        self.lemma_normal_below(dom, v, x);
                        self.lemma_recorded_walked(dom, bx, w, x);
                        dom.lemma_in_subtree_rank(v, x);
                        let m = dom.lemma_child_on_path(v, x);
                        let j = dom.children_of(v).index_of(m);
                        assert(dom.children_of(v)[j] == m);
                    }
                    if seq![v].contains(x) {
                        assert(x == v);
                    }
                }
            }
            self.lemma_zero_exact(dom, bx, w, c, list, i + 1);
            assert forall|x: NodeId| #[trigger] here.contains(x) implies !rest.contains(x) by {
                if rest.contains(x) {
                    let k = choose|k: int| i + 1 <= k < list.len() && self.in_group(dom, f, #[trigger] list[k], x);
                    assert(list.contains(list[k]));
                    self.lemma_groups_disjoint(dom, bx, w, c, v, list[k], x);
                }
            }
            lemma_concat_distinct(here, rest);
            assert forall|x: NodeId| #[trigger] s.contains(x) <==> exists|k: int|
                i <= k < list.len() && self.in_group(dom, f, #[trigger] list[k], x) by {
                if exists|k: int| i <= k < list.len() && self.in_group(dom, f, #[trigger] list[k], x) {
                    let k = choose|k: int| i <= k < list.len() && self.in_group(dom, f, #[trigger] list[k], x);
                    if k > i {
                        assert(rest.contains(x));
                    }
                }
            }
        }
    }
}

impl StackingContexts {
    /// What a context paints: itself, then each walked box below it, once.
    proof fn lemma_paint_exact(&self, dom: Dom, bx: Set<u64>, w: NodeId, c: NodeId)
        requires
            dom.wf(),
            dom.contains_node(w),
            self.records(dom, w, boxed_preorder(dom, bx, w, 0)),
            c == w || (boxed_preorder(dom, bx, w, 0).contains(c) && creates_context(dom, c)),
        ensures
            self.paint_seq(dom, c).no_duplicates(),
            forall|x: NodeId| #[trigger]
                self.paint_seq(dom, c).contains(x) <==> (x == c || (boxed_preorder(
                    dom,
                    bx,
                    w,
                    0,
                ).contains(x) && dom.in_subtree(c, x) && x != c)),
        decreases dom.depth_measure(c), 3int, 0int,
    {
        self.lemma_item_lists(dom, bx, w, c);
        self.lemma_context_lists(dom, bx, w, c);
        self.lemma_list_exact(dom, bx, w, c, self.negative(c), 0);
        self.lemma_list_exact(dom, bx, w, c, self.positive(c), 0);
        self.lemma_zero_exact(dom, bx, w, c, self.zero_items(c), 0);
        self.lemma_normal_exact(dom, c, 0);
        self.lemma_paint_assemble(dom, bx, w, c);
    }

    /// A context paints itself and the parts of its paint order, which
    /// share nothing and together hold the walked boxes below it.
    #[verifier::spinoff_prover]
    #[verifier::rlimit(60)]
    proof fn lemma_paint_assemble(&self, dom: Dom, bx: Set<u64>, w: NodeId, c: NodeId)
        requires
            dom.wf(),
            dom.contains_node(w),
            self.records(dom, w, boxed_preorder(dom, bx, w, 0)),
            c == w || (boxed_preorder(dom, bx, w, 0).contains(c) && creates_context(dom, c)),
            dom.contains_node(c),
            self.paint_list(dom, c, self.negative(c), 0).no_duplicates(),
            self.paint_list(dom, c, self.positive(c), 0).no_duplicates(),
            self.zero_seq(dom, c, self.zero_items(c), 0).no_duplicates(),
            self.normal_seq(dom, c, 0).no_duplicates(),
            forall|v: NodeId| #[trigger]
                self.negative(c).contains(v) <==> (self.item_of(dom, boxed_preorder(dom, bx, w, 0), w, c, v)
                    && self.metas().contains_key(v@) && self.metas()[v@].level < 0),
            forall|v: NodeId| #[trigger]
                self.positive(c).contains(v) <==> (self.item_of(dom, boxed_preorder(dom, bx, w, 0), w, c, v)
                    && self.metas().contains_key(v@) && self.metas()[v@].level > 0),
            forall|v: NodeId| #[trigger]
                self.zero_items(c).contains(v) <==> (self.item_of(dom, boxed_preorder(dom, bx, w, 0), w, c, v)
                    && (!self.metas().contains_key(v@) || self.metas()[v@].level == 0)),
            forall|x: NodeId| #[trigger]
                self.paint_list(dom, c, self.negative(c), 0).contains(x) <==> exists|k: int|
                    0 <= k < self.negative(c).len() && self.in_group(
                        dom,
                        boxed_preorder(dom, bx, w, 0),
                        #[trigger] self.negative(c)[k],
                        x,
                    ),
            forall|x: NodeId| #[trigger]
                self.paint_list(dom, c, self.positive(c), 0).contains(x) <==> exists|k: int|
                    0 <= k < self.positive(c).len() && self.in_group(
                        dom,
                        boxed_preorder(dom, bx, w, 0),
                        #[trigger] self.positive(c)[k],
                        x,
                    ),
            forall|x: NodeId| #[trigger]
                self.zero_seq(dom, c, self.zero_items(c), 0).contains(x) <==> exists|k: int|
                    0 <= k < self.zero_items(c).len() && self.in_group(
                        dom,
                        boxed_preorder(dom, bx, w, 0),
                        #[trigger] self.zero_items(c)[k],
                        x,
                    ),
            forall|x: NodeId| #[trigger]
                self.normal_seq(dom, c, 0).contains(x) <==> (self.normal_of(dom, c, x) && exists|j: int|
                    0 <= j < dom.children_of(c).len() && dom.in_subtree(
                        #[trigger] dom.children_of(c)[j],
                        x,
                    )),
        ensures
            self.paint_seq(dom, c).no_duplicates(),
            forall|x: NodeId| #[trigger]
                self.paint_seq(dom, c).contains(x) <==> (x == c || (boxed_preorder(
                    dom,
                    bx,
                    w,
                    0,
                ).contains(x) && dom.in_subtree(c, x) && x != c)),
    {
        broadcast use vstd::seq_lib::lemma_seq_concat_contains_all_elements;

        let f = boxed_preorder(dom, bx, w, 0);
        let a = self.paint_list(dom, c, self.negative(c), 0);
        let b = self.normal_seq(dom, c, 0);
        let z = self.zero_seq(dom, c, self.zero_items(c), 0);
        let q = self.paint_list(dom, c, self.positive(c), 0);
        assert(self.paint_seq(dom, c) == seq![c] + a + b + z + q);
        // Everything in a part lies strictly below `c`.
        assert forall|x: NodeId| #[trigger] a.contains(x) || #[trigger] b.contains(x) || #[trigger] z.contains(x)
            || #[trigger] q.contains(x) implies f.contains(x) && dom.in_subtree(c, x) && x != c by {
            if b.contains(x) {
                self.lemma_normal_below(dom, c, x);
                self.lemma_recorded_walked(dom, bx, w, x);
                if x == w {
                    dom.lemma_in_subtree_rank(c, w);
                    dom.lemma_ancestor_measure(w, c);
                }
            } else if a.contains(x) {
                let k = choose|k: int|
                    0 <= k < self.negative(c).len() && self.in_group(dom, f, #[trigger] self.negative(c)[k], x);
                assert(self.negative(c).contains(self.negative(c)[k]));
                self.lemma_item_group_below(dom, bx, w, c, self.negative(c)[k], x);
            } else if z.contains(x) {
                let k = choose|k: int|
                    0 <= k < self.zero_items(c).len() && self.in_group(dom, f, #[trigger] self.zero_items(c)[k], x);
                assert(self.zero_items(c).contains(self.zero_items(c)[k]));
                self.lemma_item_group_below(dom, bx, w, c, self.zero_items(c)[k], x);
            } else {
                let k = choose|k: int|
                    0 <= k < self.positive(c).len() && self.in_group(dom, f, #[trigger] self.positive(c)[k], x);
                assert(self.positive(c).contains(self.positive(c)[k]));
                self.lemma_item_group_below(dom, bx, w, c, self.positive(c)[k], x);
            }
        }
        // The parts share nothing.
        assert forall|x: NodeId| #[trigger] a.contains(x) implies !b.contains(x) && !z.contains(x)
            && !q.contains(x) by {
            let k = choose|k: int|
                0 <= k < self.negative(c).len() && self.in_group(dom, f, #[trigger] self.negative(c)[k], x);
            let v = self.negative(c)[k];
            assert(self.negative(c).contains(v));
            self.lemma_group_not_normal(dom, bx, w, c, v, x);
            if z.contains(x) {
                let k2 = choose|k2: int|
                    0 <= k2 < self.zero_items(c).len() && self.in_group(dom, f, #[trigger] self.zero_items(c)[k2], x);
                assert(self.zero_items(c).contains(self.zero_items(c)[k2]));
                self.lemma_groups_disjoint(dom, bx, w, c, v, self.zero_items(c)[k2], x);
            }
            if q.contains(x) {
                let k2 = choose|k2: int|
                    0 <= k2 < self.positive(c).len() && self.in_group(dom, f, #[trigger] self.positive(c)[k2], x);
                assert(self.positive(c).contains(self.positive(c)[k2]));
                self.lemma_groups_disjoint(dom, bx, w, c, v, self.positive(c)[k2], x);
            }
        }
        assert forall|x: NodeId| #[trigger] b.contains(x) implies !z.contains(x) && !q.contains(x) by {
            if z.contains(x) {
                let k2 = choose|k2: int|
                    0 <= k2 < self.zero_items(c).len() && self.in_group(dom, f, #[trigger] self.zero_items(c)[k2], x);
                assert(self.zero_items(c).contains(self.zero_items(c)[k2]));
                self.lemma_group_not_normal(dom, bx, w, c, self.zero_items(c)[k2], x);
            }
            if q.contains(x) {
                let k2 = choose|k2: int|
                    0 <= k2 < self.positive(c).len() && self.in_group(dom, f, #[trigger] self.positive(c)[k2], x);
                assert(self.positive(c).contains(self.positive(c)[k2]));
                self.lemma_group_not_normal(dom, bx, w, c, self.positive(c)[k2], x);
            }
        }
        assert forall|x: NodeId| #[trigger] z.contains(x) implies !q.contains(x) by {
            if q.contains(x) {
                let k = choose|k: int|
                    0 <= k < self.zero_items(c).len() && self.in_group(dom, f, #[trigger] self.zero_items(c)[k], x);
                assert(self.zero_items(c).contains(self.zero_items(c)[k]));
                let k2 = choose|k2: int|
                    0 <= k2 < self.positive(c).len() && self.in_group(dom, f, #[trigger] self.positive(c)[k2], x);
                assert(self.positive(c).contains(self.positive(c)[k2]));
                self.lemma_groups_disjoint(dom, bx, w, c, self.zero_items(c)[k], self.positive(c)[k2], x);
            }
        }
        assert forall|x: NodeId| #[trigger] seq![c].contains(x) implies x == c by {}
        lemma_concat_distinct(seq![c], a);
        assert forall|x: NodeId| #[trigger] (seq![c] + a).contains(x) implies !b.contains(x) by {}
        lemma_concat_distinct(seq![c] + a, b);
        assert forall|x: NodeId| #[trigger] (seq![c] + a + b).contains(x) implies !z.contains(x) by {
            assert((seq![c] + a).contains(x) || b.contains(x));
        }
        lemma_concat_distinct(seq![c] + a + b, z);
        assert forall|x: NodeId| #[trigger] (seq![c] + a + b + z).contains(x) implies !q.contains(x) by {
            assert((seq![c] + a + b).contains(x) || z.contains(x));
            if (seq![c] + a + b).contains(x) {
                assert((seq![c] + a).contains(x) || b.contains(x));
            }
        }
        lemma_concat_distinct(seq![c] + a + b + z, q);
        // Every walked box below `c` lies in a part.
        assert forall|x: NodeId| #[trigger] self.paint_seq(dom, c).contains(x) <== (x == c || (f.contains(x)
            && dom.in_subtree(c, x) && x != c)) by {
            if x == c {
                assert(seq![c][0] == c);
                assert(seq![c].contains(c));
            } else if f.contains(x) && dom.in_subtree(c, x) {
                self.lemma_cover(dom, bx, w, c, x);
                if self.normal_of(dom, c, x) {
                    self.lemma_walked(dom, bx, w, x);
                    let m = dom.lemma_child_on_path(c, x);
                    let j = dom.children_of(c).index_of(m);
                    assert(dom.children_of(c)[j] == m);
                    assert(b.contains(x));
                } else {
                    let v = choose|v: NodeId| self.item_of(dom, f, w, c, v) && #[trigger] self.in_group(dom, f, v, x);
                    if self.metas().contains_key(v@) && self.metas()[v@].level < 0 {
                        assert(self.negative(c).contains(v));
                        let k = self.negative(c).index_of(v);
                        assert(self.negative(c)[k] == v);
                        assert(a.contains(x));
                    } else if self.metas().contains_key(v@) && self.metas()[v@].level > 0 {
                        assert(self.positive(c).contains(v));
                        let k = self.positive(c).index_of(v);
                        assert(self.positive(c)[k] == v);
                        assert(q.contains(x));
                    } else {
                        assert(self.zero_items(c).contains(v));
                        let k = self.zero_items(c).index_of(v);
                        assert(self.zero_items(c)[k] == v);
                        assert(z.contains(x));
                    }
                }
            }
        }
    }

    /// What paints with an item of a context lies strictly below it.
    proof fn lemma_item_group_below(&self, dom: Dom, bx: Set<u64>, w: NodeId, c: NodeId, v: NodeId, x: NodeId)
        requires
            dom.wf(),
            dom.contains_node(w),
            self.records(dom, w, boxed_preorder(dom, bx, w, 0)),
            self.item_of(dom, boxed_preorder(dom, bx, w, 0), w, c, v),
            self.in_group(dom, boxed_preorder(dom, bx, w, 0), v, x),
        ensures
            boxed_preorder(dom, bx, w, 0).contains(x),
            dom.in_subtree(c, x),
            x != c,
    {
        self.lemma_group_below(dom, bx, w, v, x);
        lemma_context_of(dom, bx, w, v);
        self.lemma_walked(dom, bx, w, x);
        self.lemma_walked(dom, bx, w, v);
        dom.lemma_in_subtree_chain(c, v, x);
        if x == c {
            dom.lemma_ancestor_measure(c, v);
            dom.lemma_in_subtree_rank(v, c);
        }
    }
}

/// Every box paints exactly once: the paint order holds the Window and each
/// box below it that layout walked, and none of them twice.
pub proof fn lemma_paint_order_exact(s: &StackingContexts, dom: Dom, window: Option<NodeId>, bx: Set<u64>)
    requires
        dom.wf(),
        s.built_from(dom, window, bx),
    ensures
        s.paint_order_spec(dom).no_duplicates(),
        forall|x: NodeId| #[trigger]
            s.paint_order_spec(dom).contains(x) <==> (window == Some(x) || (window is Some && walk(
                dom,
                bx,
                window->0,
            ).contains(x))),
{
    match window {
        None => {
            assert(s.paint_order_spec(dom).len() == 0);
        },
        Some(w) => {
            assert(s.root_spec() == Some(w));
            if dom.contains_node(w) {
                let f = boxed_preorder(dom, bx, w, 0);
                lemma_preorder(dom, bx, w, 0);
                s.lemma_paint_exact(dom, bx, w, w);
            } else {
                let e = Seq::<NodeId>::empty();
                assert(walk(dom, bx, w) == e);
                assert(s.context_children()[w@] == e.filter(child_context_of(dom, w, w)));
                assert(e.filter(child_context_of(dom, w, w)) =~= e) by {
                    reveal(Seq::filter);
                }
                assert(e.filter(positioned_in(dom, w, w)) =~= e) by {
                    reveal(Seq::filter);
                }
                assert(e.filter(s.level_sign(-1i32)) =~= e) by {
                    reveal(Seq::filter);
                }
                assert(e.filter(s.level_sign(1i32)) =~= e) by {
                    reveal(Seq::filter);
                }
                assert(e.filter(s.level_sign(0i32)) =~= e) by {
                    reveal(Seq::filter);
                }
                assert(e.sort_by(s.context_leq()) =~= e) by {
                    broadcast use vstd::seq_lib::group_to_multiset_ensures;

                    lemma_key_order_total(
                        |v: NodeId| s.metas()[v@].level as int,
                        |v: NodeId| s.metas()[v@].source_order as int,
                    );
                    e.lemma_sort_by_ensures(s.context_leq());
                    assert(e.to_multiset().len() == 0);
                }
                assert(e.sort_by(s.zero_leq()) =~= e) by {
                    broadcast use vstd::seq_lib::group_to_multiset_ensures;

                    lemma_key_order_total(|v: NodeId| s.orders()[v@] as int, |v: NodeId| 0int);
                    e.lemma_sort_by_ensures(s.zero_leq());
                    assert(e.to_multiset().len() == 0);
                }
                assert(e + e =~= e);
                assert(s.negative(w) =~= e);
                assert(s.positive(w) =~= e);
                assert(s.zero_items(w) =~= e);
                assert(s.normal_seq(dom, w, 0) =~= e);
                assert(s.paint_seq(dom, w) =~= seq![w]);
                assert(seq![w][0] == w);
                assert forall|x: NodeId| #[trigger] seq![w].contains(x) <==> x == w by {
                    if x == w {
                        assert(seq![w][0] == x);
                    }
                }
            }
        },
    }
}

} // verus!
