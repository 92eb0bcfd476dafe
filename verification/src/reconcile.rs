//! Lowering a committed document into a layout topology.
//!
//! The Window below the App root becomes the root box. Below it, every
//! Div, Flex and Grid element becomes a container box and every outer Text
//! element becomes a paragraph box that absorbs the raw text and nested
//! Text elements below it. A box hangs below its effective parent: the
//! box of its DOM parent for static and relative positioning, the nearest
//! positioned container (or the Window) for absolute positioning, and the
//! Window for fixed positioning.

use std::collections::{HashMap, HashSet};
use vstd::prelude::*;

use crate::bridge::{collect_text, text_content_spec};
use crate::dom::{is_text_element, Dom, ElementTag, NodeKind, NodeKindView, Position};
use crate::node_id::NodeId;
use crate::keys::keys_of;
use crate::topology::{LayoutError, LayoutId, LayoutTopology, PositioningMeta};

verus! {

broadcast use vstd::std_specs::hash::group_hash_axioms;

/// A Div, Flex or Grid element.
pub open spec fn is_container_kind(k: NodeKindView) -> bool {
    match k {
        NodeKindView::Element(ElementTag::Div, _) => true,
        NodeKindView::Element(ElementTag::Flex, _) => true,
        NodeKindView::Element(ElementTag::Grid, _) => true,
        _ => false,
    }
}

/// What a paragraph may hold: raw text and nested Text elements.
pub open spec fn is_paragraph_member(k: NodeKindView) -> bool {
    k is Text || is_text_element(k)
}

/// The CSS position of a node; static for anything but an element.
pub open spec fn position_spec(k: NodeKindView) -> Position {
    match k {
        NodeKindView::Element(_, style) => style.position,
        _ => Position::Static,
    }
}

/// The first reason, in document order, why the paragraph `p` cannot hold
/// the children of `n` from index `i` on (and what lies below them).
pub open spec fn paragraph_error(dom: Dom, p: NodeId, n: NodeId, i: int) -> Option<LayoutError>
    decreases dom.depth_measure(n), dom.children_of(n).len() - i,
{
    if i < 0 || i >= dom.children_of(n).len() {
        None
    } else {
        let c = dom.children_of(n)[i];
        let here = match dom.kind_of(c) {
            NodeKindView::Text(_) => None,
            NodeKindView::Element(ElementTag::Text, _) => if dom.depth_measure(c) < dom.depth_measure(
                n,
            ) {
                paragraph_error(dom, p, c, 0)
            } else {
                None
            },
            _ => Some(LayoutError::InvalidParagraphChild { paragraph: p, child: c }),
        };
        if here is Some {
            here
        } else {
            paragraph_error(dom, p, n, i + 1)
        }
    }
}

/// The first reason, in document order, why the children of the container
/// `n`, at container depth `depth`, cannot be lowered from index `i` on.
pub open spec fn container_error(dom: Dom, n: NodeId, i: int, depth: usize, limit: usize) -> Option<
    LayoutError,
>
    decreases dom.depth_measure(n), dom.children_of(n).len() - i,
{
    if i < 0 || i >= dom.children_of(n).len() {
        None
    } else {
        let c = dom.children_of(n)[i];
        let here = match dom.kind_of(c) {
            NodeKindView::App => Some(LayoutError::InvalidAppRoot),
            NodeKindView::Text(_) => Some(LayoutError::RawTextOutsideParagraph(c)),
            NodeKindView::Element(ElementTag::Window, _) => Some(LayoutError::UnexpectedWindow(c)),
            NodeKindView::Element(ElementTag::Text, _) => if dom.depth_measure(c) < dom.depth_measure(
                n,
            ) {
                paragraph_error(dom, c, c, 0)
            } else {
                None
            },
            NodeKindView::Element(_, _) => if depth + 1 > limit {
                Some(LayoutError::TreeTooDeep { depth: (depth + 1) as usize, limit })
            } else if dom.depth_measure(c) < dom.depth_measure(n) {
                container_error(dom, c, 0, (depth + 1) as usize, limit)
            } else {
                None
            },
        };
        if here is Some {
            here
        } else {
            container_error(dom, n, i + 1, depth, limit)
        }
    }
}

/// Why the document cannot be lowered with containers nested at most
/// `limit` deep (the Window counting as depth one), if it cannot.
pub open spec fn reconcile_error(dom: Dom, limit: usize) -> Option<LayoutError> {
    let app = dom.root_id();
    let kids = dom.children_of(app);
    if kids.len() > 1 {
        Some(LayoutError::InvalidAppChildren { count: kids.len() as usize })
    } else if kids.len() == 0 {
        None
    } else {
        let w = kids[0];
        match dom.kind_of(w) {
            NodeKindView::Element(ElementTag::Window, _) => container_error(dom, w, 0, 1, limit),
            _ => Some(LayoutError::ExpectedWindow(w)),
        }
    }
}

/// Appends to `members`, in document order, the paragraph members below
/// `n`, which is `p` or one of its members.
fn collect_members(dom: &Dom, p: NodeId, n: NodeId, members: &mut Vec<NodeId>) -> (r: Result<
    (),
    LayoutError,
>)
    requires
        dom.wf(),
        dom.contains_node(n),
    ensures
        match r {
            Ok(()) => paragraph_error(*dom, p, n, 0) is None,
            Err(e) => paragraph_error(*dom, p, n, 0) == Some(e),
        },
        final(members)@.len() >= old(members)@.len(),
        final(members)@.subrange(0, old(members)@.len() as int) == old(members)@,
        r is Ok ==> {
            let added = final(members)@.subrange(old(members)@.len() as int, final(members)@.len() as int);
            &&& forall|x: NodeId| #[trigger]
                added.contains(x) ==> {
                    &&& dom.contains_node(x)
                    &&& is_paragraph_member(dom.kind_of(x))
                    &&& dom.parent_of(x) is Some
                    &&& (dom.parent_of(x)->0 == n || added.contains(dom.parent_of(x)->0))
                }
            &&& forall|i: int|
                0 <= i < dom.children_of(n).len() ==> added.contains(#[trigger] dom.children_of(n)[i])
            &&& forall|x: NodeId, i: int|
                #![trigger added.contains(x), dom.children_of(x)[i]]
                added.contains(x) && 0 <= i < dom.children_of(x).len() ==> added.contains(
                    dom.children_of(x)[i],
                )
        },
    decreases dom.depth_measure(n),
{
    let ghost start = old(members)@.len() as int;
    let children = dom.children(n).unwrap();
    proof {
        dom.lemma_node(n);
    }
    let mut i: usize = 0;
    while i < children.len()
        invariant
            dom.wf(),
            dom.contains_node(n),
            children@ == dom.children_of(n),
            0 <= i <= children.len(),
            members@.len() >= start,
            start == old(members)@.len(),
            members@.subrange(0, start) == old(members)@,
            paragraph_error(*dom, p, n, 0) == paragraph_error(*dom, p, n, i as int),
            forall|k: int|
                0 <= k < children@.len() ==> {
                    &&& dom.contains_node(#[trigger] children@[k])
                    &&& dom.parent_of(children@[k]) == Some(n)
                },
            ({
                let added = members@.subrange(start, members@.len() as int);
                &&& forall|x: NodeId| #[trigger]
                    added.contains(x) ==> {
                        &&& dom.contains_node(x)
                        &&& is_paragraph_member(dom.kind_of(x))
                        &&& dom.parent_of(x) is Some
                        &&& (dom.parent_of(x)->0 == n || added.contains(dom.parent_of(x)->0))
                    }
                &&& forall|k: int| 0 <= k < i ==> added.contains(#[trigger] children@[k])
                &&& forall|x: NodeId, k: int|
                    #![trigger added.contains(x), dom.children_of(x)[k]]
                    added.contains(x) && 0 <= k < dom.children_of(x).len() ==> added.contains(
                        dom.children_of(x)[k],
                    )
            }),
        decreases children.len() - i,
    {
        let c = children[i];
        proof {
            dom.lemma_child_measure(n, i as int);
            dom.lemma_node(c);
        }
        let ghost before = members@;
        match dom.kind(c).unwrap() {
            NodeKind::Text(_) => {
                members.push(c);
                proof {
                    let added0 = before.subrange(start, before.len() as int);
                    let added = members@.subrange(start, members@.len() as int);
                    assert(added =~= added0.push(c));
                    assert forall|x: NodeId| added.contains(x) implies added0.contains(x) || x == c by {
                        let q = added.index_of(x);
                        if q < added0.len() {
                            assert(added0[q] == x);
                        }
                    }
                    assert forall|x: NodeId| added0.contains(x) implies added.contains(x) by {
                        let q = added0.index_of(x);
                        assert(added[q] == x);
                    }
                    assert(added[added0.len() as int] == c);
                    assert(members@.subrange(0, start) =~= before.subrange(0, start));
                }
            },
            NodeKind::Element(ElementTag::Text, _) => {
                members.push(c);
                let ghost mid = members@;
                let sub = collect_members(dom, p, c, members);
                match sub {
                    Err(e) => {
                        return Err(e);
                    },
                    Ok(()) => {},
                }
                proof {
                    let added0 = before.subrange(start, before.len() as int);
                    let added1 = mid.subrange(start, mid.len() as int);
                    let inner = members@.subrange(mid.len() as int, members@.len() as int);
                    let added = members@.subrange(start, members@.len() as int);
                    assert(added1 =~= added0.push(c));
                    assert(added =~= added1 + inner);
                    assert forall|x: NodeId| added.contains(x) implies added0.contains(x) || x == c
                        || inner.contains(x) by {
                        let q = added.index_of(x);
                        if q < added0.len() {
                            assert(added0[q] == x);
                        } else if q > added0.len() {
                            assert(inner[q - added1.len()] == x);
                        }
                    }
                    assert forall|x: NodeId| added0.contains(x) implies added.contains(x) by {
                        let q = added0.index_of(x);
                        assert(added[q] == x);
                    }
                    assert forall|x: NodeId| inner.contains(x) implies added.contains(x) by {
                        let q = inner.index_of(x);
                        assert(added[added1.len() + q] == x);
                    }
                    assert(added[added0.len() as int] == c);
                    assert(members@.subrange(0, start) =~= mid.subrange(0, start));
                    assert(mid.subrange(0, start) =~= before.subrange(0, start));
                }
            },
            NodeKind::Element(_, _) => {
                return Err(LayoutError::InvalidParagraphChild { paragraph: p, child: c });
            },
            NodeKind::App => {
                return Err(LayoutError::InvalidParagraphChild { paragraph: p, child: c });
            },
        }
        i += 1;
    }
    Ok(())
}

/// `n` generates a box: it is the Window `w`, or a container or Text
/// element whose parent is `w` or a container that generates a box.
pub open spec fn lays_out(dom: Dom, w: NodeId, n: NodeId) -> bool
    decreases dom.rank_of(n),
{
    if n == w {
        true
    } else if dom.contains_node(n) && dom.parent_of(n) is Some && (is_container_kind(dom.kind_of(n))
        || is_text_element(dom.kind_of(n))) {
        let p = dom.parent_of(n)->0;
        if dom.rank_of(p) < dom.rank_of(n) {
            if p == w || is_container_kind(dom.kind_of(p)) {
                lays_out(dom, w, p)
            } else {
                false
            }
        } else {
            false
        }
    } else {
        false
    }
}

/// The nearest of `c` and its ancestors that is the Window or a positioned
/// (non-static) element.
pub open spec fn nearest_positioned(dom: Dom, w: NodeId, c: NodeId) -> NodeId
    decreases dom.rank_of(c),
{
    if c == w || position_spec(dom.kind_of(c)) != Position::Static {
        c
    } else {
        match dom.parent_of(c) {
            Some(p) => if dom.rank_of(p) < dom.rank_of(c) {
                nearest_positioned(dom, w, p)
            } else {
                c
            },
            None => c,
        }
    }
}

/// The DOM node whose box is the effective parent of the box of `n`.
pub open spec fn effective_parent(dom: Dom, w: NodeId, n: NodeId) -> NodeId {
    let p = dom.parent_of(n)->0;
    match position_spec(dom.kind_of(n)) {
        Position::Static => p,
        Position::Relative => p,
        Position::Absolute => nearest_positioned(dom, w, p),
        Position::Fixed => w,
    }
}

/// The paragraph that owns `m`: the outer Text element that generates a
/// box and holds `m` or is `m`.
pub open spec fn paragraph_of(dom: Dom, w: NodeId, m: NodeId) -> Option<NodeId>
    decreases dom.rank_of(m),
{
    if !dom.contains_node(m) || !is_paragraph_member(dom.kind_of(m)) {
        None
    } else if is_text_element(dom.kind_of(m)) && lays_out(dom, w, m) {
        Some(m)
    } else {
        match dom.parent_of(m) {
            Some(p) => if dom.rank_of(p) < dom.rank_of(m) {
                paragraph_of(dom, w, p)
            } else {
                None
            },
            None => None,
        }
    }
}

/// The nodes that generate boxes below the box-generating container `n`,
/// from its child `i` on, in document order: each container followed by
/// what lies below it, and each outer Text element.
pub open spec fn box_order(dom: Dom, n: NodeId, i: int) -> Seq<NodeId>
    decreases dom.depth_measure(n), dom.children_of(n).len() - i,
{
    if i < 0 || i >= dom.children_of(n).len() {
        Seq::empty()
    } else {
        let c = dom.children_of(n)[i];
        let here = if is_container_kind(dom.kind_of(c)) && dom.depth_measure(c) < dom.depth_measure(n) {
            seq![c] + box_order(dom, c, 0)
        } else if is_text_element(dom.kind_of(c)) {
            seq![c]
        } else {
            Seq::empty()
        };
        here + box_order(dom, n, i + 1)
    }
}

/// The box-generating nodes whose box hangs below the box of `p`.
pub open spec fn hangs_below(dom: Dom, w: NodeId, p: NodeId) -> spec_fn(NodeId) -> bool {
    |x: NodeId| effective_parent(dom, w, x) == p
}

/// The layout identities of a run of box-generating nodes.
pub open spec fn layout_ids(s: Seq<NodeId>) -> Seq<LayoutId> {
    s.map_values(|x: NodeId| LayoutId { raw: x@ })
}

/// The children that the box of `p` has after lowering: the boxes that hang
/// below it, in document order.
pub open spec fn kids_in_order(dom: Dom, w: NodeId, p: NodeId) -> Seq<LayoutId> {
    layout_ids(box_order(dom, w, 0).filter(hangs_below(dom, w, p)))
}

/// Identities of a concatenation are the concatenated identities.
proof fn lemma_ids_add(a: Seq<NodeId>, b: Seq<NodeId>)
    ensures
        layout_ids(a + b) == layout_ids(a) + layout_ids(b),
{
    assert(layout_ids(a + b) =~= layout_ids(a) + layout_ids(b));
}

/// A box-generating node lies strictly below its effective parent.
proof fn lemma_effective_above(dom: Dom, w: NodeId, x: NodeId)
    requires
        dom.wf(),
        dom.contains_node(w),
        lays_out(dom, w, x),
        x != w,
    ensures
        dom.in_subtree(effective_parent(dom, w, x), x),
        effective_parent(dom, w, x) != x,
        dom.contains_node(effective_parent(dom, w, x)),
{
    let p = dom.parent_of(x)->0;
    dom.lemma_parent_rank(x);
    dom.lemma_in_subtree_refl(p);
    dom.lemma_in_subtree_step(p, x);
    lemma_lays_out_below(dom, w, x);
    let e = effective_parent(dom, w, x);
    if position_spec(dom.kind_of(x)) == Position::Absolute {
        lemma_nearest_above(dom, w, p);
        dom.lemma_in_subtree_chain(e, p, x);
    }
    dom.lemma_in_subtree_rank(e, x);
    if e == x {
        dom.lemma_in_subtree_rank(x, p);
    }
}

/// A node that generates a box lies below the Window.
proof fn lemma_lays_out_below(dom: Dom, w: NodeId, x: NodeId)
    requires
        dom.wf(),
        dom.contains_node(w),
        lays_out(dom, w, x),
    ensures
        dom.in_subtree(w, x),
    decreases dom.rank_of(x),
{
    if x == w {
        dom.lemma_in_subtree_refl(w);
    } else {
        let p = dom.parent_of(x)->0;
        dom.lemma_parent_rank(x);
        lemma_lays_out_below(dom, w, p);
        dom.lemma_in_subtree_step(w, x);
    }
}

/// The nearest positioned node of `c` is `c` or one of its ancestors.
proof fn lemma_nearest_above(dom: Dom, w: NodeId, c: NodeId)
    requires
        dom.wf(),
        dom.contains_node(c),
    ensures
        dom.in_subtree(nearest_positioned(dom, w, c), c),
    decreases dom.rank_of(c),
{
    dom.lemma_in_subtree_refl(c);
    if c != w && position_spec(dom.kind_of(c)) != Position::Static {
    } else if c != w {
        match dom.parent_of(c) {
            Some(p) => {
                dom.lemma_parent_rank(c);
                lemma_nearest_above(dom, w, p);
                dom.lemma_in_subtree_step(nearest_positioned(dom, w, p), c);
            },
            None => {},
        }
    }
}

/// What `box_order` holds: box-generating nodes below the children of `n`
/// from `i` on.
proof fn lemma_box_order_below(dom: Dom, w: NodeId, n: NodeId, i: int, x: NodeId)
    requires
        dom.wf(),
        dom.contains_node(w),
        dom.contains_node(n),
        lays_out(dom, w, n),
        n == w || is_container_kind(dom.kind_of(n)),
        box_order(dom, n, i).contains(x),
    ensures
        dom.contains_node(x),
        lays_out(dom, w, x),
        x != w,
        exists|j: int| i <= j < dom.children_of(n).len() && dom.in_subtree(#[trigger] dom.children_of(n)[j], x),
    decreases dom.depth_measure(n), dom.children_of(n).len() - i,
{
    broadcast use vstd::seq_lib::lemma_seq_concat_contains_all_elements;

    let kids = dom.children_of(n);
    if 0 <= i < kids.len() {
        let c = kids[i];
        dom.lemma_node(n);
        dom.lemma_child_measure(n, i);
        dom.lemma_parent_rank(c);
        lemma_lays_out_below(dom, w, n);
        let here = if is_container_kind(dom.kind_of(c)) && dom.depth_measure(c) < dom.depth_measure(n) {
            seq![c] + box_order(dom, c, 0)
        } else if is_text_element(dom.kind_of(c)) {
            seq![c]
        } else {
            Seq::empty()
        };
        assert(box_order(dom, n, i) == here + box_order(dom, n, i + 1));
        if here.contains(x) {
            assert(lays_out(dom, w, c));
            dom.lemma_in_subtree_refl(c);
            if x == c {
                assert(dom.in_subtree(kids[i], x));
                if c == w {
                    dom.lemma_in_subtree_rank(w, n);
                }
            } else {
                assert(box_order(dom, c, 0).contains(x));
                lemma_box_order_below(dom, w, c, 0, x);
                let j = choose|j: int| 0 <= j < dom.children_of(c).len() && dom.in_subtree(#[trigger] dom.children_of(c)[j], x);
                dom.lemma_node(c);
                dom.lemma_in_subtree_refl(c);
                dom.lemma_in_subtree_step(c, dom.children_of(c)[j]);
                dom.lemma_in_subtree_chain(c, dom.children_of(c)[j], x);
                assert(dom.in_subtree(kids[i], x));
            }
        } else {
            lemma_box_order_below(dom, w, n, i + 1, x);
        }
    }
}

/// Appending the runs `p` and then `here` to the children of each box.
proof fn lemma_kids_compose(
    dom: Dom,
    w: NodeId,
    start: ScratchLayout,
    before: ScratchLayout,
    after: ScratchLayout,
    p: Seq<NodeId>,
    here: Seq<NodeId>,
)
    requires
        before.inv(dom, w),
        after.inv(dom, w),
        extends(before, after),
        start.boxes().subset_of(before.boxes()),
        forall|b: u64| #[trigger]
            before.boxes().contains(b) ==> before.topology.kids()[b] == base_kids(start, b) + layout_ids(
                p.filter(hangs_below(dom, w, before.topology.l2d()[b])),
            ),
        forall|b: u64| #[trigger]
            after.boxes().contains(b) ==> after.topology.kids()[b] == base_kids(before, b) + layout_ids(
                here.filter(hangs_below(dom, w, after.topology.l2d()[b])),
            ),
        forall|b: u64| #[trigger]
            after.boxes().contains(b) && !before.boxes().contains(b) ==> p.filter(
                hangs_below(dom, w, after.topology.l2d()[b]),
            ) == Seq::<NodeId>::empty(),
    ensures
        forall|b: u64| #[trigger]
            after.boxes().contains(b) ==> after.topology.kids()[b] == base_kids(start, b) + layout_ids(
                (p + here).filter(hangs_below(dom, w, after.topology.l2d()[b])),
            ),
{
    broadcast use Seq::filter_distributes_over_add;

    assert forall|b: u64| #[trigger] after.boxes().contains(b) implies after.topology.kids()[b] == base_kids(
        start,
        b,
    ) + layout_ids((p + here).filter(hangs_below(dom, w, after.topology.l2d()[b]))) by {
        let h = hangs_below(dom, w, after.topology.l2d()[b]);
        assert((p + here).filter(h) == p.filter(h) + here.filter(h));
        lemma_ids_add(p.filter(h), here.filter(h));
        if before.boxes().contains(b) {
            assert(before.topology.l2d().contains_key(b));
            assert(after.topology.l2d()[b] == before.topology.l2d()[b]);
        } else {
            assert(!start.boxes().contains(b));
            assert(layout_ids(Seq::<NodeId>::empty()) =~= Seq::<LayoutId>::empty());
            assert(p.filter(h) + here.filter(h) =~= here.filter(h));
        }
    }
}

/// A run in which nothing hangs below `t` contributes no children to it.
proof fn lemma_none_hangs(dom: Dom, w: NodeId, run: Seq<NodeId>, t: NodeId)
    requires
        forall|x: NodeId| #[trigger] run.contains(x) ==> effective_parent(dom, w, x) != t,
    ensures
        run.filter(hangs_below(dom, w, t)) == Seq::<NodeId>::empty(),
{
    assert forall|i: int| 0 <= i < run.len() implies !hangs_below(dom, w, t)(#[trigger] run[i]) by {
        assert(run.contains(run[i]));
    }
    run.lemma_all_neg_filter_empty(hangs_below(dom, w, t));
    assert(run.filter(hangs_below(dom, w, t)) =~= Seq::<NodeId>::empty());
}

/// Adding the box of `c` below its effective parent `lp` appends `c` to the
/// children of `lp` and gives `c` none.
proof fn lemma_insert_kids(a: ScratchLayout, b: ScratchLayout, dom: Dom, w: NodeId, c: NodeId, lp: LayoutId)
    requires
        dom.wf(),
        dom.contains_node(w),
        a.inv(dom, w),
        b.inv(dom, w),
        extends(a, b),
        !a.boxes().contains(c@),
        b.boxes() == a.boxes().insert(c@),
        b.topology.kids() == a.topology.kids().insert(c@, Seq::<LayoutId>::empty()).insert(
            lp@,
            a.topology.kids().insert(c@, Seq::<LayoutId>::empty())[lp@].push(LayoutId { raw: c@ }),
        ),
        b.topology.l2d() == a.topology.l2d().insert(c@, c),
        lp@ == effective_parent(dom, w, c)@,
        a.boxes().contains(lp@),
        lays_out(dom, w, c),
        c != w,
    ensures
        forall|x: u64| #[trigger]
            b.boxes().contains(x) ==> b.topology.kids()[x] == base_kids(a, x) + layout_ids(
                seq![c].filter(hangs_below(dom, w, b.topology.l2d()[x])),
            ),
{
    lemma_effective_above(dom, w, c);
    let e = effective_parent(dom, w, c);
    assert forall|x: u64| #[trigger] b.boxes().contains(x) implies b.topology.kids()[x] == base_kids(a, x)
        + layout_ids(seq![c].filter(hangs_below(dom, w, b.topology.l2d()[x]))) by {
        let t = b.topology.l2d()[x];
        let h = hangs_below(dom, w, t);
        assert(seq![c].filter(h) == if h(c) {
            seq![c]
        } else {
            Seq::<NodeId>::empty()
        }) by {
            reveal_with_fuel(Seq::filter, 2);
            assert(seq![c].drop_last() =~= Seq::<NodeId>::empty());
            assert(seq![c].last() == c);
            assert(Seq::<NodeId>::empty().push(c) =~= seq![c]);
        }
        assert(b.box_ok(dom, w, x));
        if x == c@ {
            assert(t == c);
            assert(layout_ids(Seq::<NodeId>::empty()) =~= Seq::<LayoutId>::empty());
            assert(b.topology.kids()[x] =~= Seq::<LayoutId>::empty());
        } else {
            assert(a.box_ok(dom, w, x));
            assert(a.topology.l2d().contains_key(x));
            assert(t == a.topology.l2d()[x]);
            if x == lp@ {
                NodeId::lemma_view_injective(t, e);
                assert(layout_ids(seq![c]) =~= seq![LayoutId { raw: c@ }]);
                assert(b.topology.kids()[x] =~= a.topology.kids()[x] + seq![LayoutId { raw: c@ }]);
            } else {
                assert(t@ != e@);
                assert(layout_ids(Seq::<NodeId>::empty()) =~= Seq::<LayoutId>::empty());
                assert(b.topology.kids()[x] =~= a.topology.kids()[x]);
            }
        }
    }
}

/// Nothing walked below earlier siblings of `c` hangs below `c`.
proof fn lemma_earlier_not_below(dom: Dom, w: NodeId, n: NodeId, kids: Seq<NodeId>, i: int, pre: Seq<NodeId>, c: NodeId)
    requires
        dom.wf(),
        dom.contains_node(w),
        kids == dom.children_of(n),
        kids.no_duplicates(),
        0 <= i < kids.len(),
        c == kids[i],
        forall|k: int| 0 <= k < kids.len() ==> dom.contains_node(#[trigger] kids[k]) && dom.parent_of(kids[k]) == Some(n),
        forall|x: NodeId| #[trigger]
            pre.contains(x) ==> dom.contains_node(x) && lays_out(dom, w, x) && x != w && exists|j: int|
                0 <= j < i && dom.in_subtree(#[trigger] kids[j], x),
    ensures
        forall|x: NodeId| #[trigger] pre.contains(x) ==> effective_parent(dom, w, x) != c,
{
    assert forall|x: NodeId| #[trigger] pre.contains(x) implies effective_parent(dom, w, x) != c by {
        let j = choose|j: int| 0 <= j < i && dom.in_subtree(#[trigger] kids[j], x);
        if effective_parent(dom, w, x) == c {
            lemma_effective_above(dom, w, x);
            assert(kids[j] != kids[i]);
            dom.lemma_siblings_disjoint(kids[j], c, x);
        }
    }
}

/// Nothing walked before `c`, nor `c` itself, hangs below a node strictly
/// below `c`.
proof fn lemma_inner_not_below(
    dom: Dom,
    w: NodeId,
    n: NodeId,
    kids: Seq<NodeId>,
    i: int,
    pre: Seq<NodeId>,
    c: NodeId,
    t: NodeId,
)
    requires
        dom.wf(),
        dom.contains_node(w),
        kids == dom.children_of(n),
        kids.no_duplicates(),
        0 <= i < kids.len(),
        c == kids[i],
        lays_out(dom, w, c),
        c != w,
        forall|k: int| 0 <= k < kids.len() ==> dom.contains_node(#[trigger] kids[k]) && dom.parent_of(kids[k]) == Some(n),
        forall|x: NodeId| #[trigger]
            pre.contains(x) ==> dom.contains_node(x) && lays_out(dom, w, x) && x != w && exists|j: int|
                0 <= j < i && dom.in_subtree(#[trigger] kids[j], x),
        dom.in_subtree(c, t),
        t != c,
    ensures
        forall|x: NodeId| #[trigger] (pre + seq![c]).contains(x) ==> effective_parent(dom, w, x) != t,
{
    broadcast use vstd::seq_lib::lemma_seq_concat_contains_all_elements;

    assert forall|x: NodeId| #[trigger] (pre + seq![c]).contains(x) implies effective_parent(dom, w, x) != t by {
        if effective_parent(dom, w, x) == t {
            lemma_effective_above(dom, w, x);
            if pre.contains(x) {
                let j = choose|j: int| 0 <= j < i && dom.in_subtree(#[trigger] kids[j], x);
                dom.lemma_in_subtree_chain(c, t, x);
                assert(kids[j] != kids[i]);
                dom.lemma_siblings_disjoint(kids[j], c, x);
            } else {
                assert(seq![c].contains(x));
                assert(x == c);
                dom.lemma_in_subtree_rank(t, c);
                dom.lemma_in_subtree_rank(c, t);
                dom.lemma_ancestor_measure(t, c);
            }
        }
    }
}

/// The walked prefix grows by the run of the child `c`, which lies below `c`.
proof fn lemma_extend_order(
    dom: Dom,
    w: NodeId,
    n: NodeId,
    kids: Seq<NodeId>,
    i: int,
    pre: Seq<NodeId>,
    here: Seq<NodeId>,
    c: NodeId,
)
    requires
        dom.wf(),
        dom.contains_node(w),
        kids == dom.children_of(n),
        0 <= i < kids.len(),
        c == kids[i],
        dom.contains_node(c),
        lays_out(dom, w, c),
        c != w,
        here == seq![c] || (here == seq![c] + box_order(dom, c, 0) && is_container_kind(dom.kind_of(c))),
        forall|x: NodeId| #[trigger]
            pre.contains(x) ==> dom.contains_node(x) && lays_out(dom, w, x) && x != w && exists|j: int|
                0 <= j < i && dom.in_subtree(#[trigger] kids[j], x),
    ensures
        forall|x: NodeId| #[trigger]
            (pre + here).contains(x) ==> dom.contains_node(x) && lays_out(dom, w, x) && x != w && exists|j: int|
                0 <= j < i + 1 && dom.in_subtree(#[trigger] kids[j], x),
{
    broadcast use vstd::seq_lib::lemma_seq_concat_contains_all_elements;

    assert forall|x: NodeId| #[trigger] (pre + here).contains(x) implies dom.contains_node(x) && lays_out(
        dom,
        w,
        x,
    ) && x != w && exists|j: int| 0 <= j < i + 1 && dom.in_subtree(#[trigger] kids[j], x) by {
        if pre.contains(x) {
            let j = choose|j: int| 0 <= j < i && dom.in_subtree(#[trigger] kids[j], x);
            assert(dom.in_subtree(kids[j], x));
        } else {
            dom.lemma_in_subtree_refl(c);
            if seq![c].contains(x) {
                assert(x == c);
                assert(dom.in_subtree(kids[i], x));
            } else {
                assert(box_order(dom, c, 0).contains(x));
                lemma_box_order_below(dom, w, c, 0, x);
                let j = choose|j: int| 0 <= j < dom.children_of(c).len() && dom.in_subtree(#[trigger] dom.children_of(c)[j], x);
                dom.lemma_node(c);
                dom.lemma_in_subtree_step(c, dom.children_of(c)[j]);
                dom.lemma_in_subtree_chain(c, dom.children_of(c)[j], x);
                assert(dom.in_subtree(kids[i], x));
            }
        }
    }
}

/// The children a box had before a lowering step: none for a box that did
/// not exist yet.
pub open spec fn base_kids(a: ScratchLayout, b: u64) -> Seq<LayoutId> {
    if a.boxes().contains(b) {
        a.topology.kids()[b]
    } else {
        Seq::empty()
    }
}

/// How a box takes part in layout.
#[derive(Debug)]
pub enum LayoutRole {
    Container,
    /// A paragraph, with the text of everything it holds.
    Paragraph { text: String },
}

/// The sidecar of one box.
#[derive(Debug)]
pub struct LayoutNodeState {
    pub dom_id: NodeId,
    pub role: LayoutRole,
}

/// The result of lowering one committed document.
#[derive(Debug)]
pub struct ScratchLayout {
    pub revision: u64,
    pub window: Option<NodeId>,
    pub topology: LayoutTopology,
    /// The sidecar of each box, keyed by the box's identity.
    pub nodes: HashMap<u64, LayoutNodeState>,
    /// The paragraph that owns each raw text node and Text element, keyed
    /// by the owned node's identity.
    pub text_owner: HashMap<u64, NodeId>,
}

impl ScratchLayout {
    pub open spec fn boxes(&self) -> Set<u64> {
        self.topology.kids().dom()
    }

    /// What one box records, for the Window `w`.
    pub open spec fn box_ok(&self, dom: Dom, w: NodeId, b: u64) -> bool {
        let t = self.topology;
        let n = t.l2d()[b];
        &&& n@ == b
        &&& dom.contains_node(n)
        &&& lays_out(dom, w, n)
        &&& t.d2l()[b] == LayoutId { raw: b }
        &&& self.nodes@[b].dom_id == n
        &&& (self.nodes@[b].role is Paragraph <==> is_text_element(dom.kind_of(n)))
        &&& (self.nodes@[b].role matches LayoutRole::Paragraph { text } ==> text@ == text_content_spec(
            dom,
            n,
        ))
        &&& (self.nodes@[b].role is Paragraph ==> t.kids()[b].len() == 0)
        &&& (b == w@ ==> t.metas()[b] == PositioningMeta {
            dom_parent: None,
            containing_block: None,
            source_order: 0,
        })
        &&& (b != w@ ==> {
            let p = dom.parent_of(n)->0;
            let e = LayoutId { raw: effective_parent(dom, w, n)@ };
            &&& dom.parent_of(n) is Some
            &&& self.boxes().contains(p@)
            &&& t.parents()[b] == e
            &&& t.metas()[b] == PositioningMeta {
                dom_parent: Some(p),
                containing_block: Some(e),
                source_order: dom.children_of(p).index_of(n) as usize,
            }
        })
    }

    /// The invariant of a lowering in progress below the Window `w`.
    pub open spec fn inv(&self, dom: Dom, w: NodeId) -> bool {
        let t = self.topology;
        &&& t.tree_ok(self.nodes@.dom())
        &&& t.root_spec() == Some(LayoutId { raw: w@ })
        &&& t.d2l().dom() == t.kids().dom()
        &&& t.l2d().dom() == t.kids().dom()
        &&& t.metas().dom() == t.kids().dom()
        &&& t.parents().dom() == t.kids().dom().remove(w@)
        &&& self.nodes@.dom() == t.kids().dom()
        &&& forall|b: u64| #[trigger] t.kids().contains_key(b) ==> self.box_ok(dom, w, b)
        &&& forall|k: u64| #[trigger]
            self.text_owner@.contains_key(k) ==> exists|m: NodeId|
                dom.contains_node(m) && m@ == k && paragraph_of(dom, w, m) == Some(
                    self.text_owner@[k],
                )
    }

    /// A box whose DOM children are all lowered: every child of a
    /// container has a box, and a paragraph owns everything it holds.
    pub open spec fn complete(&self, dom: Dom, w: NodeId, b: u64) -> bool {
        let n = self.topology.l2d()[b];
        &&& (self.nodes@[b].role is Container ==> forall|i: int|
            0 <= i < dom.children_of(n).len() ==> self.boxes().contains(
                #[trigger] dom.children_of(n)[i]@,
            ))
        &&& (self.nodes@[b].role is Paragraph ==> forall|m: NodeId| #[trigger]
            paragraph_of(dom, w, m) == Some(n) ==> self.text_owner@.contains_key(m@)
                && self.text_owner@[m@] == n)
    }

    /// The layout of `dom`: one box per node that generates one, below the
    /// effective parents, with sidecars, and every paragraph member owned.
    pub open spec fn lowers(&self, dom: Dom) -> bool {
        let app = dom.root_id();
        &&& self.revision == dom.revision_spec()
        &&& if dom.children_of(app).len() == 0 {
            &&& self.window is None
            &&& self.topology.root_spec() is None
            &&& self.topology.kids().dom() == Set::<u64>::empty()
            &&& self.nodes@.dom() == Set::<u64>::empty()
            &&& self.text_owner@.dom() == Set::<u64>::empty()
        } else {
            let w = dom.children_of(app)[0];
            &&& self.window == Some(w)
            &&& self.inv(dom, w)
            &&& forall|m: NodeId|
                dom.contains_node(m) && #[trigger] lays_out(dom, w, m) ==> self.boxes().contains(m@)
            &&& forall|b: u64| #[trigger]
                self.topology.kids().contains_key(b) ==> self.topology.kids()[b] == kids_in_order(
                    dom,
                    w,
                    self.topology.l2d()[b],
                )
            &&& forall|m: NodeId| #[trigger]
                paragraph_of(dom, w, m) is Some ==> self.text_owner@.contains_key(m@)
                    && self.text_owner@[m@] == paragraph_of(dom, w, m)->0
        }
    }
}

/// The nearest positioned ancestor of a box-generating container is the
/// Window or a box-generating container.
proof fn lemma_nearest_positioned(dom: Dom, w: NodeId, n: NodeId)
    requires
        dom.wf(),
        dom.contains_node(w),
        lays_out(dom, w, n),
        n == w || is_container_kind(dom.kind_of(n)),
    ensures
        ({
            let np = nearest_positioned(dom, w, n);
            &&& lays_out(dom, w, np)
            &&& np == w || (dom.contains_node(np) && is_container_kind(dom.kind_of(np)))
        }),
    decreases dom.rank_of(n),
{
    if n != w && position_spec(dom.kind_of(n)) == Position::Static {
        let p = dom.parent_of(n)->0;
        dom.lemma_parent_rank(n);
        lemma_nearest_positioned(dom, w, p);
    }
}

/// The members collected below a paragraph box are owned by it.
proof fn lemma_member_owned(dom: Dom, w: NodeId, c: NodeId, ms: Seq<NodeId>, x: NodeId)
    requires
        dom.wf(),
        dom.contains_node(c),
        paragraph_of(dom, w, c) == Some(c),
        !is_container_kind(dom.kind_of(c)),
        c != w,
        ms.contains(x),
        forall|y: NodeId| #[trigger]
            ms.contains(y) ==> {
                &&& dom.contains_node(y)
                &&& is_paragraph_member(dom.kind_of(y))
                &&& dom.parent_of(y) is Some
                &&& (dom.parent_of(y)->0 == c || ms.contains(dom.parent_of(y)->0))
            },
        !ms.contains(w),
    ensures
        paragraph_of(dom, w, x) == Some(c),
    decreases dom.rank_of(x),
{
    let q = dom.parent_of(x)->0;
    dom.lemma_parent_rank(x);
    assert(x != w);
    if q != c {
        lemma_member_owned(dom, w, c, ms, q);
        assert(!is_container_kind(dom.kind_of(q)));
    }
    assert(q != w) by {
        if q == w {
            assert(ms.contains(w) || c == w);
        }
    }
    assert(!lays_out(dom, w, x));
}

/// Whatever a paragraph box owns lies in it or in what was collected
/// below it.
proof fn lemma_owned_member(dom: Dom, w: NodeId, c: NodeId, ms: Seq<NodeId>, m: NodeId)
    requires
        dom.wf(),
        paragraph_of(dom, w, m) == Some(c),
        forall|i: int|
            0 <= i < dom.children_of(c).len() ==> ms.contains(#[trigger] dom.children_of(c)[i]),
        forall|x: NodeId, i: int|
            #![trigger ms.contains(x), dom.children_of(x)[i]]
            ms.contains(x) && 0 <= i < dom.children_of(x).len() ==> ms.contains(dom.children_of(x)[i]),
    ensures
        m == c || ms.contains(m),
    decreases dom.rank_of(m),
{
    if m != c {
        let p = dom.parent_of(m)->0;
        dom.lemma_parent_rank(m);
        lemma_owned_member(dom, w, c, ms, p);
        dom.lemma_node(m);
        let i = dom.children_of(p).index_of(m);
        assert(dom.children_of(p)[i] == m);
    }
}

/// What a lowering step keeps of the state it started from.
pub open spec fn extends(a: ScratchLayout, b: ScratchLayout) -> bool {
    &&& a.boxes().subset_of(b.boxes())
    &&& forall|k: u64| #[trigger]
        a.topology.l2d().contains_key(k) ==> b.topology.l2d().contains_key(k) && b.topology.l2d()[k]
            == a.topology.l2d()[k]
    &&& forall|k: u64| #[trigger]
        a.nodes@.contains_key(k) ==> b.nodes@.contains_key(k) && b.nodes@[k] == a.nodes@[k]
    &&& forall|k: u64| #[trigger]
        a.text_owner@.contains_key(k) ==> b.text_owner@.contains_key(k) && b.text_owner@[k]
            == a.text_owner@[k]
    &&& a.revision == b.revision
    &&& a.window == b.window
}

proof fn lemma_complete_mono(a: ScratchLayout, b: ScratchLayout, dom: Dom, w: NodeId, x: u64)
    requires
        a.complete(dom, w, x),
        extends(a, b),
        a.boxes().contains(x),
        a.topology.l2d().contains_key(x),
        a.nodes@.contains_key(x),
    ensures
        b.complete(dom, w, x),
{
    let n = a.topology.l2d()[x];
    assert(b.topology.l2d()[x] == n);
    assert(b.nodes@[x] == a.nodes@[x]);
    if a.nodes@[x].role is Paragraph {
        assert forall|m: NodeId| #[trigger] paragraph_of(dom, w, m) == Some(n) implies b.text_owner@.contains_key(
            m@,
        ) && b.text_owner@[m@] == n by {
            assert(a.text_owner@.contains_key(m@));
        }
    }
}

/// Adding the box of a fresh box-generating node `c` below its effective
/// parent, with its sidecar, keeps the lowering invariant.
proof fn lemma_add_box(a: ScratchLayout, b: ScratchLayout, dom: Dom, w: NodeId, c: NodeId, lp: LayoutId)
    requires
        dom.wf(),
        a.inv(dom, w),
        dom.contains_node(c),
        c != w,
        !a.boxes().contains(c@),
        dom.parent_of(c) is Some,
        a.boxes().contains(dom.parent_of(c)->0@),
        lays_out(dom, w, c),
        lp@ == effective_parent(dom, w, c)@,
        a.boxes().contains(lp@),
        a.nodes@[lp@].role is Container,
        b.topology.root_spec() == a.topology.root_spec(),
        b.topology.d2l() == a.topology.d2l().insert(c@, LayoutId { raw: c@ }),
        b.topology.l2d() == a.topology.l2d().insert(c@, c),
        b.topology.parents() == a.topology.parents().insert(c@, lp),
        b.topology.kids() == a.topology.kids().insert(c@, Seq::<LayoutId>::empty()).insert(
            lp@,
            a.topology.kids().insert(c@, Seq::<LayoutId>::empty())[lp@].push(LayoutId { raw: c@ }),
        ),
        b.topology.metas() == a.topology.metas().insert(
            c@,
            PositioningMeta {
                dom_parent: Some(dom.parent_of(c)->0),
                containing_block: Some(lp),
                source_order: dom.children_of(dom.parent_of(c)->0).index_of(c) as usize,
            },
        ),
        b.nodes@.dom() == a.nodes@.dom().insert(c@),
        forall|k: u64| k != c@ ==> #[trigger] b.nodes@[k] == a.nodes@[k],
        b.nodes@[c@].dom_id == c,
        b.nodes@[c@].role is Paragraph <==> is_text_element(dom.kind_of(c)),
        b.nodes@[c@].role matches LayoutRole::Paragraph { text } ==> text@ == text_content_spec(dom, c),
        b.text_owner@ == a.text_owner@,
        b.revision == a.revision,
        b.window == a.window,
    ensures
        b.inv(dom, w),
        extends(a, b),
        b.boxes() == a.boxes().insert(c@),
{
    let ta = a.topology;
    let tb = b.topology;
    assert(lp@ != c@);
    assert(ta.kids().insert(c@, Seq::<LayoutId>::empty())[lp@] == ta.kids()[lp@]);
    LayoutTopology::lemma_insert_keeps_tree(
        &ta,
        &tb,
        a.nodes@.dom(),
        c,
        lp,
        tb.metas()[c@],
    );
    assert(b.nodes@.dom() =~= a.nodes@.dom().insert(c@));
    assert(tb.kids().dom() =~= ta.kids().dom().insert(c@));
    assert(tb.d2l().dom() =~= tb.kids().dom());
    assert(tb.l2d().dom() =~= tb.kids().dom());
    assert(tb.metas().dom() =~= tb.kids().dom());
    assert(tb.parents().dom() =~= tb.kids().dom().remove(w@));
    assert forall|x: u64| #[trigger] tb.kids().contains_key(x) implies b.box_ok(dom, w, x) by {
        if x == c@ {
            NodeId::lemma_view_injective(tb.l2d()[x], c);
            assert(tb.kids()[x] =~= Seq::<LayoutId>::empty());
        } else {
            assert(ta.kids().contains_key(x));
            assert(a.box_ok(dom, w, x));
            assert(b.nodes@[x] == a.nodes@[x]);
            if x == lp@ {
                assert(!(b.nodes@[x].role is Paragraph));
            } else {
                assert(tb.kids()[x] == ta.kids()[x]);
            }
        }
    }
    assert forall|k: u64| #[trigger] b.text_owner@.contains_key(k) implies exists|m: NodeId|
        dom.contains_node(m) && m@ == k && paragraph_of(dom, w, m) == Some(b.text_owner@[k]) by {
        assert(a.text_owner@.contains_key(k));
    }
    assert forall|k: u64| #[trigger] a.nodes@.contains_key(k) implies b.nodes@.contains_key(k)
        && b.nodes@[k] == a.nodes@[k] by {
        assert(k != c@);
    }
}

/// Recording that the paragraph `c` owns `x`, one of its members, keeps
/// the lowering invariant and what was recorded before.
proof fn lemma_add_owner(a: ScratchLayout, b: ScratchLayout, dom: Dom, w: NodeId, x: NodeId, c: NodeId)
    requires
        a.inv(dom, w),
        dom.contains_node(x),
        paragraph_of(dom, w, x) == Some(c),
        b.topology == a.topology,
        b.nodes@ == a.nodes@,
        b.text_owner@ == a.text_owner@.insert(x@, c),
        b.revision == a.revision,
        b.window == a.window,
    ensures
        b.inv(dom, w),
        extends(a, b),
{
    assert forall|k: u64| #[trigger] a.text_owner@.contains_key(k) implies b.text_owner@.contains_key(k)
        && b.text_owner@[k] == a.text_owner@[k] by {
        if k == x@ {
            let m = choose|m: NodeId| dom.contains_node(m) && m@ == k && paragraph_of(dom, w, m) == Some(
                a.text_owner@[k],
            );
            NodeId::lemma_view_injective(m, x);
        }
    }
    assert forall|k: u64| #[trigger] b.text_owner@.contains_key(k) implies exists|m: NodeId|
        dom.contains_node(m) && m@ == k && paragraph_of(dom, w, m) == Some(b.text_owner@[k]) by {
        if k == x@ {
            assert(dom.contains_node(x) && x@ == k && paragraph_of(dom, w, x) == Some(b.text_owner@[k]));
        } else {
            assert(a.text_owner@.contains_key(k));
        }
    }
    assert forall|q: u64| #[trigger] b.topology.kids().contains_key(q) implies b.box_ok(dom, w, q) by {
        assert(a.box_ok(dom, w, q));
    }
}

/// Lowers the children of the box-generating container `n` (or the Window),
/// at container depth `depth`; `positioned` is the box that absolutely
/// positioned children hang below.
#[verifier::spinoff_prover]
#[verifier::rlimit(100)]
fn lower_children(
    dom: &Dom,
    s: &mut ScratchLayout,
    w: NodeId,
    n: NodeId,
    positioned: LayoutId,
    depth: usize,
    limit: usize,
) -> (r: Result<(), LayoutError>)
    requires
        dom.wf(),
        limit < usize::MAX,
        depth < usize::MAX,
        dom.contains_node(w),
        dom.kind_of(w) matches NodeKindView::Element(ElementTag::Window, _),
        dom.parent_of(w) == Some(dom.root_id()),
        old(s).inv(*dom, w),
        old(s).boxes().contains(n@),
        dom.contains_node(n),
        n == w || is_container_kind(dom.kind_of(n)),
        positioned@ == nearest_positioned(*dom, w, n)@,
        old(s).boxes().contains(positioned@),
        forall|b: u64| #[trigger]
            old(s).boxes().contains(b) ==> dom.parent_of(old(s).topology.l2d()[b]) != Some(n),
    ensures
        match r {
            Ok(()) => container_error(*dom, n, 0, depth, limit) is None,
            Err(e) => container_error(*dom, n, 0, depth, limit) == Some(e),
        },
        r is Ok ==> {
            &&& final(s).inv(*dom, w)
            &&& extends(*old(s), *final(s))
            &&& forall|b: u64| #[trigger]
                final(s).boxes().contains(b) && !old(s).boxes().contains(b) ==> {
                    &&& dom.parent_of(final(s).topology.l2d()[b]) is Some
                    &&& dom.rank_of(dom.parent_of(final(s).topology.l2d()[b])->0) >= dom.rank_of(n)
                    &&& final(s).complete(*dom, w, b)
                    &&& dom.in_subtree(n, final(s).topology.l2d()[b])
                    &&& final(s).topology.l2d()[b] != n
                }
            &&& forall|b: u64| #[trigger]
                final(s).boxes().contains(b) ==> final(s).topology.kids()[b] == base_kids(*old(s), b)
                    + layout_ids(box_order(*dom, n, 0).filter(hangs_below(*dom, w, final(s).topology.l2d()[b])))
            &&& forall|i: int|
                0 <= i < dom.children_of(n).len() ==> final(s).boxes().contains(
                    #[trigger] dom.children_of(n)[i]@,
                )
        },
    decreases dom.depth_measure(n),
{
    let ghost start = *s;
    let children = dom.children(n).unwrap();
    let n_box = LayoutId::for_dom(n);
    let window_box = LayoutId::for_dom(w);
    proof {
        dom.lemma_node(n);
        assert(s.box_ok(*dom, w, n@));
        NodeId::lemma_view_injective(s.topology.l2d()[n@], n);
        lemma_nearest_positioned(*dom, w, n);
    }
    let ghost mut pre_order: Seq<NodeId> = Seq::empty();
    proof {
        assert(box_order(*dom, n, 0) =~= pre_order + box_order(*dom, n, 0));
        assert forall|b: u64| #[trigger] s.boxes().contains(b) implies s.topology.kids()[b] == base_kids(start, b)
            + layout_ids(pre_order.filter(hangs_below(*dom, w, s.topology.l2d()[b]))) by {
            lemma_none_hangs(*dom, w, pre_order, s.topology.l2d()[b]);
            assert(layout_ids(Seq::<NodeId>::empty()) =~= Seq::<LayoutId>::empty());
            assert(s.topology.kids()[b] + Seq::<LayoutId>::empty() =~= s.topology.kids()[b]);
        }
    }
    let mut i: usize = 0;
    while i < children.len()
        invariant
            box_order(*dom, n, 0) == pre_order + box_order(*dom, n, i as int),
            forall|x: NodeId| #[trigger]
                pre_order.contains(x) ==> dom.contains_node(x) && lays_out(*dom, w, x) && x != w && exists|j: int|
                    0 <= j < i && dom.in_subtree(#[trigger] children@[j], x),
            forall|b: u64| #[trigger]
                s.boxes().contains(b) ==> s.topology.kids()[b] == base_kids(start, b) + layout_ids(
                    pre_order.filter(hangs_below(*dom, w, s.topology.l2d()[b])),
                ),
            dom.wf(),
            limit < usize::MAX,
            depth < usize::MAX,
            dom.contains_node(w),
            dom.kind_of(w) matches NodeKindView::Element(ElementTag::Window, _),
            dom.parent_of(w) == Some(dom.root_id()),
            dom.contains_node(n),
            n == w || is_container_kind(dom.kind_of(n)),
            lays_out(*dom, w, n),
            n_box@ == n@,
            window_box@ == w@,
            positioned@ == nearest_positioned(*dom, w, n)@,
            lays_out(*dom, w, nearest_positioned(*dom, w, n)),
            nearest_positioned(*dom, w, n) == w || (dom.contains_node(nearest_positioned(*dom, w, n))
                && is_container_kind(dom.kind_of(nearest_positioned(*dom, w, n)))),
            children@ == dom.children_of(n),
            children@.no_duplicates(),
            forall|k: int|
                0 <= k < children@.len() ==> {
                    &&& dom.contains_node(#[trigger] children@[k])
                    &&& dom.parent_of(children@[k]) == Some(n)
                },
            0 <= i <= children.len(),
            s.inv(*dom, w),
            extends(start, *s),
            s.boxes().contains(n@),
            s.topology.l2d()[n@] == n,
            s.boxes().contains(positioned@),
            container_error(*dom, n, 0, depth, limit) == container_error(*dom, n, i as int, depth, limit),
            forall|b: u64| #[trigger]
                s.boxes().contains(b) && !start.boxes().contains(b) ==> {
                    &&& dom.parent_of(s.topology.l2d()[b]) is Some
                    &&& dom.rank_of(dom.parent_of(s.topology.l2d()[b])->0) >= dom.rank_of(n)
                    &&& s.complete(*dom, w, b)
                    &&& exists|j: int| 0 <= j < i && dom.in_subtree(#[trigger] children@[j], s.topology.l2d()[b])
                },
            forall|b: u64| #[trigger]
                s.boxes().contains(b) && dom.parent_of(s.topology.l2d()[b]) == Some(n) ==> children@.index_of(
                    s.topology.l2d()[b],
                ) < i,
            forall|k: int| 0 <= k < i ==> s.boxes().contains(#[trigger] children@[k]@),
        decreases children.len() - i,
    {
        let c = children[i];
        let ghost before = *s;
        proof {
            dom.lemma_child_measure(n, i as int);
            dom.lemma_node(c);
            dom.lemma_parent_rank(c);
            assert(children@[i as int] == c);
            assert(children@.contains(c));
            assert(children@.index_of(c) == i);
            assert(!s.boxes().contains(c@)) by {
                if s.boxes().contains(c@) {
                    assert(s.box_ok(*dom, w, c@));
                    NodeId::lemma_view_injective(s.topology.l2d()[c@], c);
                }
            }
            assert(n != dom.root_id()) by {
                dom.lemma_root();
            }
            assert(c != w);
            assert forall|b: u64| #[trigger] s.boxes().contains(b) implies dom.parent_of(
                s.topology.l2d()[b],
            ) != Some(c) by {
                assert(s.box_ok(*dom, w, b));
                if b == w@ {
                    dom.lemma_root();
                    NodeId::lemma_view_injective(s.topology.l2d()[b], w);
                }
            }
        }
        match dom.kind(c).unwrap() {
            NodeKind::App => {
                return Err(LayoutError::InvalidAppRoot);
            },
            NodeKind::Text(_) => {
                return Err(LayoutError::RawTextOutsideParagraph(c));
            },
            NodeKind::Element(tag, style) => {
                let layout_parent = match style.position {
                    Position::Static => n_box,
                    Position::Relative => n_box,
                    Position::Absolute => positioned,
                    Position::Fixed => window_box,
                };
                proof {
                    assert(s.box_ok(*dom, w, positioned@));
                    NodeId::lemma_view_injective(s.topology.l2d()[positioned@], nearest_positioned(*dom, w, n));
                    assert(s.box_ok(*dom, w, w@));
                    NodeId::lemma_view_injective(s.topology.l2d()[w@], w);
                    assert(s.nodes@[layout_parent@].role is Container);
                    assert(layout_parent@ == effective_parent(*dom, w, c)@);
                }
                match tag {
                    ElementTag::Window => {
                        return Err(LayoutError::UnexpectedWindow(c));
                    },
                    ElementTag::Text => {
                        let id = match s.topology.insert_child(c, n, layout_parent, i) {
                            Ok(id) => id,
                            Err(e) => return Err(e),
                        };
                        let mut members: Vec<NodeId> = Vec::new();
                        match collect_members(dom, c, c, &mut members) {
                            Ok(()) => {},
                            Err(e) => return Err(e),
                        }
                        let mut text = String::new();
                        collect_text(dom, c, &mut text);
                        s.nodes.insert(
                            id.raw,
                            LayoutNodeState { dom_id: c, role: LayoutRole::Paragraph { text } },
                        );
                        proof {
                            assert(members@.subrange(0, members@.len() as int) =~= members@);
                            lemma_add_box(before, *s, *dom, w, c, layout_parent);
                            assert(s.box_ok(*dom, w, c@));
                            assert(paragraph_of(*dom, w, c) == Some(c));
                            lemma_insert_kids(before, *s, *dom, w, c, layout_parent);
                            lemma_earlier_not_below(*dom, w, n, children@, i as int, pre_order, c);
                            lemma_none_hangs(*dom, w, pre_order, c);
                            lemma_kids_compose(*dom, w, start, before, *s, pre_order, seq![c]);
                            assert(box_order(*dom, n, i as int) == seq![c] + box_order(*dom, n, i + 1));
                            assert(box_order(*dom, n, 0) =~= (pre_order + seq![c]) + box_order(*dom, n, i + 1));
                            lemma_extend_order(*dom, w, n, children@, i as int, pre_order, seq![c], c);
                            pre_order = pre_order + seq![c];
                        }
                        let ghost with_box = *s;
                        s.text_owner.insert(c.raw(), c);
                        proof {
                            lemma_add_owner(with_box, *s, *dom, w, c, c);
                        }
                        let mut j: usize = 0;
                        while j < members.len()
                            invariant
                                dom.wf(),
                                s.inv(*dom, w),
                                extends(with_box, *s),
                                s.topology == with_box.topology,
                                s.nodes@ == with_box.nodes@,
                                dom.contains_node(c),
                                c != w,
                                dom.kind_of(w) matches NodeKindView::Element(ElementTag::Window, _),
                                paragraph_of(*dom, w, c) == Some(c),
                                !is_container_kind(dom.kind_of(c)),
                                0 <= j <= members.len(),
                                s.text_owner@.contains_key(c@),
                                s.text_owner@[c@] == c,
                                forall|k: int| 0 <= k < j ==> s.text_owner@.contains_key(#[trigger] members@[k]@)
                                    && s.text_owner@[members@[k]@] == c,
                                forall|y: NodeId| #[trigger]
                                    members@.contains(y) ==> {
                                        &&& dom.contains_node(y)
                                        &&& is_paragraph_member(dom.kind_of(y))
                                        &&& dom.parent_of(y) is Some
                                        &&& (dom.parent_of(y)->0 == c || members@.contains(dom.parent_of(y)->0))
                                    },
                            decreases members.len() - j,
                        {
                            let x = members[j];
                            let ghost pre = *s;
                            proof {
                                assert(members@.contains(x));
                                assert(!members@.contains(w)) by {
                                    if members@.contains(w) {
                                        assert(is_paragraph_member(dom.kind_of(w)));
                                    }
                                }
                                lemma_member_owned(*dom, w, c, members@, x);
                            }
                            s.text_owner.insert(x.raw(), c);
                            proof {
                                lemma_add_owner(pre, *s, *dom, w, x, c);
                            }
                            j += 1;
                        }
                        proof {
                            assert forall|m: NodeId| #[trigger] paragraph_of(*dom, w, m) == Some(c) implies s.text_owner@.contains_key(
                                m@,
                            ) && s.text_owner@[m@] == c by {
                                lemma_owned_member(*dom, w, c, members@, m);
                                if m != c {
                                    let k = members@.index_of(m);
                                    assert(members@[k] == m);
                                }
                            }
                            assert(s.topology.l2d()[c@] == c);
                            assert(s.complete(*dom, w, c@));
                        }
                    },
                    _ => {
                        let container_depth = depth + 1;
                        if container_depth > limit {
                            return Err(LayoutError::TreeTooDeep { depth: container_depth, limit });
                        }
                        let id = match s.topology.insert_child(c, n, layout_parent, i) {
                            Ok(id) => id,
                            Err(e) => return Err(e),
                        };
                        s.nodes.insert(id.raw, LayoutNodeState { dom_id: c, role: LayoutRole::Container });
                        proof {
                            lemma_add_box(before, *s, *dom, w, c, layout_parent);
                            assert(s.box_ok(*dom, w, c@));
                            lemma_insert_kids(before, *s, *dom, w, c, layout_parent);
                            lemma_earlier_not_below(*dom, w, n, children@, i as int, pre_order, c);
                            lemma_none_hangs(*dom, w, pre_order, c);
                            lemma_kids_compose(*dom, w, start, before, *s, pre_order, seq![c]);
                        }
                        let child_positioned = match style.position {
                            Position::Static => positioned,
                            _ => id,
                        };
                        let ghost with_box = *s;
                        proof {
                            assert forall|b: u64| #[trigger] s.boxes().contains(b) implies dom.parent_of(
                                s.topology.l2d()[b],
                            ) != Some(c) by {
                                if b != c@ {
                                    assert(before.boxes().contains(b));
                                }
                            }
                        }
                        match lower_children(dom, s, w, c, child_positioned, container_depth, limit) {
                            Ok(()) => {},
                            Err(e) => return Err(e),
                        }
                        proof {
                            assert(with_box.topology.l2d().contains_key(c@));
                            assert(with_box.nodes@.contains_key(c@));
                            assert(s.topology.l2d()[c@] == c);
                            assert(s.nodes@[c@] == with_box.nodes@[c@]);
                            assert(s.complete(*dom, w, c@));
                            let run = pre_order + seq![c];
                            assert forall|b: u64| #[trigger]
                                s.boxes().contains(b) && !with_box.boxes().contains(b) implies run.filter(
                                hangs_below(*dom, w, s.topology.l2d()[b]),
                            ) == Seq::<NodeId>::empty() by {
                                lemma_inner_not_below(*dom, w, n, children@, i as int, pre_order, c, s.topology.l2d()[b]);
                                lemma_none_hangs(*dom, w, run, s.topology.l2d()[b]);
                            }
                            lemma_kids_compose(*dom, w, start, with_box, *s, run, box_order(*dom, c, 0));
                            assert(box_order(*dom, n, i as int) == (seq![c] + box_order(*dom, c, 0)) + box_order(
                                *dom,
                                n,
                                i + 1,
                            ));
                            assert(run + box_order(*dom, c, 0) =~= pre_order + (seq![c] + box_order(*dom, c, 0)));
                            assert(box_order(*dom, n, 0) =~= (pre_order + (seq![c] + box_order(*dom, c, 0)))
                                + box_order(*dom, n, i + 1));
                            lemma_extend_order(*dom, w, n, children@, i as int, pre_order, seq![c] + box_order(*dom, c, 0), c);
                            pre_order = pre_order + (seq![c] + box_order(*dom, c, 0));
                        }
                    },
                }
            },
        }
        proof {
            assert forall|b: u64| #[trigger]
                s.boxes().contains(b) && !start.boxes().contains(b) implies {
                    &&& dom.parent_of(s.topology.l2d()[b]) is Some
                    &&& dom.rank_of(dom.parent_of(s.topology.l2d()[b])->0) >= dom.rank_of(n)
                    &&& s.complete(*dom, w, b)
                } by {
                if before.boxes().contains(b) {
                    lemma_complete_mono(before, *s, *dom, w, b);
                } else if b != c@ {
                    assert(dom.rank_of(dom.parent_of(s.topology.l2d()[b])->0) >= dom.rank_of(c));
                }
            }
            assert forall|b: u64| #[trigger]
                s.boxes().contains(b) && !start.boxes().contains(b) implies exists|j: int|
                    0 <= j < i + 1 && dom.in_subtree(#[trigger] children@[j], s.topology.l2d()[b]) by {
                if before.boxes().contains(b) {
                    assert(before.topology.l2d().contains_key(b));
                    assert(s.topology.l2d()[b] == before.topology.l2d()[b]);
                    let j = choose|j: int| 0 <= j < i && dom.in_subtree(#[trigger] children@[j], before.topology.l2d()[b]);
                    assert(dom.in_subtree(children@[j], s.topology.l2d()[b]));
                } else if b == c@ {
                    assert(s.box_ok(*dom, w, b));
                    NodeId::lemma_view_injective(s.topology.l2d()[b], c);
                    dom.lemma_in_subtree_refl(c);
                    assert(dom.in_subtree(children@[i as int], s.topology.l2d()[b]));
                } else {
                    assert(dom.in_subtree(c, s.topology.l2d()[b]));
                    assert(dom.in_subtree(children@[i as int], s.topology.l2d()[b]));
                }
            }
            assert forall|b: u64| #[trigger]
                s.boxes().contains(b) && dom.parent_of(s.topology.l2d()[b]) == Some(n) implies children@.index_of(
                    s.topology.l2d()[b],
                ) < i + 1 by {
                if before.boxes().contains(b) {
                } else if b != c@ {
                    assert(dom.rank_of(dom.parent_of(s.topology.l2d()[b])->0) >= dom.rank_of(c));
                }
            }
        }
        i += 1;
    }
    proof {
        assert(box_order(*dom, n, i as int) =~= Seq::<NodeId>::empty());
        assert(box_order(*dom, n, 0) =~= pre_order);
        assert forall|b: u64| #[trigger]
            s.boxes().contains(b) && !start.boxes().contains(b) implies dom.in_subtree(n, s.topology.l2d()[b])
            && s.topology.l2d()[b] != n by {
            let t = s.topology.l2d()[b];
            let j = choose|j: int| 0 <= j < i && dom.in_subtree(#[trigger] children@[j], t);
            assert(s.box_ok(*dom, w, b));
            dom.lemma_in_subtree_refl(n);
            dom.lemma_in_subtree_step(n, children@[j]);
            dom.lemma_in_subtree_chain(n, children@[j], t);
            dom.lemma_in_subtree_rank(children@[j], t);
            dom.lemma_parent_rank(children@[j]);
        }
    }
    Ok(())
}

/// The owner of a paragraph member is a Text element that generates a box.
proof fn lemma_paragraph_root(dom: Dom, w: NodeId, m: NodeId)
    requires
        dom.wf(),
        paragraph_of(dom, w, m) is Some,
    ensures
        ({
            let q = paragraph_of(dom, w, m)->0;
            &&& dom.contains_node(q)
            &&& is_text_element(dom.kind_of(q))
            &&& lays_out(dom, w, q)
        }),
    decreases dom.rank_of(m),
{
    if !(is_text_element(dom.kind_of(m)) && lays_out(dom, w, m)) {
        let p = dom.parent_of(m)->0;
        dom.lemma_parent_rank(m);
        lemma_paragraph_root(dom, w, p);
    }
}

/// Once every box is complete, every node that generates a box has one.
proof fn lemma_lays_out_boxed(s: ScratchLayout, dom: Dom, w: NodeId, m: NodeId)
    requires
        dom.wf(),
        s.inv(dom, w),
        dom.kind_of(w) matches NodeKindView::Element(ElementTag::Window, _),
        forall|b: u64| #[trigger] s.boxes().contains(b) ==> s.complete(dom, w, b),
        dom.contains_node(m),
        lays_out(dom, w, m),
    ensures
        s.boxes().contains(m@),
    decreases dom.rank_of(m),
{
    if m != w {
        let p = dom.parent_of(m)->0;
        dom.lemma_parent_rank(m);
        lemma_lays_out_boxed(s, dom, w, p);
        assert(s.box_ok(dom, w, p@));
        NodeId::lemma_view_injective(s.topology.l2d()[p@], p);
        assert(s.nodes@[p@].role is Container);
        assert(s.complete(dom, w, p@));
        dom.lemma_node(m);
        let i = dom.children_of(p).index_of(m);
        assert(dom.children_of(p)[i] == m);
    }
}

/// Once every box is complete, every paragraph member is owned by its
/// paragraph.
proof fn lemma_member_recorded(s: ScratchLayout, dom: Dom, w: NodeId, m: NodeId)
    requires
        dom.wf(),
        s.inv(dom, w),
        dom.kind_of(w) matches NodeKindView::Element(ElementTag::Window, _),
        forall|b: u64| #[trigger] s.boxes().contains(b) ==> s.complete(dom, w, b),
        paragraph_of(dom, w, m) is Some,
    ensures
        s.text_owner@.contains_key(m@),
        s.text_owner@[m@] == paragraph_of(dom, w, m)->0,
{
    let q = paragraph_of(dom, w, m)->0;
    lemma_paragraph_root(dom, w, m);
    lemma_lays_out_boxed(s, dom, w, q);
    assert(s.box_ok(dom, w, q@));
    NodeId::lemma_view_injective(s.topology.l2d()[q@], q);
    assert(s.complete(dom, w, q@));
}

/// Lowers a committed document into a layout topology with one sidecar
/// per box, nesting containers at most `depth_limit` deep.
pub fn reconcile_full(dom: &Dom, depth_limit: usize) -> (r: Result<ScratchLayout, LayoutError>)
    requires
        dom.wf(),
        depth_limit < usize::MAX,
    ensures
        match r {
            Ok(s) => reconcile_error(*dom, depth_limit) is None && s.lowers(*dom),
            Err(e) => reconcile_error(*dom, depth_limit) == Some(e),
        },
{
    let app = dom.root();
    proof {
        dom.lemma_root();
        dom.lemma_node(app);
    }
    match dom.kind(app) {
        Some(NodeKind::App) => {},
        _ => return Err(LayoutError::InvalidAppRoot),
    }
    let app_children = match dom.children(app) {
        Some(c) => c,
        None => return Err(LayoutError::InvalidAppRoot),
    };
    if app_children.len() > 1 {
        return Err(LayoutError::InvalidAppChildren { count: app_children.len() });
    }
    let mut scratch = ScratchLayout {
        revision: dom.revision(),
        window: None,
        topology: LayoutTopology::new(),
        nodes: HashMap::new(),
        text_owner: HashMap::new(),
    };
    proof {
        assert(scratch.topology.kids() =~= Map::<u64, Seq<LayoutId>>::empty());
        assert(scratch.topology.d2l() =~= Map::<u64, LayoutId>::empty());
        assert(scratch.topology.l2d() =~= Map::<u64, NodeId>::empty());
        assert(scratch.topology.parents() =~= Map::<u64, LayoutId>::empty());
        assert(scratch.topology.metas() =~= Map::<u64, PositioningMeta>::empty());
    }
    if app_children.len() == 0 {
        let no_sidecars: HashSet<u64> = HashSet::new();
        match scratch.topology.validate(&no_sidecars, 0) {
            Ok(()) => {},
            Err(e) => return Err(e),
        }
        return Ok(scratch);
    }
    let window = app_children[0];
    match dom.kind(window).unwrap() {
        NodeKind::Element(ElementTag::Window, _) => {},
        _ => return Err(LayoutError::ExpectedWindow(window)),
    }
    let window_layout = match scratch.topology.insert_root(window) {
        Ok(id) => id,
        Err(e) => return Err(e),
    };
    scratch.nodes.insert(window_layout.raw, LayoutNodeState { dom_id: window, role: LayoutRole::Container });
    scratch.window = Some(window);
    proof {
        let w = window;
        let meta = PositioningMeta { dom_parent: None, containing_block: None, source_order: 0 };
        assert(scratch.nodes@.dom() =~= set![w@]);
        LayoutTopology::lemma_single_root_tree(&scratch.topology, scratch.nodes@.dom(), w, meta);
        assert(scratch.topology.kids().dom() =~= set![w@]);
        assert(scratch.topology.d2l().dom() =~= set![w@]);
        assert(scratch.topology.l2d().dom() =~= set![w@]);
        assert(scratch.topology.metas().dom() =~= set![w@]);
        assert(scratch.topology.parents().dom() =~= set![w@].remove(w@));
        assert(scratch.box_ok(*dom, w, w@));
        assert(scratch.inv(*dom, w));
        assert(dom.children_of(app)[0] == w);
    }
    let ghost rooted = scratch;
    match lower_children(dom, &mut scratch, window, window, window_layout, 1, depth_limit) {
        Ok(()) => {},
        Err(e) => return Err(e),
    }
    proof {
        let w = window;
        assert forall|b: u64| #[trigger] scratch.boxes().contains(b) implies scratch.complete(*dom, w, b) by {
            if b == w@ {
                assert(rooted.topology.l2d().contains_key(w@));
                assert(rooted.nodes@.contains_key(w@));
                assert(scratch.topology.l2d()[w@] == w);
                assert(scratch.nodes@[w@] == rooted.nodes@[w@]);
            }
        }
        assert forall|m: NodeId| dom.contains_node(m) && #[trigger] lays_out(*dom, w, m) implies scratch.boxes().contains(
            m@,
        ) by {
            lemma_lays_out_boxed(scratch, *dom, w, m);
        }
        assert forall|b: u64| #[trigger] scratch.topology.kids().contains_key(b) implies scratch.topology.kids()[b]
            == kids_in_order(*dom, w, scratch.topology.l2d()[b]) by {
            assert(base_kids(rooted, b) =~= Seq::<LayoutId>::empty());
            let tail = layout_ids(box_order(*dom, w, 0).filter(hangs_below(*dom, w, scratch.topology.l2d()[b])));
            assert(Seq::<LayoutId>::empty() + tail =~= tail);
        }
        assert forall|m: NodeId| #[trigger] paragraph_of(*dom, w, m) is Some implies scratch.text_owner@.contains_key(
            m@,
        ) && scratch.text_owner@[m@] == paragraph_of(*dom, w, m)->0 by {
            lemma_member_recorded(scratch, *dom, w, m);
        }
    }
    let keys = keys_of(&scratch.nodes);
    let mut sidecar_ids: HashSet<u64> = HashSet::new();
    let mut k: usize = 0;
    while k < keys.len()
        invariant
            0 <= k <= keys.len(),
            sidecar_ids@ == keys@.subrange(0, k as int).to_set(),
        decreases keys.len() - k,
    {
        sidecar_ids.insert(keys[k]);
        proof {
            assert(keys@.subrange(0, k as int + 1) =~= keys@.subrange(0, k as int).push(keys@[k as int]));
            keys@.subrange(0, k as int).lemma_push_to_set_commute(keys@[k as int]);
        }
        k += 1;
    }
    proof {
        assert(keys@.subrange(0, keys@.len() as int) =~= keys@);
        assert forall|p: Seq<u64>| #[trigger] scratch.topology.is_path(p) implies p.len()
            <= scratch.topology.kids().len() + 1 by {
            scratch.topology.lemma_path_len(sidecar_ids@, p);
        }
    }
    let depth_bound = scratch.topology.len();
    match scratch.topology.validate(&sidecar_ids, depth_bound) {
        Ok(()) => {},
        Err(e) => return Err(e),
    }
    let mut k: usize = 0;
    while k < keys.len()
        invariant
            0 <= k <= keys.len(),
            keys@.to_set() == scratch.nodes@.dom(),
            scratch.inv(*dom, window),
        decreases keys.len() - k,
    {
        let id = keys[k];
        proof {
            assert(keys@.to_set().contains(keys@[k as int]));
        }
        match scratch.nodes.get(&id) {
            Some(state) => {
                match &state.role {
                    LayoutRole::Paragraph { .. } => {
                        proof {
                            assert(scratch.box_ok(*dom, window, id));
                        }
                        match scratch.topology.children(LayoutId { raw: id }) {
                            Some(list) => {
                                if list.len() > 0 {
                                    return Err(
                                        LayoutError::InvalidParagraphChild {
                                            paragraph: state.dom_id,
                                            child: state.dom_id,
                                        },
                                    );
                                }
                            },
                            None => return Err(LayoutError::MissingLayoutNode(LayoutId { raw: id })),
                        }
                    },
                    LayoutRole::Container => {},
                }
            },
            None => {},
        }
        k += 1;
    }
    Ok(scratch)
}

} // verus!
