//! The document tree: an arena of nodes keyed by generation-checked
//! [`NodeId`]s. The App node is the permanent root; every other node is either
//! connected below it or part of a detached component that scripts may still
//! hold.

use slotmap::{DefaultKey, SlotMap};
use vstd::prelude::*;

use crate::node_id::NodeId;
use crate::slots::{
    dom_slots, DomSlots, slots_clone, slots_get, slots_insert, slots_keys, slots_len, slots_new, slots_remove,
    slots_set,
};

verus! {

/// Element tags that scripts can create.
#[derive(Clone, Copy, Debug, PartialEq, Eq, Structural)]
pub enum ElementTag {
    Window,
    Div,
    Flex,
    Grid,
    Text,
}

/// CSS `position`.
#[derive(Clone, Copy, Debug, PartialEq, Eq, Structural)]
pub enum Position {
    Static,
    Relative,
    Absolute,
    Fixed,
}

/// CSS `z-index`.
#[derive(Clone, Copy, Debug, PartialEq, Eq, Structural)]
pub enum ZIndex {
    Auto,
    Level(i32),
}

/// The style properties that tree-level algorithms read.
#[derive(Clone, Copy, Debug, PartialEq, Eq, Structural)]
pub struct ElementStyle {
    pub position: Position,
    pub z_index: ZIndex,
}

impl ElementStyle {
    /// The initial style of a new element: static, `z-index: auto`.
    pub fn initial() -> (s: ElementStyle)
        ensures
            s.position == Position::Static,
            s.z_index == ZIndex::Auto,
    {
        ElementStyle { position: Position::Static, z_index: ZIndex::Auto }
    }
}

/// A Text element.
pub open spec fn is_text_element(k: NodeKindView) -> bool {
    match k {
        NodeKindView::Element(ElementTag::Text, _) => true,
        _ => false,
    }
}

/// What a node is.
#[derive(Clone, Debug)]
pub enum NodeKind {
    /// The permanent document root.
    App,
    /// A raw text node.
    Text(String),
    /// An element with its tag and style.
    Element(ElementTag, ElementStyle),
}

/// The mathematical value of a [`NodeKind`].
pub enum NodeKindView {
    App,
    Text(Seq<char>),
    Element(ElementTag, ElementStyle),
}

impl NodeKind {
    pub open spec fn view(&self) -> NodeKindView {
        match self {
            NodeKind::App => NodeKindView::App,
            NodeKind::Text(s) => NodeKindView::Text(s@),
            NodeKind::Element(tag, style) => NodeKindView::Element(*tag, *style),
        }
    }

    pub fn duplicate(&self) -> (r: NodeKind)
        ensures
            r@ == self@,
    {
        match self {
            NodeKind::App => NodeKind::App,
            NodeKind::Text(s) => NodeKind::Text(s.clone()),
            NodeKind::Element(tag, style) => NodeKind::Element(*tag, *style),
        }
    }
}

/// One attribute of an element: its name and its value.
#[derive(Clone, Debug)]
pub struct Attribute {
    pub name: String,
    pub value: String,
}

/// Attributes as name and value pairs.
pub open spec fn attribute_pairs(s: Seq<Attribute>) -> Seq<(Seq<char>, Seq<char>)> {
    s.map_values(|a: Attribute| (a.name@, a.value@))
}

/// The attribute map that a list of attributes gives: a later entry for a
/// name wins.
pub open spec fn attribute_map(s: Seq<(Seq<char>, Seq<char>)>) -> Map<Seq<char>, Seq<char>>
    decreases s.len(),
{
    if s.len() == 0 {
        Map::empty()
    } else {
        attribute_map(s.drop_last()).insert(s.last().0, s.last().1)
    }
}

/// One arena entry: the node's kind, its two tree links and its attributes.
#[derive(Clone, Debug)]
pub struct DomNode {
    pub kind: NodeKind,
    pub parent: Option<NodeId>,
    pub children: Vec<NodeId>,
    pub attributes: Vec<Attribute>,
}

/// The mathematical value of a [`DomNode`].
pub struct DomNodeView {
    pub kind: NodeKindView,
    pub parent: Option<NodeId>,
    pub children: Seq<NodeId>,
    pub attributes: Map<Seq<char>, Seq<char>>,
}

/// `s` less its entries for `name`, and whether it had any.
fn without_attribute(s: &Vec<Attribute>, name: &String) -> (r: (Vec<Attribute>, bool))
    ensures
        attribute_map(attribute_pairs(r.0@)) == attribute_map(attribute_pairs(s@)).remove(name@),
        r.1 == attribute_map(attribute_pairs(s@)).contains_key(name@),
{
    let mut kept: Vec<Attribute> = Vec::new();
    let mut found = false;
    let mut i: usize = 0;
    let ghost pairs = attribute_pairs(s@);
    proof {
        assert(pairs.subrange(0, 0) =~= Seq::<(Seq<char>, Seq<char>)>::empty());
        assert(attribute_map(attribute_pairs(kept@)) =~= attribute_map(pairs.subrange(0, 0)).remove(name@));
    }
    while i < s.len()
        invariant
            i <= s@.len(),
            pairs == attribute_pairs(s@),
            attribute_map(attribute_pairs(kept@)) == attribute_map(pairs.subrange(0, i as int)).remove(
                name@,
            ),
            found == attribute_map(pairs.subrange(0, i as int)).contains_key(name@),
        decreases s@.len() - i,
    {
        let ghost prefix = pairs.subrange(0, i + 1);
        let ghost x = pairs[i as int];
        proof {
            assert(prefix.drop_last() =~= pairs.subrange(0, i as int));
            assert(prefix.last() == x);
        }
        if s[i].name == *name {
            found = true;
            proof {
                assert(attribute_map(prefix).remove(name@) =~= attribute_map(pairs.subrange(0, i as int)).remove(
                    name@,
                ));
            }
        } else {
            let ghost before = attribute_pairs(kept@);
            kept.push(Attribute { name: s[i].name.clone(), value: s[i].value.clone() });
            proof {
                assert(attribute_pairs(kept@) =~= before.push(x));
                assert(attribute_pairs(kept@).drop_last() =~= before);
                assert(attribute_map(attribute_pairs(kept@)) =~= attribute_map(prefix).remove(name@));
            }
        }
        i = i + 1;
    }
    proof {
        assert(pairs.subrange(0, s@.len() as int) =~= pairs);
    }
    (kept, found)
}

/// A copy of a list of attributes.
fn copy_attributes(s: &Vec<Attribute>) -> (r: Vec<Attribute>)
    ensures
        attribute_pairs(r@) == attribute_pairs(s@),
{
    let mut r: Vec<Attribute> = Vec::new();
    let mut i: usize = 0;
    while i < s.len()
        invariant
            i <= s@.len(),
            attribute_pairs(r@) == attribute_pairs(s@.subrange(0, i as int)),
        decreases s@.len() - i,
    {
        let ghost before = r@;
        r.push(Attribute { name: s[i].name.clone(), value: s[i].value.clone() });
        proof {
            assert(attribute_pairs(r@) =~= attribute_pairs(before).push((s@[i as int].name@, s@[i as int].value@)));
            assert(attribute_pairs(s@.subrange(0, i + 1)) =~= attribute_pairs(s@.subrange(0, i as int)).push(
                (s@[i as int].name@, s@[i as int].value@),
            ));
        }
        i = i + 1;
    }
    proof {
        assert(s@.subrange(0, s@.len() as int) =~= s@);
    }
    r
}

impl DomNode {
    pub open spec fn view(&self) -> DomNodeView {
        DomNodeView {
            kind: self.kind@,
            parent: self.parent,
            children: self.children@,
            attributes: attribute_map(attribute_pairs(self.attributes@)),
        }
    }

    pub fn duplicate(&self) -> (r: DomNode)
        ensures
            r@ == self@,
    {
        let mut children: Vec<NodeId> = Vec::new();
        let mut i: usize = 0;
        while i < self.children.len()
            invariant
                i <= self.children@.len(),
                children@ == self.children@.subrange(0, i as int),
            decreases self.children@.len() - i,
        {
            children.push(self.children[i]);
            i = i + 1;
        }
        proof {
            assert(children@ =~= self.children@);
        }
        let attributes = copy_attributes(&self.attributes);
        DomNode { kind: self.kind.duplicate(), parent: self.parent, children, attributes }
    }
}

/// Why a tree operation was refused.
#[derive(Clone, Copy, Debug, PartialEq, Eq, Structural)]
pub enum DomError {
    /// The identity does not name a live node.
    NodeNotFound(NodeId),
    /// The insertion would make a node its own ancestor, or move the App root.
    HierarchyRequest { parent: NodeId, child: NodeId },
    /// Raw text nodes cannot have children.
    TextCannotHaveChildren(NodeId),
    /// The insertion index lies past the end of the child list.
    IndexOutOfBounds { parent: NodeId, index: usize },
    /// The App root cannot be removed or replaced.
    RootIsPermanent,
    /// The node is not an element.
    NodeNotElement(NodeId),
}

/// `s` with its first occurrence of `x` removed (`s` itself when absent).
pub open spec fn without(s: Seq<NodeId>, x: NodeId) -> Seq<NodeId> {
    if s.contains(x) {
        s.remove(s.index_of(x))
    } else {
        s
    }
}

pub proof fn lemma_without(s: Seq<NodeId>, x: NodeId)
    requires
        s.no_duplicates(),
    ensures
        without(s, x).no_duplicates(),
        !without(s, x).contains(x),
        forall|y: NodeId| y != x ==> (without(s, x).contains(y) <==> s.contains(y)),
        without(s, x).len() == if s.contains(x) { s.len() - 1 } else { s.len() as int },
{
    if s.contains(x) {
        let i = s.index_of(x);
        let r = s.remove(i);
        assert forall|a: int, b: int| 0 <= a < b < r.len() implies r[a] != r[b] by {
            let a2 = if a < i { a } else { a + 1 };
            let b2 = if b < i { b } else { b + 1 };
            assert(r[a] == s[a2]);
            assert(r[b] == s[b2]);
        }
        assert(!r.contains(x)) by {
            if r.contains(x) {
                let j = choose|j: int| 0 <= j < r.len() && r[j] == x;
                let j2 = if j < i { j } else { j + 1 };
                assert(s[j2] == x);
            }
        }
        assert forall|y: NodeId| y != x implies (r.contains(y) <==> s.contains(y)) by {
            if s.contains(y) {
                let j = choose|j: int| 0 <= j < s.len() && s[j] == y;
                if j < i {
                    assert(r[j] == y);
                } else {
                    assert(j != i);
                    assert(r[j - 1] == y);
                }
            }
            if r.contains(y) {
                let j = choose|j: int| 0 <= j < r.len() && r[j] == y;
                let j2 = if j < i { j } else { j + 1 };
                assert(s[j2] == y);
            }
        }
    }
}

pub proof fn lemma_insert_fresh(s: Seq<NodeId>, i: int, x: NodeId)
    requires
        s.no_duplicates(),
        !s.contains(x),
        0 <= i <= s.len(),
    ensures
        s.insert(i, x).no_duplicates(),
        s.insert(i, x).contains(x),
        forall|y: NodeId| y != x ==> (s.insert(i, x).contains(y) <==> s.contains(y)),
{
    let r = s.insert(i, x);
    assert(r[i] == x);
    assert forall|a: int, b: int| 0 <= a < b < r.len() implies r[a] != r[b] by {
        if a == i {
            let b2 = if b < i { b } else { b - 1 };
            assert(r[b] == s[b2]);
        } else if b == i {
            let a2 = if a < i { a } else { a - 1 };
            assert(r[a] == s[a2]);
        } else {
            let a2 = if a < i { a } else { a - 1 };
            let b2 = if b < i { b } else { b - 1 };
            assert(r[a] == s[a2]);
            assert(r[b] == s[b2]);
        }
    }
    assert forall|y: NodeId| y != x implies (r.contains(y) <==> s.contains(y)) by {
        if s.contains(y) {
            let j = choose|j: int| 0 <= j < s.len() && s[j] == y;
            if j < i {
                assert(r[j] == y);
            } else {
                assert(r[j + 1] == y);
            }
        }
        if r.contains(y) {
            let j = choose|j: int| 0 <= j < r.len() && r[j] == y;
            assert(j != i);
            let j2 = if j < i { j } else { j - 1 };
            assert(s[j2] == y);
        }
    }
}

/// The revision that follows `r`.
pub open spec fn next_revision(r: u64) -> u64 {
    if r == u64::MAX {
        0
    } else {
        (r + 1) as u64
    }
}

/// The live document arena.
pub struct Dom {
    slots: DomSlots,
    root: NodeId,
    revision: u64,
    /// A ghost height function: every parent ranks strictly below its
    /// children, so walking up a parent chain always ends.
    rank: Ghost<Map<NodeId, nat>>,
    /// A ghost bound above every rank, so that walking down ends too.
    rank_bound: Ghost<nat>,
}

/// The most nodes the arena can hold.
pub const MAX_NODES: usize = 0xffff_fffe;

impl Dom {
    /// Every live node and its links.
    pub closed spec fn nodes(&self) -> Map<NodeId, DomNodeView> {
        dom_slots(self.slots)
    }

    /// The App root.
    pub closed spec fn root_id(&self) -> NodeId {
        self.root
    }

    /// The mutation counter.
    pub closed spec fn revision_spec(&self) -> u64 {
        self.revision
    }

    pub open spec fn contains_node(&self, id: NodeId) -> bool {
        self.nodes().contains_key(id)
    }

    pub open spec fn parent_of(&self, id: NodeId) -> Option<NodeId> {
        self.nodes()[id].parent
    }

    pub open spec fn children_of(&self, id: NodeId) -> Seq<NodeId> {
        self.nodes()[id].children
    }

    pub open spec fn attributes_of(&self, id: NodeId) -> Map<Seq<char>, Seq<char>> {
        self.nodes()[id].attributes
    }

    pub open spec fn kind_of(&self, id: NodeId) -> NodeKindView {
        self.nodes()[id].kind
    }

    /// A measure that strictly drops from a node to each of its children.
    pub closed spec fn depth_measure(&self, id: NodeId) -> nat {
        (self.rank_bound@ - self.rank@[id]) as nat
    }

    pub proof fn lemma_child_measure(&self, n: NodeId, i: int)
        requires
            self.wf(),
            self.contains_node(n),
            0 <= i < self.children_of(n).len(),
        ensures
            self.depth_measure(self.children_of(n)[i]) < self.depth_measure(n),
    {
        assert(self.node_ok(n));
        assert(self.node_ok(self.children_of(n)[i]));
    }

    pub closed spec fn rank_of(&self, id: NodeId) -> nat {
        self.rank@[id]
    }

    closed spec fn node_ok(&self, k: NodeId) -> bool {
        let n = self.nodes()[k];
        &&& self.rank@.contains_key(k)
        &&& self.rank@[k] < self.rank_bound@
        &&& (k != self.root ==> !(n.kind is App))
        &&& (n.kind is Text ==> n.children.len() == 0)
        &&& n.children.no_duplicates()
        &&& (n.parent matches Some(p) ==> {
            &&& self.nodes().contains_key(p)
            &&& self.nodes()[p].children.contains(k)
            &&& self.rank@[p] < self.rank@[k]
        })
        &&& forall|i: int|
            0 <= i < n.children.len() ==> {
                &&& self.nodes().contains_key(#[trigger] n.children[i])
                &&& self.nodes()[n.children[i]].parent == Some(k)
            }
    }

    /// The arena is a forest rooted at the App node plus detached components.
    pub closed spec fn wf(&self) -> bool {
        &&& self.nodes().dom().finite()
        &&& self.nodes().contains_key(self.root)
        &&& self.nodes()[self.root].kind is App
        &&& self.nodes()[self.root].parent is None
        &&& forall|k: NodeId| #[trigger] self.nodes().contains_key(k) ==> self.node_ok(k)
    }

    /// `n` is `a` or lies below it.
    pub closed spec fn in_subtree(&self, a: NodeId, n: NodeId) -> bool
        decreases self.rank_of(n),
    {
        if n == a {
            true
        } else if self.nodes().contains_key(n) {
            match self.nodes()[n].parent {
                Some(p) => if self.rank@[p] < self.rank@[n] {
                    self.in_subtree(a, p)
                } else {
                    false
                },
                None => false,
            }
        } else {
            false
        }
    }

    /// The topmost ancestor of `n`: the App root for a connected node, the
    /// root of its component for a detached one.
    pub closed spec fn top(&self, n: NodeId) -> NodeId
        decreases self.rank_of(n),
    {
        if self.nodes().contains_key(n) {
            match self.nodes()[n].parent {
                Some(p) => if self.rank@[p] < self.rank@[n] {
                    self.top(p)
                } else {
                    n
                },
                None => n,
            }
        } else {
            n
        }
    }

    /// Connected to the App root.
    pub open spec fn connected(&self, n: NodeId) -> bool {
        self.top(n) == self.root_id()
    }

    pub proof fn lemma_node(&self, k: NodeId)
        requires
            self.wf(),
            self.contains_node(k),
        ensures
            k != self.root_id() ==> !(self.kind_of(k) is App),
            self.kind_of(k) is Text ==> self.children_of(k).len() == 0,
            self.children_of(k).no_duplicates(),
            self.parent_of(k) matches Some(p) ==> self.contains_node(p) && self.children_of(
                p,
            ).contains(k),
            forall|i: int|
                0 <= i < self.children_of(k).len() ==> {
                    &&& self.contains_node(#[trigger] self.children_of(k)[i])
                    &&& self.parent_of(self.children_of(k)[i]) == Some(k)
                },
            k == self.root_id() ==> self.kind_of(k) is App && self.parent_of(k) is None,
            self.parent_of(k) != Some(k),
            !self.children_of(k).contains(k),
    {
        assert(self.node_ok(k));
        if self.children_of(k).contains(k) {
            let i = choose|i: int| 0 <= i < self.children_of(k).len() && self.children_of(k)[i] == k;
            assert(self.nodes()[self.children_of(k)[i]].parent == Some(k));
        }
    }

    /// A parent ranks strictly below its child and measures strictly above it.
    pub proof fn lemma_parent_rank(&self, k: NodeId)
        requires
            self.wf(),
            self.contains_node(k),
            self.parent_of(k) is Some,
        ensures
            self.contains_node(self.parent_of(k)->0),
            self.rank_of(self.parent_of(k)->0) < self.rank_of(k),
            self.depth_measure(k) < self.depth_measure(self.parent_of(k)->0),
    {
        assert(self.node_ok(k));
        assert(self.node_ok(self.parent_of(k)->0));
    }

    /// Where `n` hangs is decided by the links of its ancestors: another
    /// well-formed document that keeps those links gives `n` the same
    /// ancestors.
    pub proof fn lemma_ancestry_kept(a: &Dom, b: &Dom, n: NodeId, c: NodeId)
        requires
            a.wf(),
            b.wf(),
            a.contains_node(n),
            forall|x: NodeId| #[trigger]
                a.in_subtree(x, n) ==> b.contains_node(x) && b.parent_of(x) == a.parent_of(x),
        ensures
            b.in_subtree(c, n) == a.in_subtree(c, n),
        decreases a.rank_of(n),
    {
        a.lemma_in_subtree_refl(n);
        assert(b.contains_node(n));
        a.lemma_in_subtree_step(c, n);
        b.lemma_in_subtree_step(c, n);
        if n != c {
            match a.parent_of(n) {
                Some(p) => {
                    a.lemma_parent_rank(n);
                    a.lemma_in_subtree_refl(p);
                    a.lemma_in_subtree_step(p, n);
                    assert forall|x: NodeId| #[trigger] a.in_subtree(x, p) implies b.contains_node(x)
                        && b.parent_of(x) == a.parent_of(x) by {
                        a.lemma_in_subtree_chain(x, p, n);
                    }
                    Dom::lemma_ancestry_kept(a, b, p, c);
                },
                None => {},
            }
        }
    }

    /// Ancestry is transitive.
    pub proof fn lemma_in_subtree_chain(&self, a: NodeId, b: NodeId, x: NodeId)
        requires
            self.wf(),
            self.contains_node(x),
            self.in_subtree(a, b),
            self.in_subtree(b, x),
        ensures
            self.in_subtree(a, x),
        decreases self.rank_of(x),
    {
        if x != b {
            assert(self.node_ok(x));
            let p = self.nodes()[x].parent.unwrap();
            self.lemma_in_subtree_chain(a, b, p);
            self.lemma_in_subtree_trans(a, p, x);
        }
    }

    /// Two ancestors of one node are ancestor and descendant of each other.
    pub proof fn lemma_ancestors_comparable(&self, a: NodeId, b: NodeId, x: NodeId)
        requires
            self.wf(),
            self.contains_node(x),
            self.in_subtree(a, x),
            self.in_subtree(b, x),
        ensures
            self.in_subtree(a, b) || self.in_subtree(b, a),
        decreases self.rank_of(x),
    {
        if x != a && x != b {
            assert(self.node_ok(x));
            let p = self.nodes()[x].parent.unwrap();
            self.lemma_in_subtree_step(a, x);
            self.lemma_in_subtree_step(b, x);
            self.lemma_ancestors_comparable(a, b, p);
        }
    }

    /// A proper ancestor measures strictly above its descendant.
    pub proof fn lemma_ancestor_measure(&self, a: NodeId, x: NodeId)
        requires
            self.wf(),
            self.contains_node(x),
            self.in_subtree(a, x),
            a != x,
        ensures
            self.depth_measure(x) < self.depth_measure(a),
            self.rank_of(a) < self.rank_of(x),
    {
        assert(self.node_ok(x));
        let p = self.nodes()[x].parent.unwrap();
        self.lemma_in_subtree_step(a, x);
        self.lemma_in_subtree_rank(a, p);
        assert(self.node_ok(p));
        assert(self.node_ok(a));
    }

    /// Two distinct siblings are not both ancestors of one node.
    pub proof fn lemma_siblings_disjoint(&self, a: NodeId, b: NodeId, x: NodeId)
        requires
            self.wf(),
            self.contains_node(x),
            self.contains_node(a),
            self.contains_node(b),
            a != b,
            self.parent_of(a) is Some,
            self.parent_of(a) == self.parent_of(b),
            self.in_subtree(a, x),
        ensures
            !self.in_subtree(b, x),
        decreases self.rank_of(x),
    {
        assert(self.node_ok(a));
        assert(self.node_ok(b));
        let p = self.parent_of(a)->0;
        if x == a {
            if self.in_subtree(b, x) {
                self.lemma_in_subtree_step(b, a);
                self.lemma_in_subtree_rank(b, p);
            }
        } else if x == b {
            self.lemma_in_subtree_step(a, b);
            self.lemma_in_subtree_rank(a, p);
        } else {
            assert(self.node_ok(x));
            let q = self.nodes()[x].parent.unwrap();
            self.lemma_in_subtree_step(a, x);
            self.lemma_in_subtree_step(b, x);
            self.lemma_siblings_disjoint(a, b, q);
        }
    }

    /// The App root is a live parentless App node, and the arena is finite.
    pub proof fn lemma_root(&self)
        requires
            self.wf(),
        ensures
            self.contains_node(self.root_id()),
            self.kind_of(self.root_id()) is App,
            self.parent_of(self.root_id()) is None,
            self.nodes().dom().finite(),
    {
    }

    /// Every node lies in its own subtree.
    pub proof fn lemma_in_subtree_refl(&self, a: NodeId)
        ensures
            self.in_subtree(a, a),
    {
    }

    /// Unfolds [`Dom::in_subtree`] one step.
    pub proof fn lemma_in_subtree_step(&self, a: NodeId, n: NodeId)
        requires
            self.wf(),
            self.contains_node(n),
        ensures
            self.in_subtree(a, n) == (n == a || (self.parent_of(n) matches Some(p)
                && self.in_subtree(a, p))),
    {
        assert(self.node_ok(n));
    }

    /// An ancestor ranks no higher than its descendant.
    pub proof fn lemma_in_subtree_rank(&self, a: NodeId, n: NodeId)
        requires
            self.wf(),
            self.in_subtree(a, n),
            self.contains_node(n),
        ensures
            self.contains_node(a),
            self.rank_of(a) <= self.rank_of(n),
        decreases self.rank_of(n),
    {
        assert(self.node_ok(n));
        if n != a {
            let p = self.nodes()[n].parent.unwrap();
            assert(self.node_ok(p));
            self.lemma_in_subtree_rank(a, p);
        }
    }

    /// The top of every live node is a live node without a parent, and every
    /// node lies in the subtree of its top.
    pub proof fn lemma_top(&self, n: NodeId)
        requires
            self.wf(),
            self.contains_node(n),
        ensures
            self.contains_node(self.top(n)),
            self.parent_of(self.top(n)) is None,
            self.in_subtree(self.top(n), n),
        decreases self.rank_of(n),
    {
        assert(self.node_ok(n));
        match self.nodes()[n].parent {
            Some(p) => {
                assert(self.node_ok(p));
                self.lemma_top(p);
                self.lemma_in_subtree_trans(self.top(n), p, n);
            },
            None => {},
        }
    }

    /// A node below `p` where `p` is the parent of `n` puts `n` below it too.
    proof fn lemma_in_subtree_trans(&self, a: NodeId, p: NodeId, n: NodeId)
        requires
            self.wf(),
            self.contains_node(n),
            self.parent_of(n) == Some(p),
            self.in_subtree(a, p),
        ensures
            self.in_subtree(a, n),
    {
        assert(self.node_ok(n));
    }

    /// Two nodes in one subtree have the same top.
    pub proof fn lemma_subtree_same_top(&self, a: NodeId, n: NodeId)
        requires
            self.wf(),
            self.contains_node(n),
            self.in_subtree(a, n),
        ensures
            self.top(a) == self.top(n),
        decreases self.rank_of(n),
    {
        assert(self.node_ok(n));
        if n != a {
            let p = self.nodes()[n].parent.unwrap();
            assert(self.node_ok(p));
            self.lemma_subtree_same_top(a, p);
        }
    }

    /// A parentless node is its own top, and a node whose top is `t` lies in
    /// the subtree of `t`.
    pub proof fn lemma_top_of_root(&self, n: NodeId)
        requires
            self.wf(),
            self.contains_node(n),
            self.parent_of(n) is None,
        ensures
            self.top(n) == n,
    {
    }

    /// Creates the document with its App root.
    pub fn new() -> (dom: Dom)
        ensures
            dom.wf(),
            dom.revision_spec() == 0,
            dom.nodes().dom() == set![dom.root_id()],
            dom.kind_of(dom.root_id()) == NodeKindView::App,
            dom.children_of(dom.root_id()) == Seq::<NodeId>::empty(),
    {
        let mut slots = slots_new();
        let root = slots_insert(
            &mut slots,
            DomNode { kind: NodeKind::App, parent: None, children: Vec::new(), attributes: Vec::new() },
        );
        let dom = Dom { slots, root, revision: 0, rank: Ghost(Map::<NodeId, nat>::empty().insert(root, 0nat)), rank_bound: Ghost(1nat) };
        proof {
            assert(dom.nodes().dom() =~= set![root]);
            assert forall|k: NodeId| #[trigger] dom.nodes().contains_key(k) implies dom.node_ok(
                k,
            ) by {
                assert(k == root);
            }
        }
        dom
    }

    pub fn root(&self) -> (r: NodeId)
        ensures
            r == self.root_id(),
    {
        self.root
    }

    pub fn revision(&self) -> (r: u64)
        ensures
            r == self.revision_spec(),
    {
        self.revision
    }

    pub fn len(&self) -> (n: usize)
        requires
            self.wf(),
        ensures
            n == self.nodes().len(),
    {
        slots_len(&self.slots)
    }

    pub fn contains(&self, id: NodeId) -> (r: bool)
        ensures
            r == self.contains_node(id),
    {
        slots_get(&self.slots, id).is_some()
    }

    pub fn node(&self, id: NodeId) -> (r: Option<&DomNode>)
        ensures
            r is Some <==> self.contains_node(id),
            r matches Some(n) ==> n@ == self.nodes()[id],
    {
        slots_get(&self.slots, id)
    }

    pub fn kind(&self, id: NodeId) -> (r: Option<&NodeKind>)
        ensures
            r is Some <==> self.contains_node(id),
            r matches Some(k) ==> k@ == self.kind_of(id),
    {
        match slots_get(&self.slots, id) {
            Some(node) => Some(&node.kind),
            None => None,
        }
    }

    pub fn parent(&self, id: NodeId) -> (r: Option<NodeId>)
        ensures
            r == if self.contains_node(id) {
                self.parent_of(id)
            } else {
                None
            },
    {
        match slots_get(&self.slots, id) {
            Some(node) => node.parent,
            None => None,
        }
    }

    pub fn children(&self, id: NodeId) -> (r: Option<&Vec<NodeId>>)
        ensures
            r is Some <==> self.contains_node(id),
            r matches Some(c) ==> c@ == self.children_of(id),
    {
        match slots_get(&self.slots, id) {
            Some(node) => Some(&node.children),
            None => None,
        }
    }

    /// Whether `a` is `n` or one of its ancestors.
    pub fn is_inclusive_ancestor(&self, a: NodeId, n: NodeId) -> (r: bool)
        requires
            self.wf(),
            self.contains_node(n),
        ensures
            r == self.in_subtree(a, n),
    {
        let mut cur = n;
        loop
            invariant
                self.wf(),
                self.contains_node(cur),
                self.in_subtree(a, n) == self.in_subtree(a, cur),
            decreases self.rank_of(cur),
        {
            if cur == a {
                return true;
            }
            proof {
                assert(self.node_ok(cur));
            }
            match self.parent(cur) {
                Some(p) => {
                    cur = p;
                },
                None => {
                    return false;
                },
            }
        }
    }

    /// The topmost ancestor of a live node.
    pub fn top_ancestor(&self, n: NodeId) -> (r: NodeId)
        requires
            self.wf(),
            self.contains_node(n),
        ensures
            r == self.top(n),
    {
        let mut cur = n;
        loop
            invariant
                self.wf(),
                self.contains_node(cur),
                self.top(n) == self.top(cur),
            decreases self.rank_of(cur),
        {
            proof {
                assert(self.node_ok(cur));
            }
            match self.parent(cur) {
                Some(p) => {
                    cur = p;
                },
                None => {
                    return cur;
                },
            }
        }
    }

    /// Whether a live node is connected to the App root.
    /// The tag of an element.
    pub fn element_tag(&self, id: NodeId) -> (r: Result<ElementTag, DomError>)
        requires
            self.wf(),
        ensures
            !self.contains_node(id) ==> r == Err::<ElementTag, DomError>(DomError::NodeNotFound(id)),
            self.contains_node(id) ==> match self.kind_of(id) {
                NodeKindView::Element(tag, _) => r == Ok::<ElementTag, DomError>(tag),
                _ => r == Err::<ElementTag, DomError>(DomError::NodeNotElement(id)),
            },
    {
        match self.kind(id) {
            None => Err(DomError::NodeNotFound(id)),
            Some(NodeKind::Element(tag, _)) => Ok(*tag),
            Some(_) => Err(DomError::NodeNotElement(id)),
        }
    }

    pub fn is_connected(&self, id: NodeId) -> (r: Result<bool, DomError>)
        requires
            self.wf(),
        ensures
            r == if self.contains_node(id) {
                Ok::<bool, DomError>(self.connected(id))
            } else {
                Err(DomError::NodeNotFound(id))
            },
    {
        if !self.contains(id) {
            return Err(DomError::NodeNotFound(id));
        }
        Ok(self.top_ancestor(id) == self.root)
    }
}


/// The node map after `child` is unlinked from its parent.
pub open spec fn detach_spec(nodes: Map<NodeId, DomNodeView>, child: NodeId) -> Map<
    NodeId,
    DomNodeView,
> {
    match nodes[child].parent {
        Some(p) => nodes.insert(
            p,
            DomNodeView {
                kind: nodes[p].kind,
                parent: nodes[p].parent,
                children: without(nodes[p].children, child),
                attributes: nodes[p].attributes,
            },
        ).insert(
            child,
            DomNodeView {
                kind: nodes[child].kind,
                parent: None,
                children: nodes[child].children,
                attributes: nodes[child].attributes,
            },
        ),
        None => nodes,
    }
}

/// The node map after the parentless `child` is linked in at `index` of
/// `parent`'s children.
pub open spec fn attach_spec(
    nodes: Map<NodeId, DomNodeView>,
    parent: NodeId,
    index: int,
    child: NodeId,
) -> Map<NodeId, DomNodeView> {
    nodes.insert(
        parent,
        DomNodeView {
            kind: nodes[parent].kind,
            parent: nodes[parent].parent,
            children: nodes[parent].children.insert(index, child),
            attributes: nodes[parent].attributes,
        },
    ).insert(
        child,
        DomNodeView {
            kind: nodes[child].kind,
            parent: Some(parent),
            children: nodes[child].children,
            attributes: nodes[child].attributes,
        },
    )
}

/// The node map after `child` moves to position `index` of `parent`'s
/// children, the position counting the children other than `child`.
pub open spec fn insert_spec(
    nodes: Map<NodeId, DomNodeView>,
    parent: NodeId,
    index: int,
    child: NodeId,
) -> Map<NodeId, DomNodeView> {
    attach_spec(detach_spec(nodes, child), parent, index, child)
}

impl Dom {
    fn bump_revision(&mut self)
        ensures
            final(self).revision == next_revision(old(self).revision),
            final(self).slots == old(self).slots,
            final(self).root == old(self).root,
            final(self).rank == old(self).rank,
            final(self).rank_bound == old(self).rank_bound,
    {
        if self.revision == u64::MAX {
            self.revision = 0;
        } else {
            self.revision = self.revision + 1;
        }
    }

    /// Adds a detached node.
    pub fn create(&mut self, kind: NodeKind) -> (id: NodeId)
        requires
            old(self).wf(),
            old(self).nodes().len() < MAX_NODES,
            !(kind@ is App),
        ensures
            final(self).wf(),
            !old(self).contains_node(id),
            final(self).nodes() == old(self).nodes().insert(
                id,
                DomNodeView { kind: kind@, parent: None, children: Seq::empty(), attributes: Map::empty() },
            ),
            final(self).root_id() == old(self).root_id(),
            final(self).revision_spec() == next_revision(old(self).revision_spec()),
    {
        let ghost kv = kind@;
        let id = slots_insert(
            &mut self.slots,
            DomNode { kind, parent: None, children: Vec::new(), attributes: Vec::new() },
        );
        self.bump_revision();
        proof {
            let ghost pre = *old(self);
            self.rank@ = self.rank@.insert(id, 0);
            assert(pre.node_ok(pre.root));
            assert forall|k: NodeId| #[trigger] self.nodes().contains_key(k) implies self.node_ok(
                k,
            ) by {
                if k != id {
                    assert(pre.node_ok(k));
                    let n = self.nodes()[k];
                    assert forall|i: int| 0 <= i < n.children.len() implies {
                        &&& self.nodes().contains_key(#[trigger] n.children[i])
                        &&& self.nodes()[n.children[i]].parent == Some(k)
                    } by {
                        assert(pre.nodes().contains_key(n.children[i]));
                    }
                }
            }
        }
        id
    }

    /// Unlinks a live node from its parent, keeping every invariant.
    fn unlink(&mut self, child: NodeId)
        requires
            old(self).wf(),
            old(self).contains_node(child),
        ensures
            final(self).wf(),
            final(self).nodes() == detach_spec(old(self).nodes(), child),
            final(self).root == old(self).root,
            final(self).rank == old(self).rank,
            final(self).rank_bound == old(self).rank_bound,
            final(self).revision == old(self).revision,
    {
        let ghost pre = *old(self);
        proof {
            assert(pre.node_ok(child));
        }
        let p = match self.parent(child) {
            Some(p) => p,
            None => {
                return;
            },
        };
        proof {
            assert(pre.node_ok(p));
            lemma_without(pre.nodes()[p].children, child);
        }
        let mut pnode = self.node(p).unwrap().duplicate();
        let pos = position_of(&pnode.children, child);
        let i = pos.unwrap();
        proof {
            let s = pre.nodes()[p].children;
            let j = s.index_of(child);
            assert(s[j] == child);
            assert(s.no_duplicates());
            assert(i == j);
        }
        pnode.children.remove(i);
        slots_set(&mut self.slots, p, pnode);
        let mut cnode = self.node(child).unwrap().duplicate();
        cnode.parent = None;
        slots_set(&mut self.slots, child, cnode);
        proof {
            assert(self.nodes() =~= detach_spec(pre.nodes(), child));
            assert forall|k: NodeId| #[trigger] self.nodes().contains_key(k) implies self.node_ok(
                k,
            ) by {
                assert(pre.node_ok(k));
                let n = self.nodes()[k];
                let on = pre.nodes()[k];
                if let Some(q) = n.parent {
                    assert(pre.node_ok(q));
                    if q == p {
                        assert(k != child);
                    }
                }
                assert forall|i: int| 0 <= i < n.children.len() implies {
                    &&& self.nodes().contains_key(#[trigger] n.children[i])
                    &&& self.nodes()[n.children[i]].parent == Some(k)
                } by {
                    let c = n.children[i];
                    if k == p {
                        assert(pre.nodes()[p].children.contains(c));
                        assert(c != child);
                    } else {
                        assert(on.children[i] == c);
                        if c == child {
                            assert(pre.nodes()[child].parent == Some(k));
                        }
                    }
                }
            }
        }
    }

    /// Unlinks a node from its parent; detaching a parentless node changes
    /// nothing but the revision.
    pub fn detach(&mut self, child: NodeId) -> (r: Result<(), DomError>)
        requires
            old(self).wf(),
        ensures
            final(self).wf(),
            final(self).root_id() == old(self).root_id(),
            r is Ok <==> old(self).contains_node(child),
            r is Err ==> r == Err::<(), DomError>(DomError::NodeNotFound(child)) && *final(self)
                == *old(self),
            r is Ok ==> final(self).nodes() == detach_spec(old(self).nodes(), child)
                && final(self).revision_spec() == next_revision(old(self).revision_spec()),
    {
        if !self.contains(child) {
            return Err(DomError::NodeNotFound(child));
        }
        self.unlink(child);
        self.bump_revision();
        Ok(())
    }
}

impl Dom {
    /// Why inserting `child` at `index` of `parent` is refused, if it is.
    pub open spec fn insert_error(&self, parent: NodeId, index: usize, child: NodeId) -> Option<
        DomError,
    > {
        if !self.contains_node(parent) {
            Some(DomError::NodeNotFound(parent))
        } else if !self.contains_node(child) {
            Some(DomError::NodeNotFound(child))
        } else if self.kind_of(parent) is Text {
            Some(DomError::TextCannotHaveChildren(parent))
        } else if child == self.root_id() || self.in_subtree(child, parent) {
            Some(DomError::HierarchyRequest { parent, child })
        } else if index > without(self.children_of(parent), child).len() {
            Some(DomError::IndexOutOfBounds { parent, index })
        } else {
            None
        }
    }

    proof fn lemma_unlink_keeps_outside(pre: &Dom, post: &Dom, child: NodeId, n: NodeId)
        requires
            pre.wf(),
            post.wf(),
            post.nodes() == detach_spec(pre.nodes(), child),
            post.rank == pre.rank,
            pre.contains_node(n),
            !pre.in_subtree(child, n),
        ensures
            !post.in_subtree(child, n),
        decreases pre.rank@[n],
    {
        assert(pre.node_ok(n));
        assert(post.nodes().contains_key(n));
        assert(post.node_ok(n));
        if let Some(q) = pre.nodes()[n].parent {
            assert(pre.node_ok(q));
            Dom::lemma_unlink_keeps_outside(pre, post, child, q);
        }
    }

    /// Links the parentless `child` in at `index` of `parent`, raising the
    /// ghost ranks of `child`'s subtree above `parent`.
    fn attach(&mut self, parent: NodeId, index: usize, child: NodeId)
        requires
            old(self).wf(),
            old(self).contains_node(parent),
            old(self).contains_node(child),
            old(self).parent_of(child) is None,
            child != old(self).root_id(),
            !old(self).in_subtree(child, parent),
            !(old(self).kind_of(parent) is Text),
            index <= old(self).children_of(parent).len(),
        ensures
            final(self).wf(),
            final(self).nodes() == attach_spec(old(self).nodes(), parent, index as int, child),
            final(self).root == old(self).root,
            final(self).revision == old(self).revision,
    {
        let ghost pre = *old(self);
        proof {
            assert(pre.node_ok(parent));
            assert(pre.node_ok(child));
            if pre.nodes()[parent].children.contains(child) {
                let j = choose|j: int|
                    0 <= j < pre.nodes()[parent].children.len() && pre.nodes()[parent].children[j]
                        == child;
                assert(pre.nodes()[pre.nodes()[parent].children[j]].parent == Some(parent));
            }
            lemma_insert_fresh(pre.nodes()[parent].children, index as int, child);
        }
        let mut pnode = self.node(parent).unwrap().duplicate();
        pnode.children.insert(index, child);
        slots_set(&mut self.slots, parent, pnode);
        let mut cnode = self.node(child).unwrap().duplicate();
        cnode.parent = Some(parent);
        slots_set(&mut self.slots, child, cnode);
        proof {
            let old_rank = pre.rank@;
            let delta: nat = if old_rank[parent] + 1 > old_rank[child] {
                (old_rank[parent] + 1 - old_rank[child]) as nat
            } else {
                0
            };
            let new_rank = Map::new(
                |k: NodeId| old_rank.contains_key(k),
                |k: NodeId|
                    if pre.in_subtree(child, k) {
                        old_rank[k] + delta
                    } else {
                        old_rank[k]
                    },
            );
            self.rank@ = new_rank;
            self.rank_bound@ = pre.rank_bound@ + delta;
            assert(self.nodes() =~= attach_spec(pre.nodes(), parent, index as int, child));
            assert forall|k: NodeId| #[trigger] self.nodes().contains_key(k) implies self.node_ok(
                k,
            ) by {
                assert(pre.node_ok(k));
                let n = self.nodes()[k];
                let on = pre.nodes()[k];
                if let Some(q) = n.parent {
                    if k == child {
                        assert(q == parent);
                    } else {
                        assert(on.parent == Some(q));
                        assert(pre.node_ok(q));
                        assert(pre.in_subtree(child, k) == pre.in_subtree(child, q));
                        if q == parent {
                            assert(pre.nodes()[parent].children.contains(k));
                        }
                    }
                }
                assert forall|i: int| 0 <= i < n.children.len() implies {
                    &&& self.nodes().contains_key(#[trigger] n.children[i])
                    &&& self.nodes()[n.children[i]].parent == Some(k)
                } by {
                    let c = n.children[i];
                    if k == parent {
                        if c != child {
                            assert(pre.nodes()[parent].children.contains(c));
                            let j = choose|j: int|
                                0 <= j < pre.nodes()[parent].children.len()
                                    && pre.nodes()[parent].children[j] == c;
                            assert(pre.nodes()[pre.nodes()[parent].children[j]].parent == Some(
                                parent,
                            ));
                        }
                    } else {
                        assert(on.children[i] == c);
                        assert(pre.nodes()[c].parent == Some(k));
                        assert(c != child);
                    }
                }
            }
        }
    }

    /// Moves `child` to position `index` among `parent`'s children, where the
    /// position counts the children other than `child`.
    pub fn insert_child(&mut self, parent: NodeId, index: usize, child: NodeId) -> (r: Result<
        (),
        DomError,
    >)
        requires
            old(self).wf(),
        ensures
            final(self).wf(),
            final(self).root_id() == old(self).root_id(),
            r matches Err(e) ==> old(self).insert_error(parent, index, child) == Some(e)
                && *final(self) == *old(self),
            r is Ok ==> old(self).insert_error(parent, index, child) is None
                && final(self).nodes() == insert_spec(old(self).nodes(), parent, index as int, child)
                && final(self).revision_spec() == next_revision(old(self).revision_spec()),
    {
        let ghost pre = *old(self);
        if !self.contains(parent) {
            return Err(DomError::NodeNotFound(parent));
        }
        if !self.contains(child) {
            return Err(DomError::NodeNotFound(child));
        }
        if let Some(NodeKind::Text(_)) = self.kind(parent) {
            return Err(DomError::TextCannotHaveChildren(parent));
        }
        if child == self.root || self.is_inclusive_ancestor(child, parent) {
            return Err(DomError::HierarchyRequest { parent, child });
        }
        let current = self.children(parent).unwrap().len();
        let already_here = match self.parent(child) {
            Some(p) => p == parent,
            None => false,
        };
        proof {
            assert(pre.node_ok(parent));
            assert(pre.node_ok(child));
            lemma_without(pre.nodes()[parent].children, child);
            if already_here {
                assert(pre.nodes()[parent].children.contains(child));
            } else if pre.nodes()[parent].children.contains(child) {
                let j = choose|j: int|
                    0 <= j < pre.nodes()[parent].children.len() && pre.nodes()[parent].children[j]
                        == child;
                assert(pre.nodes()[pre.nodes()[parent].children[j]].parent == Some(parent));
            }
        }
        let available = if already_here {
            current - 1
        } else {
            current
        };
        if index > available {
            return Err(DomError::IndexOutOfBounds { parent, index });
        }
        self.unlink(child);
        proof {
            Dom::lemma_unlink_keeps_outside(&pre, self, child, parent);
            assert(self.nodes()[parent].children == without(pre.nodes()[parent].children, child));
        }
        self.attach(parent, index, child);
        self.bump_revision();
        Ok(())
    }

    /// Why appending `child` to `parent` is refused, if it is.
    pub open spec fn append_error(&self, parent: NodeId, child: NodeId) -> Option<DomError> {
        if !self.contains_node(parent) {
            Some(DomError::NodeNotFound(parent))
        } else if !self.contains_node(child) {
            Some(DomError::NodeNotFound(child))
        } else if self.kind_of(parent) is Text {
            Some(DomError::TextCannotHaveChildren(parent))
        } else if child == self.root_id() || self.in_subtree(child, parent) {
            Some(DomError::HierarchyRequest { parent, child })
        } else {
            None
        }
    }

    /// Moves `child` to the end of `parent`'s children.
    pub fn append_child(&mut self, parent: NodeId, child: NodeId) -> (r: Result<(), DomError>)
        requires
            old(self).wf(),
        ensures
            final(self).wf(),
            final(self).root_id() == old(self).root_id(),
            r matches Err(e) ==> old(self).append_error(parent, child) == Some(e) && *final(self)
                == *old(self),
            r is Ok ==> old(self).append_error(parent, child) is None && final(self).nodes()
                == insert_spec(
                old(self).nodes(),
                parent,
                without(old(self).children_of(parent), child).len() as int,
                child,
            ) && final(self).revision_spec() == next_revision(old(self).revision_spec()),
    {
        let ghost pre = *old(self);
        if !self.contains(parent) {
            return Err(DomError::NodeNotFound(parent));
        }
        let current = self.children(parent).unwrap().len();
        let already_here = match self.parent(child) {
            Some(p) => p == parent,
            None => false,
        };
        proof {
            assert(pre.node_ok(parent));
            lemma_without(pre.nodes()[parent].children, child);
            if already_here {
                assert(pre.nodes()[child].parent == Some(parent));
                assert(pre.node_ok(child));
                assert(pre.nodes()[parent].children.contains(child));
            } else if pre.nodes()[parent].children.contains(child) {
                let j = choose|j: int|
                    0 <= j < pre.nodes()[parent].children.len() && pre.nodes()[parent].children[j]
                        == child;
                assert(pre.nodes()[pre.nodes()[parent].children[j]].parent == Some(parent));
            }
        }
        let index = if already_here {
            current - 1
        } else {
            current
        };
        self.insert_child(parent, index, child)
    }
}

impl Dom {
    /// The nodes of the subtree rooted at `target`.
    pub open spec fn subtree_set(&self, target: NodeId) -> Set<NodeId> {
        Set::new(|k: NodeId| self.contains_node(k) && self.in_subtree(target, k))
    }

    /// Removes `target` and everything below it from the arena.
    pub fn remove_subtree(&mut self, target: NodeId) -> (r: Result<(), DomError>)
        requires
            old(self).wf(),
        ensures
            final(self).wf(),
            final(self).root_id() == old(self).root_id(),
            !old(self).contains_node(target) ==> r == Err::<(), DomError>(
                DomError::NodeNotFound(target),
            ),
            old(self).contains_node(target) && target == old(self).root_id() ==> r == Err::<
                (),
                DomError,
            >(DomError::RootIsPermanent),
            r is Err ==> *final(self) == *old(self),
            r is Ok <==> old(self).contains_node(target) && target != old(self).root_id(),
            r is Ok ==> final(self).nodes() == detach_spec(old(self).nodes(), target).remove_keys(
                old(self).subtree_set(target),
            ) && final(self).revision_spec() == next_revision(old(self).revision_spec()),
    {
        let ghost pre = *old(self);
        if !self.contains(target) {
            return Err(DomError::NodeNotFound(target));
        }
        if target == self.root {
            return Err(DomError::RootIsPermanent);
        }
        let keys = slots_keys(&self.slots);
        let mut victims: Vec<NodeId> = Vec::new();
        let mut i: usize = 0;
        while i < keys.len()
            invariant
                *self == pre,
                pre.wf(),
                i <= keys@.len(),
                keys@.no_duplicates(),
                forall|j: int| 0 <= j < keys@.len() ==> pre.nodes().contains_key(#[trigger] keys@[j]),
                victims@.no_duplicates(),
                forall|v: NodeId|
                    #![trigger victims@.contains(v)]
                    #![trigger keys@.subrange(0, i as int).contains(v)]
                    victims@.contains(v) <==> (keys@.subrange(0, i as int).contains(v)
                        && pre.in_subtree(target, v)),
            decreases keys@.len() - i,
        {
            let k = keys[i];
            proof {
                lemma_prefix_step(keys@, i as int);
                assert(!victims@.contains(k));
            }
            let ghost before = victims@;
            if self.is_inclusive_ancestor(target, k) {
                proof {
                    lemma_insert_fresh(victims@, victims@.len() as int, k);
                }
                victims.push(k);
                proof {
                    assert(victims@ == before.insert(before.len() as int, k));
                }
            }
            i = i + 1;
            proof {
                lemma_prefix_step(keys@, i - 1);
                assert(keys@.subrange(0, i as int) == keys@.subrange(0, (i - 1) + 1));
                assert forall|v: NodeId|
                    #![trigger victims@.contains(v)]
                    #![trigger keys@.subrange(0, i as int).contains(v)]
                    victims@.contains(v) <==> (keys@.subrange(0, i as int).contains(v)
                        && pre.in_subtree(target, v)) by {
                    assert(keys@.subrange(0, i as int).contains(v) <==> keys@.subrange(0, (i - 1) + 1).contains(v));
                }
            }
        }
        proof {
            assert(keys@.subrange(0, keys@.len() as int) =~= keys@);
            assert(victims@.to_set() =~= pre.subtree_set(target));
        }
        self.unlink(target);
        let ghost mid = *self;
        let mut j: usize = 0;
        while j < victims.len()
            invariant
                mid.wf(),
                mid.nodes() == detach_spec(pre.nodes(), target),
                self.nodes() == mid.nodes().remove_keys(victims@.subrange(0, j as int).to_set()),
                self.root == mid.root,
                self.rank == mid.rank,
                self.rank_bound == mid.rank_bound,
                self.revision == mid.revision,
                j <= victims@.len(),
            decreases victims@.len() - j,
        {
            let v = victims[j];
            let _ = slots_remove(&mut self.slots, v);
            proof {
                lemma_prefix_step(victims@, j as int);
                assert(self.nodes() =~= mid.nodes().remove_keys(
                    victims@.subrange(0, j + 1).to_set(),
                ));
            }
            j = j + 1;
        }
        self.bump_revision();
        proof {
            assert(victims@.subrange(0, victims@.len() as int) =~= victims@);
            let gone = pre.subtree_set(target);
            assert(self.nodes() =~= detach_spec(pre.nodes(), target).remove_keys(gone));
            assert(pre.node_ok(target));
            assert(!gone.contains(pre.root));
            assert(mid.node_ok(mid.root));
            assert(self.nodes().contains_key(self.root));
            assert(self.nodes()[self.root] == mid.nodes()[mid.root]);
            assert(self.nodes().dom() =~= mid.nodes().dom().difference(gone));
            assert forall|k: NodeId| #[trigger] self.nodes().contains_key(k) implies self.node_ok(
                k,
            ) by {
                assert(mid.nodes().contains_key(k));
                assert(mid.node_ok(k));
                assert(pre.node_ok(k));
                assert(!pre.in_subtree(target, k));
                assert(k != target);
                let n = self.nodes()[k];
                if let Some(q) = n.parent {
                    assert(pre.nodes()[k].parent == Some(q));
                    if pre.in_subtree(target, q) {
                        pre.lemma_in_subtree_trans(target, q, k);
                    }
                }
                assert forall|i: int| 0 <= i < n.children.len() implies {
                    &&& self.nodes().contains_key(#[trigger] n.children[i])
                    &&& self.nodes()[n.children[i]].parent == Some(k)
                } by {
                    let c = n.children[i];
                    assert(mid.nodes().contains_key(c));
                    assert(mid.nodes()[c].parent == Some(k));
                    if c != target {
                        assert(pre.nodes()[c].parent == Some(k));
                        if pre.in_subtree(target, c) {
                            pre.lemma_in_subtree_step(target, c);
                        }
                    }
                }
            }
        }
        Ok(())
    }

    /// Why replacing the kind of `id` is refused, if it is.
    pub open spec fn set_kind_error(&self, id: NodeId, kind: NodeKindView) -> Option<DomError> {
        if !self.contains_node(id) {
            Some(DomError::NodeNotFound(id))
        } else if id == self.root_id() || kind is App {
            Some(DomError::RootIsPermanent)
        } else if kind is Text && self.children_of(id).len() > 0 {
            Some(DomError::TextCannotHaveChildren(id))
        } else {
            None
        }
    }

    /// Replaces what a node is, keeping its links.
    pub fn set_kind(&mut self, id: NodeId, kind: NodeKind) -> (r: Result<(), DomError>)
        requires
            old(self).wf(),
        ensures
            final(self).wf(),
            final(self).root_id() == old(self).root_id(),
            r matches Err(e) ==> old(self).set_kind_error(id, kind@) == Some(e) && *final(self)
                == *old(self),
            r is Ok ==> old(self).set_kind_error(id, kind@) is None && final(self).nodes()
                == old(self).nodes().insert(
                id,
                DomNodeView {
                    kind: kind@,
                    parent: old(self).parent_of(id),
                    children: old(self).children_of(id),
                    attributes: old(self).attributes_of(id),
                },
            ) && final(self).revision_spec() == next_revision(old(self).revision_spec()),
    {
        let ghost pre = *old(self);
        let ghost kv = kind@;
        if !self.contains(id) {
            return Err(DomError::NodeNotFound(id));
        }
        let is_app = match &kind {
            NodeKind::App => true,
            _ => false,
        };
        if id == self.root || is_app {
            return Err(DomError::RootIsPermanent);
        }
        let is_text = match &kind {
            NodeKind::Text(_) => true,
            _ => false,
        };
        if is_text && self.children(id).unwrap().len() > 0 {
            return Err(DomError::TextCannotHaveChildren(id));
        }
        let mut node = self.node(id).unwrap().duplicate();
        node.kind = kind;
        slots_set(&mut self.slots, id, node);
        self.bump_revision();
        proof {
            assert forall|k: NodeId| #[trigger] self.nodes().contains_key(k) implies self.node_ok(
                k,
            ) by {
                assert(pre.node_ok(k));
                let n = self.nodes()[k];
                if let Some(q) = n.parent {
                    assert(pre.node_ok(q));
                }
                assert forall|i: int| 0 <= i < n.children.len() implies {
                    &&& self.nodes().contains_key(#[trigger] n.children[i])
                    &&& self.nodes()[n.children[i]].parent == Some(k)
                } by {
                    assert(pre.nodes()[k].children[i] == n.children[i]);
                }
            }
        }
        Ok(())
    }

    /// The value of attribute `name` of the live node `id`.
    pub fn attribute(&self, id: NodeId, name: &str) -> (r: Option<String>)
        requires
            self.contains_node(id),
        ensures
            r is Some <==> self.attributes_of(id).contains_key(name@),
            r matches Some(v) ==> v@ == self.attributes_of(id)[name@],
    {
        let node = self.node(id).unwrap();
        let key = name.to_owned();
        let ghost pairs = attribute_pairs(node.attributes@);
        let mut i: usize = node.attributes.len();
        proof {
            assert(pairs.subrange(0, i as int) =~= pairs);
            assert(self.attributes_of(id) == attribute_map(pairs));
        }
        while i > 0
            invariant
                i <= node.attributes@.len(),
                key@ == name@,
                self.attributes_of(id) == attribute_map(pairs),
                pairs == attribute_pairs(node.attributes@),
                attribute_map(pairs.subrange(0, i as int)).contains_key(key@) == attribute_map(
                    pairs,
                ).contains_key(key@),
                attribute_map(pairs.subrange(0, i as int)).contains_key(key@) ==> attribute_map(
                    pairs.subrange(0, i as int),
                )[key@] == attribute_map(pairs)[key@],
            decreases i,
        {
            i = i - 1;
            let prefix = Ghost(pairs.subrange(0, i + 1));
            proof {
                assert(prefix@.drop_last() =~= pairs.subrange(0, i as int));
                assert(prefix@.last() == (node.attributes@[i as int].name@, node.attributes@[i as int].value@));
            }
            if node.attributes[i].name == key {
                proof {
                    assert(attribute_map(prefix@) == attribute_map(prefix@.drop_last()).insert(
                        prefix@.last().0,
                        prefix@.last().1,
                    ));
                }
                return Some(node.attributes[i].value.clone());
            }
        }
        proof {
            assert(pairs.subrange(0, 0) =~= Seq::<(Seq<char>, Seq<char>)>::empty());
        }
        None
    }

    /// Sets attribute `name` of the node `id` to `value`; raw text nodes
    /// have no attributes.
    pub fn set_attribute(&mut self, id: NodeId, name: String, value: String) -> (r: Result<(), DomError>)
        requires
            old(self).wf(),
        ensures
            final(self).wf(),
            final(self).root_id() == old(self).root_id(),
            !old(self).contains_node(id) ==> r == Err::<(), DomError>(DomError::NodeNotFound(id)),
            old(self).contains_node(id) && old(self).kind_of(id) is Text ==> r == Err::<(), DomError>(
                DomError::NodeNotElement(id),
            ),
            r is Ok <==> old(self).contains_node(id) && !(old(self).kind_of(id) is Text),
            r is Err ==> *final(self) == *old(self),
            r is Ok ==> final(self).nodes() == old(self).nodes().insert(
                id,
                DomNodeView {
                    attributes: old(self).attributes_of(id).insert(name@, value@),
                    ..old(self).nodes()[id]
                },
            ) && final(self).revision_spec() == next_revision(old(self).revision_spec()),
    {
        let ghost pre = *old(self);
        let is_text = match self.kind(id) {
            None => {
                return Err(DomError::NodeNotFound(id));
            },
            Some(NodeKind::Text(_)) => true,
            Some(_) => false,
        };
        if is_text {
            return Err(DomError::NodeNotElement(id));
        }
        let mut node = self.node(id).unwrap().duplicate();
        let (mut kept, _) = without_attribute(&node.attributes, &name);
        let ghost base = attribute_pairs(kept@);
        let ghost (nm, vl) = (name@, value@);
        kept.push(Attribute { name, value });
        proof {
            assert(attribute_pairs(kept@) =~= base.push((nm, vl)));
            assert(attribute_pairs(kept@).drop_last() =~= base);
            assert(attribute_map(attribute_pairs(kept@)) =~= pre.attributes_of(id).insert(nm, vl));
        }
        node.attributes = kept;
        slots_set(&mut self.slots, id, node);
        self.bump_revision();
        proof {
            assert(self.nodes().dom() =~= pre.nodes().dom());
            self.lemma_same_links_wf(pre);
        }
        Ok(())
    }

    /// Removes attribute `name` from the node `id`, saying whether it was
    /// there; raw text nodes have no attributes.
    pub fn remove_attribute(&mut self, id: NodeId, name: &str) -> (r: Result<bool, DomError>)
        requires
            old(self).wf(),
        ensures
            final(self).wf(),
            final(self).root_id() == old(self).root_id(),
            !old(self).contains_node(id) ==> r == Err::<bool, DomError>(DomError::NodeNotFound(id)),
            old(self).contains_node(id) && old(self).kind_of(id) is Text ==> r == Err::<bool, DomError>(
                DomError::NodeNotElement(id),
            ),
            r is Ok <==> old(self).contains_node(id) && !(old(self).kind_of(id) is Text),
            r is Err ==> *final(self) == *old(self),
            r == Ok::<bool, DomError>(false) ==> !old(self).attributes_of(id).contains_key(name@)
                && *final(self) == *old(self),
            r == Ok::<bool, DomError>(true) ==> old(self).attributes_of(id).contains_key(name@)
                && final(self).nodes() == old(self).nodes().insert(
                id,
                DomNodeView { attributes: old(self).attributes_of(id).remove(name@), ..old(self).nodes()[id] },
            ) && final(self).revision_spec() == next_revision(old(self).revision_spec()),
    {
        let ghost pre = *old(self);
        let is_text = match self.kind(id) {
            None => {
                return Err(DomError::NodeNotFound(id));
            },
            Some(NodeKind::Text(_)) => true,
            Some(_) => false,
        };
        if is_text {
            return Err(DomError::NodeNotElement(id));
        }
        let key = name.to_owned();
        let mut node = self.node(id).unwrap().duplicate();
        let (kept, found) = without_attribute(&node.attributes, &key);
        if !found {
            return Ok(false);
        }
        node.attributes = kept;
        slots_set(&mut self.slots, id, node);
        self.bump_revision();
        proof {
            assert(self.nodes().dom() =~= pre.nodes().dom());
            self.lemma_same_links_wf(pre);
        }
        Ok(true)
    }

    /// A document whose nodes differ from a well-formed one's only in what
    /// they are and what attributes they hold, with the same rank, is well
    /// formed.
    proof fn lemma_same_links_wf(&self, pre: Dom)
        requires
            pre.wf(),
            self.nodes().dom() == pre.nodes().dom(),
            self.root == pre.root,
            self.rank == pre.rank,
            self.rank_bound == pre.rank_bound,
            self.nodes()[self.root].kind is App,
            forall|k: NodeId| #[trigger]
                self.nodes().contains_key(k) ==> self.nodes()[k].parent == pre.nodes()[k].parent
                    && self.nodes()[k].children == pre.nodes()[k].children
                    && (self.nodes()[k].kind is App <==> pre.nodes()[k].kind is App)
                    && (self.nodes()[k].kind is Text <==> pre.nodes()[k].kind is Text),
        ensures
            self.wf(),
    {
        assert forall|k: NodeId| #[trigger] self.nodes().contains_key(k) implies self.node_ok(k) by {
            assert(pre.node_ok(k));
            let n = self.nodes()[k];
            if let Some(q) = n.parent {
                assert(pre.node_ok(q));
            }
            assert forall|i: int| 0 <= i < n.children.len() implies {
                &&& self.nodes().contains_key(#[trigger] n.children[i])
                &&& self.nodes()[n.children[i]].parent == Some(k)
            } by {
                assert(pre.nodes()[k].children[i] == n.children[i]);
            }
        }
    }

    /// Whether `k` is the root of a detached component.
    pub open spec fn is_detached_root(&self, k: NodeId) -> bool {
        self.contains_node(k) && k != self.root_id() && self.parent_of(k) is None
    }

    /// The roots of all detached components, each once.
    pub fn detached_roots(&self) -> (r: Vec<NodeId>)
        requires
            self.wf(),
        ensures
            r@.no_duplicates(),
            forall|k: NodeId| r@.contains(k) <==> self.is_detached_root(k),
    {
        let keys = slots_keys(&self.slots);
        let mut roots: Vec<NodeId> = Vec::new();
        let mut i: usize = 0;
        while i < keys.len()
            invariant
                self.wf(),
                i <= keys@.len(),
                keys@.no_duplicates(),
                forall|j: int| 0 <= j < keys@.len() ==> self.nodes().contains_key(#[trigger] keys@[j]),
                forall|k: NodeId| self.nodes().contains_key(k) ==> keys@.contains(k),
                roots@.no_duplicates(),
                forall|v: NodeId|
                    #![trigger roots@.contains(v)]
                    #![trigger keys@.subrange(0, i as int).contains(v)]
                    roots@.contains(v) <==> (keys@.subrange(0, i as int).contains(v)
                        && self.is_detached_root(v)),
            decreases keys@.len() - i,
        {
            let k = keys[i];
            proof {
                lemma_prefix_step(keys@, i as int);
                assert(!roots@.contains(k));
            }
            let ghost before = roots@;
            if k != self.root && self.parent(k).is_none() {
                proof {
                    lemma_insert_fresh(roots@, roots@.len() as int, k);
                }
                roots.push(k);
                proof {
                    assert(roots@ == before.insert(before.len() as int, k));
                }
            }
            i = i + 1;
            proof {
                lemma_prefix_step(keys@, i - 1);
                assert(keys@.subrange(0, i as int) == keys@.subrange(0, (i - 1) + 1));
                assert forall|v: NodeId|
                    #![trigger roots@.contains(v)]
                    #![trigger keys@.subrange(0, i as int).contains(v)]
                    roots@.contains(v) <==> (keys@.subrange(0, i as int).contains(v)
                        && self.is_detached_root(v)) by {
                    assert(keys@.subrange(0, i as int).contains(v) <==> keys@.subrange(0, (i - 1) + 1).contains(v));
                }
            }
        }
        proof {
            assert(keys@.subrange(0, keys@.len() as int) =~= keys@);
        }
        roots
    }
}

impl Dom {
    /// An independent copy of the document with the same identities.
    pub fn duplicate(&self) -> (r: Dom)
        ensures
            r.nodes() == self.nodes(),
            r.root_id() == self.root_id(),
            r.revision_spec() == self.revision_spec(),
            self.wf() ==> r.wf(),
            forall|a: NodeId, n: NodeId| #[trigger] r.in_subtree(a, n) == self.in_subtree(a, n),
    {
        let r = Dom {
            slots: slots_clone(&self.slots),
            root: self.root,
            revision: self.revision,
            rank: Ghost(self.rank@),
            rank_bound: Ghost(self.rank_bound@),
        };
        proof {
            assert forall|a: NodeId, n: NodeId| #[trigger] r.in_subtree(a, n) == self.in_subtree(a, n) by {
                Dom::lemma_same_links(&r, self, a, n);
            }
        }
        r
    }

    /// Two documents with the same nodes and ranks agree on ancestry.
    proof fn lemma_same_links(a: &Dom, b: &Dom, x: NodeId, n: NodeId)
        requires
            a.nodes() == b.nodes(),
            a.rank@ == b.rank@,
        ensures
            a.in_subtree(x, n) == b.in_subtree(x, n),
        decreases a.rank_of(n),
    {
        if n != x && a.nodes().contains_key(n) {
            match a.nodes()[n].parent {
                Some(p) => {
                    if a.rank@[p] < a.rank@[n] {
                        Dom::lemma_same_links(a, b, x, p);
                    }
                },
                None => {},
            }
        }
    }

    /// In a document `b` whose nodes all appear unchanged in `a`, ancestry
    /// and tops agree with `a`.
    pub proof fn lemma_sub_arena(a: &Dom, b: &Dom, x: NodeId, k: NodeId)
        requires
            a.wf(),
            b.wf(),
            b.contains_node(k),
            forall|n: NodeId|
                #[trigger] b.nodes().contains_key(n) ==> a.nodes().contains_key(n) && b.nodes()[n]
                    == a.nodes()[n],
        ensures
            b.in_subtree(x, k) == a.in_subtree(x, k),
            b.top(k) == a.top(k),
        decreases a.rank_of(k),
    {
        assert(a.node_ok(k));
        assert(b.node_ok(k));
        if let Some(p) = b.nodes()[k].parent {
            assert(a.node_ok(p));
            Dom::lemma_sub_arena(a, b, x, p);
        }
    }

    /// In a parentless node's subtree, exactly the nodes whose top it is.
    pub proof fn lemma_subtree_of_parentless(&self, r: NodeId, k: NodeId)
        requires
            self.wf(),
            self.contains_node(r),
            self.parent_of(r) is None,
            self.contains_node(k),
        ensures
            self.in_subtree(r, k) <==> self.top(k) == r,
    {
        self.lemma_top(k);
        if self.in_subtree(r, k) {
            self.lemma_subtree_same_top(r, k);
            assert(self.node_ok(r));
        }
    }
}

impl Dom {
    /// A proper ancestor has at least one child.
    pub proof fn lemma_ancestor_has_children(&self, a: NodeId, n: NodeId)
        requires
            self.wf(),
            self.contains_node(n),
            self.in_subtree(a, n),
            n != a,
        ensures
            self.children_of(a).len() > 0,
        decreases self.rank_of(n),
    {
        assert(self.node_ok(n));
        let p = self.nodes()[n].parent.unwrap();
        assert(self.node_ok(p));
        if p == a {
            assert(self.nodes()[a].children.contains(n));
        } else {
            self.lemma_ancestor_has_children(a, p);
        }
    }
}

impl Dom {
    /// A proper ancestor of `n` has a child that is an ancestor-or-self of `n`.
    pub proof fn lemma_child_on_path(&self, a: NodeId, n: NodeId) -> (m: NodeId)
        requires
            self.wf(),
            self.contains_node(n),
            self.in_subtree(a, n),
            n != a,
        ensures
            self.children_of(a).contains(m),
            self.contains_node(m),
            self.in_subtree(m, n),
        decreases self.rank_of(n),
    {
        assert(self.node_ok(n));
        let p = self.nodes()[n].parent.unwrap();
        assert(self.node_ok(p));
        if p == a {
            assert(self.nodes()[a].children.contains(n));
            n
        } else {
            let m = self.lemma_child_on_path(a, p);
            self.lemma_in_subtree_trans(m, p, n);
            m
        }
    }

    /// A node whose children are all leaves other than `n` is not above `n`.
    pub proof fn lemma_not_above(&self, a: NodeId, n: NodeId)
        requires
            self.wf(),
            self.contains_node(n),
            n != a,
            forall|i: int|
                0 <= i < self.children_of(a).len() ==> #[trigger] self.children_of(a)[i] != n
                    && self.children_of(self.children_of(a)[i]).len() == 0,
        ensures
            !self.in_subtree(a, n),
    {
        if self.in_subtree(a, n) {
            let m = self.lemma_child_on_path(a, n);
            let i = choose|i: int| 0 <= i < self.children_of(a).len() && self.children_of(a)[i] == m;
            assert(self.children_of(a)[i] == m);
            self.lemma_ancestor_has_children(m, n);
        }
    }
}

/// Extending a prefix by one element adds exactly that element.
pub proof fn lemma_prefix_step(s: Seq<NodeId>, i: int)
    requires
        0 <= i < s.len(),
    ensures
        forall|v: NodeId|
            #[trigger] s.subrange(0, i + 1).contains(v) <==> (s.subrange(0, i).contains(v) || v
                == s[i]),
        s.no_duplicates() ==> !s.subrange(0, i).contains(s[i]),
        s.subrange(0, i + 1).to_set() == s.subrange(0, i).to_set().insert(s[i]),
{
    let a = s.subrange(0, i);
    let b = s.subrange(0, i + 1);
    assert forall|v: NodeId| #[trigger] b.contains(v) <==> (a.contains(v) || v == s[i]) by {
        if b.contains(v) {
            let j = choose|j: int| 0 <= j < b.len() && b[j] == v;
            if j < i {
                assert(a[j] == v);
            }
        }
        if a.contains(v) {
            let j = choose|j: int| 0 <= j < a.len() && a[j] == v;
            assert(b[j] == v);
        }
        if v == s[i] {
            assert(b[i] == v);
        }
    }
    if s.no_duplicates() && a.contains(s[i]) {
        let j = choose|j: int| 0 <= j < a.len() && a[j] == s[i];
        assert(s[j] == s[i]);
    }
    assert(b.to_set() =~= a.to_set().insert(s[i]));
}

/// The first position of `x` in `v`.
pub fn position_of(v: &Vec<NodeId>, x: NodeId) -> (r: Option<usize>)
    ensures
        r matches Some(i) ==> i < v@.len() && v@[i as int] == x,
        r is None <==> !v@.contains(x),
{
    let mut i: usize = 0;
    while i < v.len()
        invariant
            i <= v@.len(),
            forall|j: int| 0 <= j < i ==> v@[j] != x,
        decreases v@.len() - i,
    {
        if v[i] == x {
            return Some(i);
        }
        i = i + 1;
    }
    None
}

} // verus!
