//! The host side of the script DOM bridge: wrapper leases that keep detached
//! components alive, reclamation of unreachable components, and the node
//! operations that scripts call.
//!
//! Lifetime rules:
//! 1. The App tree retains every connected descendant, even without wrappers.
//! 2. A live wrapper lease retains its entire detached component, so parent
//!    and sibling traversal stays valid.
//! 3. Identities held by derived state are non-owning.
//! 4. Dropping the final lease only makes a detached component eligible for
//!    reclamation; it is reclaimed at the next checkpoint.

use std::collections::{HashMap, HashSet};
use vstd::prelude::*;
use vstd::std_specs::iter::IteratorSpec;

use crate::dom::{
    detach_spec, insert_spec, is_text_element, position_of, without, Dom, DomError, DomNodeView, ElementStyle,
    ElementTag, NodeKind, NodeKindView, Position, ZIndex, MAX_NODES,
};
use crate::node_id::{canonical_raw, NodeId};
use crate::shared::{SharedDom, Snapshot};
pub use crate::style::{integer_text, position_keyword};
use crate::style::{
    apply_declaration, declared, remove_declaration, supported_property, supports_property,
    undeclared,
};
use vstd::string::StringExecFns;

verus! {

broadcast use vstd::std_specs::hash::group_hash_axioms;

/// Why a host operation was refused.
#[derive(Clone, Copy, Debug, PartialEq, Eq, Structural)]
pub enum BridgeError {
    /// The document refused the tree operation.
    Dom(DomError),
    /// The handle names no live node.
    StaleNode(NodeId),
    /// The node to remove, or the reference node, is not a child of this parent.
    NotAChild,
    /// The lease count of a node is at its maximum.
    LeaseOverflow,
    /// The tag names no element kind.
    UnsupportedElement,
    /// The text of the App root cannot be replaced.
    AppTextContent,
    /// A handle is not a decimal node identity.
    InvalidHandle,
}

/// The host's staging document and the wrapper leases scripts hold on it.
pub struct DomState {
    staging: Dom,
    body: NodeId,
    /// Counts live script wrappers per node, keyed by the node's FFI form.
    wrapper_leases: HashMap<u64, usize>,
    needs_reclaim: bool,
}

impl DomState {
    pub closed spec fn dom(&self) -> Dom {
        self.staging
    }

    pub closed spec fn leases(&self) -> Map<u64, usize> {
        self.wrapper_leases@
    }

    pub closed spec fn body_id(&self) -> NodeId {
        self.body
    }

    pub closed spec fn reclaim_pending(&self) -> bool {
        self.needs_reclaim
    }

    pub closed spec fn wf(&self) -> bool {
        &&& self.staging.wf()
        &&& forall|k: u64| #[trigger] self.wrapper_leases@.contains_key(k) ==> canonical_raw(k) == k
    }

    /// The number of live wrappers of a node.
    pub open spec fn lease_count(&self, id: NodeId) -> nat {
        if self.leases().contains_key(id@) {
            self.leases()[id@] as nat
        } else {
            0
        }
    }

    /// `t` is the top of a live node that a wrapper lease holds.
    pub open spec fn leased_top(&self, t: NodeId) -> bool {
        exists|l: NodeId|
            #![trigger self.dom().top(l)]
            self.leases().contains_key(l@) && self.dom().contains_node(l) && self.dom().top(l) == t
    }

    /// A node survives reclamation when it is connected, or when a leased
    /// node lies in its component.
    pub open spec fn retained(&self, k: NodeId) -> bool {
        self.dom().connected(k) || self.leased_top(self.dom().top(k))
    }

    /// The staging document.
    pub fn staging(&self) -> (r: &Dom)
        requires
            self.wf(),
        ensures
            *r == self.dom(),
            r.wf(),
    {
        &self.staging
    }

    /// The Window element created with the document.
    pub fn body(&self) -> (r: NodeId)
        ensures
            r == self.body_id(),
    {
        self.body
    }

    /// Whether reclamation is due at the next checkpoint.
    pub fn needs_reclaim(&self) -> (r: bool)
        ensures
            r == self.reclaim_pending(),
    {
        self.needs_reclaim
    }

    /// Records one more live wrapper of a live node.
    pub fn retain(&mut self, id: NodeId) -> (r: Result<(), BridgeError>)
        requires
            old(self).wf(),
        ensures
            final(self).wf(),
            final(self).dom() == old(self).dom(),
            final(self).body_id() == old(self).body_id(),
            final(self).reclaim_pending() == old(self).reclaim_pending(),
            !old(self).dom().contains_node(id) ==> r == Err::<(), BridgeError>(
                BridgeError::StaleNode(id),
            ),
            old(self).dom().contains_node(id) && old(self).lease_count(id) == usize::MAX ==> r
                == Err::<(), BridgeError>(BridgeError::LeaseOverflow),
            r is Err ==> final(self).leases() == old(self).leases(),
            r is Ok <==> old(self).dom().contains_node(id) && old(self).lease_count(id)
                < usize::MAX,
            r is Ok ==> final(self).leases() == old(self).leases().insert(
                id@,
                (old(self).lease_count(id) + 1) as usize,
            ),
    {
        if !self.staging.contains(id) {
            return Err(BridgeError::StaleNode(id));
        }
        let key = id.raw();
        let count: usize = match self.wrapper_leases.get(&key) {
            Some(c) => *c,
            None => 0,
        };
        if count == usize::MAX {
            return Err(BridgeError::LeaseOverflow);
        }
        self.wrapper_leases.insert(key, count + 1);
        Ok(())
    }

    /// Records that one wrapper of a node was finalized.
    pub fn release_wrapper(&mut self, id: NodeId)
        requires
            old(self).wf(),
        ensures
            final(self).wf(),
            final(self).dom() == old(self).dom(),
            final(self).body_id() == old(self).body_id(),
            !old(self).leases().contains_key(id@) ==> *final(self) == *old(self),
            old(self).leases().contains_key(id@) ==> final(self).reclaim_pending()
                && final(self).leases() == if old(self).leases()[id@] > 1 {
                old(self).leases().insert(id@, (old(self).leases()[id@] - 1) as usize)
            } else {
                old(self).leases().remove(id@)
            },
    {
        let key = id.raw();
        let count: usize = match self.wrapper_leases.get(&key) {
            Some(c) => *c,
            None => {
                return;
            },
        };
        if count > 1 {
            self.wrapper_leases.insert(key, count - 1);
        } else {
            self.wrapper_leases.remove(&key);
        }
        self.needs_reclaim = true;
    }

    /// The tops of the live nodes that leases hold, in FFI form.
    fn retained_tops(&self) -> (r: HashSet<u64>)
        requires
            self.wf(),
        ensures
            forall|t: NodeId| r@.contains(t@) <==> self.leased_top(t),
    {
        let keys = crate::keys::keys_of(&self.wrapper_leases);
        let mut tops: HashSet<u64> = HashSet::new();
        let mut i: usize = 0;
        while i < keys.len()
            invariant
                self.wf(),
                i <= keys@.len(),
                keys@.to_set() == self.leases().dom(),
                forall|t: u64|
                    #[trigger] tops@.contains(t) <==> exists|l: NodeId|
                        #![trigger self.dom().top(l)]
                        keys@.subrange(0, i as int).contains(l@) && self.dom().contains_node(l)
                            && self.dom().top(l)@ == t,
            decreases keys@.len() - i,
        {
            let k = keys[i];
            proof {
                assert(keys@.to_set().contains(k));
            }
            let id = NodeId::from_canonical(k);
            let ghost before = tops@;
            if self.staging.contains(id) {
                let top = self.staging.top_ancestor(id);
                tops.insert(top.raw());
            }
            proof {
                let p0 = keys@.subrange(0, i as int);
                let p1 = keys@.subrange(0, i + 1);
                assert forall|x: u64| p1.contains(x) <==> (p0.contains(x) || x == k) by {
                    if p1.contains(x) {
                        let j = choose|j: int| 0 <= j < p1.len() && p1[j] == x;
                        if j < i {
                            assert(p0[j] == x);
                        }
                    }
                    if p0.contains(x) {
                        let j = choose|j: int| 0 <= j < p0.len() && p0[j] == x;
                        assert(p1[j] == x);
                    }
                    if x == k {
                        assert(p1[i as int] == x);
                    }
                }
                assert forall|t: u64|
                    #[trigger] tops@.contains(t) <==> exists|l: NodeId|
                        #![trigger self.dom().top(l)]
                        p1.contains(l@) && self.dom().contains_node(l) && self.dom().top(l)@
                            == t by {
                    if tops@.contains(t) && !before.contains(t) {
                        assert(self.dom().top(id)@ == t);
                        assert(p1.contains(id@));
                    }
                    if exists|l: NodeId|
                        #![trigger self.dom().top(l)]
                        p1.contains(l@) && self.dom().contains_node(l) && self.dom().top(l)@
                            == t {
                        let l = choose|l: NodeId|
                            #![trigger self.dom().top(l)]
                            p1.contains(l@) && self.dom().contains_node(l) && self.dom().top(l)@
                                == t;
                        if l@ == k {
                            NodeId::lemma_view_injective(l, id);
                        } else {
                            assert(p0.contains(l@));
                        }
                    }
                }
            }
            i = i + 1;
        }
        proof {
            assert(keys@.subrange(0, keys@.len() as int) =~= keys@);
            assert forall|t: NodeId| tops@.contains(t@) <==> self.leased_top(t) by {
                if tops@.contains(t@) {
                    let l = choose|l: NodeId|
                        #![trigger self.dom().top(l)]
                        keys@.contains(l@) && self.dom().contains_node(l) && self.dom().top(l)@
                            == t@;
                    assert(keys@.to_set().contains(l@));
                    NodeId::lemma_view_injective(self.dom().top(l), t);
                }
                if self.leased_top(t) {
                    let l = choose|l: NodeId|
                        #![trigger self.dom().top(l)]
                        self.leases().contains_key(l@) && self.dom().contains_node(l)
                            && self.dom().top(l) == t;
                    assert(keys@.to_set().contains(l@));
                }
            }
        }
        tops
    }

    /// Removes every detached component that no lease holds.
    pub fn reclaim_unreachable(&mut self)
        requires
            old(self).wf(),
        ensures
            final(self).wf(),
            final(self).dom().nodes() == old(self).dom().nodes().restrict(
                Set::new(|k: NodeId| old(self).retained(k)),
            ),
            final(self).dom().root_id() == old(self).dom().root_id(),
            final(self).leases() == old(self).leases(),
            final(self).body_id() == old(self).body_id(),
            final(self).reclaim_pending() == old(self).reclaim_pending(),
    {
        let ghost pre = *old(self);
        let ghost orig = self.staging;
        let tops = self.retained_tops();
        let roots = self.staging.detached_roots();
        let mut reclaimable: Vec<NodeId> = Vec::new();
        let mut i: usize = 0;
        while i < roots.len()
            invariant
                i <= roots@.len(),
                roots@.no_duplicates(),
                forall|t: NodeId| tops@.contains(t@) <==> pre.leased_top(t),
                forall|k: NodeId| roots@.contains(k) <==> orig.is_detached_root(k),
                reclaimable@.no_duplicates(),
                forall|k: NodeId|
                    #![trigger reclaimable@.contains(k)]
                    reclaimable@.contains(k) <==> (roots@.subrange(0, i as int).contains(k)
                        && !pre.leased_top(k)),
            decreases roots@.len() - i,
        {
            let r = roots[i];
            proof {
                crate::dom::lemma_prefix_step(roots@, i as int);
            }
            let ghost before = reclaimable@;
            proof {
                assert(tops@.contains(r@) <==> pre.leased_top(r));
            }
            if !tops.contains(&r.raw()) {
                proof {
                    crate::dom::lemma_insert_fresh(reclaimable@, reclaimable@.len() as int, r);
                }
                reclaimable.push(r);
                proof {
                    assert(reclaimable@ == before.insert(before.len() as int, r));
                }
            }
            i = i + 1;
            proof {
                assert(roots@.subrange(0, i as int) == roots@.subrange(0, (i - 1) + 1));
                assert forall|k: NodeId|
                    #![trigger reclaimable@.contains(k)]
                    reclaimable@.contains(k) <==> (roots@.subrange(0, i as int).contains(k)
                        && !pre.leased_top(k)) by {
                    assert(roots@.subrange(0, i as int).contains(k) <==> roots@.subrange(
                        0,
                        (i - 1) + 1,
                    ).contains(k));
                    if k != r {
                        assert(reclaimable@.contains(k) <==> before.contains(k));
                    } else {
                        assert(!roots@.subrange(0, (i - 1) as int).contains(r));
                        assert(!before.contains(r));
                    }
                }
            }
        }
        proof {
            assert(roots@.subrange(0, roots@.len() as int) =~= roots@);
        }
        let mut j: usize = 0;
        while j < reclaimable.len()
            invariant
                orig.wf(),
                self.staging.wf(),
                orig == pre.staging,
                self.staging.root_id() == orig.root_id(),
                self.wrapper_leases@ == pre.wrapper_leases@,
                self.body == pre.body,
                self.needs_reclaim == pre.needs_reclaim,
                j <= reclaimable@.len(),
                reclaimable@.no_duplicates(),
                forall|k: NodeId|
                    #![trigger reclaimable@.contains(k)]
                    reclaimable@.contains(k) <==> (orig.is_detached_root(k) && !pre.leased_top(k)),
                forall|n: NodeId|
                    #[trigger] self.staging.nodes().contains_key(n) ==> orig.nodes().contains_key(
                        n,
                    ) && self.staging.nodes()[n] == orig.nodes()[n],
                forall|n: NodeId|
                    #[trigger] orig.nodes().contains_key(n) ==> (self.staging.nodes().contains_key(
                        n,
                    ) <==> !reclaimable@.subrange(0, j as int).contains(orig.top(n))),
            decreases reclaimable@.len() - j,
        {
            let r = reclaimable[j];
            let ghost cur = self.staging;
            proof {
                assert(reclaimable@.contains(r));
                crate::dom::lemma_prefix_step(reclaimable@, j as int);
                orig.lemma_top_of_root(r);
                assert(cur.nodes().contains_key(r));
            }
            let result = self.staging.remove_subtree(r);
            proof {
                assert(result is Ok);
                assert(detach_spec(cur.nodes(), r) == cur.nodes());
                assert forall|n: NodeId| #[trigger] orig.nodes().contains_key(n) implies (
                self.staging.nodes().contains_key(n) <==> !reclaimable@.subrange(
                    0,
                    j + 1,
                ).contains(orig.top(n))) by {
                    if cur.nodes().contains_key(n) {
                        Dom::lemma_sub_arena(&orig, &cur, r, n);
                        orig.lemma_subtree_of_parentless(r, n);
                    }
                }
            }
            j = j + 1;
            proof {
                assert(reclaimable@.subrange(0, j as int) == reclaimable@.subrange(0, (j - 1) + 1));
            }
        }
        proof {
            assert(reclaimable@.subrange(0, reclaimable@.len() as int) =~= reclaimable@);
            let keep = Set::new(|k: NodeId| pre.retained(k));
            assert forall|n: NodeId| #[trigger] orig.nodes().contains_key(n) implies (
            self.staging.nodes().contains_key(n) <==> pre.retained(n)) by {
                orig.lemma_top(n);
                let t = orig.top(n);
                if t != orig.root_id() {
                    assert(orig.is_detached_root(t));
                }
            }
            assert(self.staging.nodes() =~= orig.nodes().restrict(keep));
        }
    }
}

/// The concatenated text of the raw text nodes below `id`, in tree order, as
/// `textContent` reads it.
pub open spec fn text_content_spec(dom: Dom, id: NodeId) -> Seq<char>
    decreases dom.depth_measure(id), 1nat, 0nat,
{
    if !dom.contains_node(id) {
        Seq::empty()
    } else {
        match dom.kind_of(id) {
            NodeKindView::Text(s) => s,
            _ => children_text_spec(dom, id, dom.children_of(id).len()),
        }
    }
}

/// The text of the first `k` children of `id`.
pub open spec fn children_text_spec(dom: Dom, id: NodeId, k: nat) -> Seq<char>
    decreases dom.depth_measure(id), 0nat, k,
{
    if k == 0 || k > dom.children_of(id).len() {
        Seq::empty()
    } else {
        let c = dom.children_of(id)[k - 1];
        children_text_spec(dom, id, (k - 1) as nat) + if dom.depth_measure(c) < dom.depth_measure(
            id,
        ) {
            text_content_spec(dom, c)
        } else {
            Seq::empty()
        }
    }
}

/// Appends the text below a live node to `output`.
pub fn collect_text(dom: &Dom, id: NodeId, output: &mut String)
    requires
        dom.wf(),
        dom.contains_node(id),
    ensures
        final(output)@ == old(output)@ + text_content_spec(*dom, id),
    decreases dom.depth_measure(id),
{
    match dom.kind(id).unwrap() {
        NodeKind::Text(s) => {
            output.append(s.as_str());
        },
        _ => {
            let children = dom.children(id).unwrap();
            let mut i: usize = 0;
            while i < children.len()
                invariant
                    dom.wf(),
                    dom.contains_node(id),
                    children@ == dom.children_of(id),
                    i <= children@.len(),
                    output@ == old(output)@ + children_text_spec(*dom, id, i as nat),
                decreases children@.len() - i,
            {
                proof {
                    dom.lemma_child_measure(id, i as int);
                    dom.lemma_node(id);
                }
                let ghost before = output@;
                collect_text(dom, children[i], output);
                proof {
                    assert(output@ =~= old(output)@ + children_text_spec(*dom, id, (i + 1) as nat));
                }
                i = i + 1;
            }
        },
    }
}

/// Whether two strings hold the same characters.
pub fn str_eq(a: &str, b: &str) -> (r: bool)
    ensures
        r == (a@ == b@),
{
    let n = a.unicode_len();
    if n != b.unicode_len() {
        return false;
    }
    let mut i: usize = 0;
    while i < n
        invariant
            n == a@.len(),
            n == b@.len(),
            i <= n,
            forall|j: int| 0 <= j < i ==> a@[j] == b@[j],
        decreases n - i,
    {
        if a.get_char(i) != b.get_char(i) {
            return false;
        }
        i = i + 1;
    }
    proof {
        assert(a@ =~= b@);
    }
    true
}

/// The name scripts read as `nodeName`.
pub open spec fn element_name_spec(kind: NodeKindView) -> Seq<char> {
    match kind {
        NodeKindView::App => "APP"@,
        NodeKindView::Text(_) => "#text"@,
        NodeKindView::Element(tag, _) => match tag {
            ElementTag::Window => "WINDOW"@,
            ElementTag::Div => "DIV"@,
            ElementTag::Flex => "FLEX"@,
            ElementTag::Grid => "GRID"@,
            ElementTag::Text => "TEXT"@,
        },
    }
}

pub fn element_name(kind: &NodeKind) -> (r: &'static str)
    ensures
        r@ == element_name_spec(kind@),
{
    match kind {
        NodeKind::App => "APP",
        NodeKind::Text(_) => "#text",
        NodeKind::Element(tag, _) => match tag {
            ElementTag::Window => "WINDOW",
            ElementTag::Div => "DIV",
            ElementTag::Flex => "FLEX",
            ElementTag::Grid => "GRID",
            ElementTag::Text => "TEXT",
        },
    }
}

/// The element tag a script names in `createElement`.
pub open spec fn tag_for_name(name: Seq<char>) -> Option<ElementTag> {
    if name == "window"@ {
        Some(ElementTag::Window)
    } else if name == "div"@ {
        Some(ElementTag::Div)
    } else if name == "flex"@ {
        Some(ElementTag::Flex)
    } else if name == "grid"@ {
        Some(ElementTag::Grid)
    } else if name == "text"@ {
        Some(ElementTag::Text)
    } else {
        None
    }
}

/// A new element of the named tag with the initial style.
pub fn element_for_tag(tag: &str) -> (r: Option<NodeKind>)
    ensures
        r is Some <==> tag_for_name(tag@) is Some,
        r matches Some(k) ==> k@ == NodeKindView::Element(
            tag_for_name(tag@)->0,
            ElementStyle { position: crate::dom::Position::Static, z_index: crate::dom::ZIndex::Auto },
        ),
{
    let style = ElementStyle::initial();
    if str_eq(tag, "window") {
        Some(NodeKind::Element(ElementTag::Window, style))
    } else if str_eq(tag, "div") {
        Some(NodeKind::Element(ElementTag::Div, style))
    } else if str_eq(tag, "flex") {
        Some(NodeKind::Element(ElementTag::Flex, style))
    } else if str_eq(tag, "grid") {
        Some(NodeKind::Element(ElementTag::Grid, style))
    } else if str_eq(tag, "text") {
        Some(NodeKind::Element(ElementTag::Text, style))
    } else {
        None
    }
}

/// Where `insertBefore` places `child`: just before `before`, or last.
pub open spec fn insert_before_index(dom: Dom, parent: NodeId, child: NodeId, before: Option<NodeId>) -> int {
    match before {
        Some(b) => without(dom.children_of(parent), child).index_of(b),
        None => without(dom.children_of(parent), child).len() as int,
    }
}

/// Why `insertBefore` is refused, if it is.
pub open spec fn insert_before_error(
    dom: Dom,
    parent: NodeId,
    child: NodeId,
    before: Option<NodeId>,
) -> Option<BridgeError> {
    if !dom.contains_node(child) {
        Some(BridgeError::StaleNode(child))
    } else if !dom.contains_node(parent) {
        Some(BridgeError::StaleNode(parent))
    } else if before == Some(child) {
        if dom.parent_of(child) != Some(parent) {
            Some(BridgeError::NotAChild)
        } else {
            None
        }
    } else if before matches Some(b) && (!dom.contains_node(b) || dom.parent_of(b) != Some(parent)) {
        Some(BridgeError::NotAChild)
    } else {
        match dom.insert_error(
            parent,
            insert_before_index(dom, parent, child, before) as usize,
            child,
        ) {
            Some(e) => Some(BridgeError::Dom(e)),
            None => None,
        }
    }
}

impl DomState {
    /// The App root.
    pub fn root(&self) -> (r: NodeId)
        ensures
            r == self.dom().root_id(),
    {
        self.staging.root()
    }

    pub fn contains(&self, id: NodeId) -> (r: bool)
        ensures
            r == self.dom().contains_node(id),
    {
        self.staging.contains(id)
    }

    /// The number of live nodes.
    pub fn node_count(&self) -> (r: usize)
        requires
            self.wf(),
        ensures
            r == self.dom().nodes().len(),
    {
        self.staging.len()
    }

    /// `nodeType`: 3 for raw text, 1 for everything else.
    pub fn node_type(&self, id: NodeId) -> (r: Result<u8, BridgeError>)
        ensures
            r == if !self.dom().contains_node(id) {
                Err(BridgeError::StaleNode(id))
            } else if self.dom().kind_of(id) is Text {
                Ok::<u8, BridgeError>(3)
            } else {
                Ok(1)
            },
    {
        match self.staging.kind(id) {
            None => Err(BridgeError::StaleNode(id)),
            Some(NodeKind::Text(_)) => Ok(3),
            Some(_) => Ok(1),
        }
    }

    /// `nodeName`.
    pub fn node_name(&self, id: NodeId) -> (r: Result<&'static str, BridgeError>)
        ensures
            r is Err <==> !self.dom().contains_node(id),
            r is Err ==> r == Err::<&'static str, BridgeError>(BridgeError::StaleNode(id)),
            r matches Ok(name) ==> name@ == element_name_spec(self.dom().kind_of(id)),
    {
        match self.staging.kind(id) {
            None => Err(BridgeError::StaleNode(id)),
            Some(kind) => Ok(element_name(kind)),
        }
    }

    /// `parentNode`.
    pub fn parent(&self, id: NodeId) -> (r: Result<Option<NodeId>, BridgeError>)
        ensures
            r == if !self.dom().contains_node(id) {
                Err(BridgeError::StaleNode(id))
            } else {
                Ok::<Option<NodeId>, BridgeError>(self.dom().parent_of(id))
            },
    {
        if !self.staging.contains(id) {
            return Err(BridgeError::StaleNode(id));
        }
        Ok(self.staging.parent(id))
    }

    /// `firstChild`.
    pub fn first_child(&self, id: NodeId) -> (r: Result<Option<NodeId>, BridgeError>)
        ensures
            r == if !self.dom().contains_node(id) {
                Err(BridgeError::StaleNode(id))
            } else if self.dom().children_of(id).len() == 0 {
                Ok::<Option<NodeId>, BridgeError>(None)
            } else {
                Ok(Some(self.dom().children_of(id)[0]))
            },
    {
        match self.staging.children(id) {
            None => Err(BridgeError::StaleNode(id)),
            Some(children) => {
                if children.len() == 0 {
                    Ok(None)
                } else {
                    Ok(Some(children[0]))
                }
            },
        }
    }

    /// `nextSibling`: the node after `id` among its parent's children.
    pub fn next_sibling(&self, id: NodeId) -> (r: Result<Option<NodeId>, BridgeError>)
        requires
            self.wf(),
        ensures
            !self.dom().contains_node(id) ==> r == Err::<Option<NodeId>, BridgeError>(
                BridgeError::StaleNode(id),
            ),
            self.dom().contains_node(id) ==> r is Ok,
            r matches Ok(next) ==> match self.dom().parent_of(id) {
                None => next is None,
                Some(p) => {
                    let kids = self.dom().children_of(p);
                    let i = kids.index_of(id);
                    next == if i + 1 < kids.len() {
                        Some(kids[i + 1])
                    } else {
                        None
                    }
                },
            },
    {
        if !self.staging.contains(id) {
            return Err(BridgeError::StaleNode(id));
        }
        proof {
            self.staging.lemma_node(id);
        }
        let parent = match self.staging.parent(id) {
            None => {
                return Ok(None);
            },
            Some(p) => p,
        };
        proof {
            self.staging.lemma_node(parent);
        }
        let children = self.staging.children(parent).unwrap();
        let index = position_of(children, id).unwrap();
        proof {
            let kids = self.dom().children_of(parent);
            let j = kids.index_of(id);
            assert(kids[j] == id);
            assert(index == j);
        }
        if index < children.len() - 1 {
            Ok(Some(children[index + 1]))
        } else {
            Ok(None)
        }
    }

    /// `childNodes`.
    pub fn children(&self, id: NodeId) -> (r: Result<Vec<NodeId>, BridgeError>)
        ensures
            r is Err <==> !self.dom().contains_node(id),
            r is Err ==> r == Err::<Vec<NodeId>, BridgeError>(BridgeError::StaleNode(id)),
            r matches Ok(kids) ==> kids@ == self.dom().children_of(id),
    {
        match self.staging.children(id) {
            None => Err(BridgeError::StaleNode(id)),
            Some(children) => {
                let mut kids: Vec<NodeId> = Vec::new();
                let mut i: usize = 0;
                while i < children.len()
                    invariant
                        i <= children@.len(),
                        kids@ == children@.subrange(0, i as int),
                    decreases children@.len() - i,
                {
                    kids.push(children[i]);
                    i = i + 1;
                }
                proof {
                    assert(kids@ =~= children@);
                }
                Ok(kids)
            },
        }
    }

    /// `textContent`.
    pub fn text_content(&self, id: NodeId) -> (r: Result<String, BridgeError>)
        requires
            self.wf(),
        ensures
            r is Err <==> !self.dom().contains_node(id),
            r is Err ==> r == Err::<String, BridgeError>(BridgeError::StaleNode(id)),
            r matches Ok(text) ==> text@ == text_content_spec(self.dom(), id),
    {
        if !self.staging.contains(id) {
            return Err(BridgeError::StaleNode(id));
        }
        let mut text = String::new();
        collect_text(&self.staging, id, &mut text);
        proof {
            assert(text@ =~= text_content_spec(self.dom(), id));
        }
        Ok(text)
    }

    /// `createElement`: a new detached element with the initial style.
    pub fn create_element(&mut self, tag: &str) -> (r: Result<NodeId, BridgeError>)
        requires
            old(self).wf(),
            old(self).dom().nodes().len() < MAX_NODES,
        ensures
            final(self).wf(),
            final(self).leases() == old(self).leases(),
            final(self).body_id() == old(self).body_id(),
            final(self).dom().root_id() == old(self).dom().root_id(),
            r is Err <==> tag_for_name(tag@) is None,
            r is Err ==> r == Err::<NodeId, BridgeError>(BridgeError::UnsupportedElement) && *final(self) == *old(self),
            r matches Ok(id) ==> final(self).reclaim_pending() && !old(self).dom().contains_node(id)
                && final(self).dom().nodes() == old(self).dom().nodes().insert(
                id,
                DomNodeView {
                    kind: NodeKindView::Element(tag_for_name(tag@)->0, ElementStyle {
                        position: crate::dom::Position::Static,
                        z_index: crate::dom::ZIndex::Auto,
                    }),
                    parent: None,
                    children: Seq::empty(),
                    attributes: Map::empty(),
                },
            ),
    {
        let kind = match element_for_tag(tag) {
            None => {
                return Err(BridgeError::UnsupportedElement);
            },
            Some(kind) => kind,
        };
        let id = self.staging.create(kind);
        // A wrapper may never come to hold this node; sweep it if none does.
        self.needs_reclaim = true;
        Ok(id)
    }

    /// `createTextNode`: a new detached raw text node.
    pub fn create_text_node(&mut self, text: String) -> (id: NodeId)
        requires
            old(self).wf(),
            old(self).dom().nodes().len() < MAX_NODES,
        ensures
            final(self).wf(),
            final(self).leases() == old(self).leases(),
            final(self).body_id() == old(self).body_id(),
            final(self).dom().root_id() == old(self).dom().root_id(),
            final(self).reclaim_pending(),
            !old(self).dom().contains_node(id),
            final(self).dom().nodes() == old(self).dom().nodes().insert(
                id,
                DomNodeView {
                    kind: NodeKindView::Text(text@),
                    parent: None,
                    children: Seq::empty(),
                    attributes: Map::empty(),
                },
            ),
    {
        let id = self.staging.create(NodeKind::Text(text));
        self.needs_reclaim = true;
        id
    }

    /// `appendChild`.
    pub fn append(&mut self, parent: NodeId, child: NodeId) -> (r: Result<(), BridgeError>)
        requires
            old(self).wf(),
        ensures
            final(self).wf(),
            final(self).leases() == old(self).leases(),
            final(self).body_id() == old(self).body_id(),
            final(self).reclaim_pending() == old(self).reclaim_pending(),
            final(self).dom().root_id() == old(self).dom().root_id(),
            r matches Err(e) ==> old(self).dom().append_error(parent, child) matches Some(d) && e
                == BridgeError::Dom(d) && *final(self) == *old(self),
            r is Ok ==> old(self).dom().append_error(parent, child) is None && final(self).dom().nodes() == insert_spec(
                old(self).dom().nodes(),
                parent,
                without(old(self).dom().children_of(parent), child).len() as int,
                child,
            ),
    {
        match self.staging.append_child(parent, child) {
            Ok(()) => Ok(()),
            Err(e) => Err(BridgeError::Dom(e)),
        }
    }

    /// `removeChild`: detaches `child` from `parent`.
    pub fn remove_child(&mut self, parent: NodeId, child: NodeId) -> (r: Result<(), BridgeError>)
        requires
            old(self).wf(),
        ensures
            final(self).wf(),
            final(self).leases() == old(self).leases(),
            final(self).body_id() == old(self).body_id(),
            final(self).dom().root_id() == old(self).dom().root_id(),
            r is Err <==> !old(self).dom().contains_node(child) || old(self).dom().parent_of(child)
                != Some(parent),
            r is Err ==> r == Err::<(), BridgeError>(BridgeError::NotAChild) && *final(self)
                == *old(self),
            r is Ok ==> final(self).reclaim_pending() && final(self).dom().nodes() == detach_spec(
                old(self).dom().nodes(),
                child,
            ),
    {
        let attached = match self.staging.parent(child) {
            Some(p) => p == parent,
            None => false,
        };
        if !attached {
            return Err(BridgeError::NotAChild);
        }
        let result = self.staging.detach(child);
        proof {
            assert(result is Ok);
        }
        self.needs_reclaim = true;
        Ok(())
    }

    /// `insertBefore`: moves `child` just before `before` among `parent`'s
    /// children, or to the end when there is no reference node.
    pub fn insert_before(&mut self, parent: NodeId, child: NodeId, before: Option<NodeId>) -> (r:
        Result<(), BridgeError>)
        requires
            old(self).wf(),
        ensures
            final(self).wf(),
            final(self).leases() == old(self).leases(),
            final(self).body_id() == old(self).body_id(),
            final(self).reclaim_pending() == old(self).reclaim_pending(),
            final(self).dom().root_id() == old(self).dom().root_id(),
            r matches Err(e) ==> insert_before_error(old(self).dom(), parent, child, before) == Some(
                e,
            ) && *final(self) == *old(self),
            r is Ok ==> insert_before_error(old(self).dom(), parent, child, before) is None,
            r is Ok && before != Some(child) ==> final(self).dom().nodes() == insert_spec(
                old(self).dom().nodes(),
                parent,
                insert_before_index(old(self).dom(), parent, child, before),
                child,
            ),
            r is Ok && before == Some(child) ==> final(self).dom() == old(self).dom(),
    {
        let ghost pre = self.staging;
        if !self.staging.contains(child) {
            return Err(BridgeError::StaleNode(child));
        }
        if !self.staging.contains(parent) {
            return Err(BridgeError::StaleNode(parent));
        }
        proof {
            pre.lemma_node(parent);
            pre.lemma_node(child);
            crate::dom::lemma_without(pre.children_of(parent), child);
        }
        let child_parent_is_parent = match self.staging.parent(child) {
            Some(p) => p == parent,
            None => false,
        };
        let index = match before {
            Some(b) => {
                if b == child {
                    if !child_parent_is_parent {
                        return Err(BridgeError::NotAChild);
                    }
                    return Ok(());
                }
                let b_parent_is_parent = match self.staging.parent(b) {
                    Some(p) => p == parent,
                    None => false,
                };
                if !b_parent_is_parent {
                    return Err(BridgeError::NotAChild);
                }
                let mut kids: Vec<NodeId> = self.children(parent).unwrap();
                match position_of(&kids, child) {
                    Some(ci) => {
                        proof {
                            let j = kids@.index_of(child);
                            assert(kids@[j] == child);
                            assert(ci == j);
                        }
                        kids.remove(ci);
                    },
                    None => {},
                }
                proof {
                    assert(kids@ == without(pre.children_of(parent), child));
                    pre.lemma_node(b);
                    assert(kids@.contains(b));
                }
                let bi = position_of(&kids, b).unwrap();
                proof {
                    let j = kids@.index_of(b);
                    assert(kids@[j] == b);
                    assert(bi == j);
                }
                bi
            },
            None => {
                let len = self.staging.children(parent).unwrap().len();
                proof {
                    if child_parent_is_parent {
                        assert(pre.children_of(parent).contains(child));
                    } else if pre.children_of(parent).contains(child) {
                        let j = choose|j: int|
                            0 <= j < pre.children_of(parent).len() && pre.children_of(parent)[j]
                                == child;
                        assert(pre.parent_of(pre.children_of(parent)[j]) == Some(parent));
                    }
                }
                if child_parent_is_parent {
                    len - 1
                } else {
                    len
                }
            },
        };
        match self.staging.insert_child(parent, index, child) {
            Ok(()) => Ok(()),
            Err(e) => Err(BridgeError::Dom(e)),
        }
    }
}

/// Detaches every child of a live node, keeping their subtrees.
fn detach_children(dom: &mut Dom, parent: NodeId)
    requires
        old(dom).wf(),
        old(dom).contains_node(parent),
    ensures
        final(dom).wf(),
        final(dom).root_id() == old(dom).root_id(),
        final(dom).nodes().dom() == old(dom).nodes().dom(),
        forall|k: NodeId| #[trigger] final(dom).contains_node(k) ==> final(dom).kind_of(k) == old(dom).kind_of(k),
        final(dom).children_of(parent) == Seq::<NodeId>::empty(),
        final(dom).parent_of(parent) == old(dom).parent_of(parent),
        forall|c: NodeId|
            old(dom).children_of(parent).contains(c) ==> final(dom).parent_of(c) is None,
        forall|x: NodeId| #[trigger]
            old(dom).in_subtree(x, parent) ==> final(dom).parent_of(x) == old(dom).parent_of(x),
{
    let ghost pre = *dom;
    proof {
        pre.lemma_node(parent);
    }
    let existing: Vec<NodeId> = match dom.children(parent) {
        Some(c) => {
            let mut copy: Vec<NodeId> = Vec::new();
            let mut i: usize = 0;
            while i < c.len()
                invariant
                    i <= c@.len(),
                    copy@ == c@.subrange(0, i as int),
                decreases c@.len() - i,
            {
                copy.push(c[i]);
                i = i + 1;
            }
            proof {
                assert(copy@ =~= c@);
            }
            copy
        },
        None => Vec::new(),
    };
    let mut j: usize = 0;
    while j < existing.len()
        invariant
            dom.wf(),
            pre.wf(),
            existing@ == pre.children_of(parent),
            existing@.no_duplicates(),
            j <= existing@.len(),
            dom.root_id() == pre.root_id(),
            dom.nodes().dom() == pre.nodes().dom(),
            forall|k: NodeId| #[trigger] dom.contains_node(k) ==> dom.kind_of(k) == pre.kind_of(k),
            dom.contains_node(parent),
            dom.parent_of(parent) == pre.parent_of(parent),
            dom.children_of(parent) == existing@.subrange(j as int, existing@.len() as int),
            forall|k: int| 0 <= k < j ==> dom.parent_of(#[trigger] existing@[k]) is None,
            forall|k: int| j <= k < existing@.len() ==> dom.parent_of(#[trigger] existing@[k]) == Some(parent),
            forall|x: NodeId| #[trigger]
                pre.in_subtree(x, parent) ==> dom.parent_of(x) == pre.parent_of(x),
        decreases existing@.len() - j,
    {
        let c = existing[j];
        let ghost cur = *dom;
        proof {
            assert(existing@[j as int] == c);
            assert(cur.children_of(parent).contains(c)) by {
                assert(cur.children_of(parent)[0] == c);
            }
            cur.lemma_node(parent);
            let s = cur.children_of(parent);
            assert(s.index_of(c) == 0) by {
                let q = s.index_of(c);
                assert(s[q] == c);
                assert(s[0] == c);
            }
            assert(s.remove(0) =~= existing@.subrange(j + 1, existing@.len() as int));
            assert(cur.contains_node(c));
        }
        let result = dom.detach(c);
        proof {
            assert(result is Ok);
            assert(cur.parent_of(c) == Some(parent));
            cur.lemma_node(c);
            assert forall|k: NodeId| #[trigger] dom.contains_node(k) implies dom.kind_of(k)
                == pre.kind_of(k) by {
                assert(cur.contains_node(k));
            }
            assert(dom.parent_of(parent) == cur.parent_of(parent));
            assert forall|k: int| j + 1 <= k < existing@.len() implies dom.parent_of(
                #[trigger] existing@[k],
            ) == Some(parent) by {
                assert(existing@[k] != c);
            }
            assert forall|k: int| 0 <= k < j + 1 implies dom.parent_of(#[trigger] existing@[k])
                is None by {
                if k < j {
                    assert(existing@[k] != c);
                }
            }
            assert forall|x: NodeId| #[trigger] pre.in_subtree(x, parent) implies dom.parent_of(x)
                == pre.parent_of(x) by {
                assert(pre.children_of(parent).contains(c)) by {
                    assert(pre.children_of(parent)[j as int] == c);
                }
                pre.lemma_node(parent);
                pre.lemma_parent_rank(c);
                pre.lemma_in_subtree_rank(x, parent);
                assert(x != c);
            }
        }
        j = j + 1;
    }
    proof {
        assert forall|c: NodeId| pre.children_of(parent).contains(c) implies dom.parent_of(c)
            is None by {
            let k = choose|k: int| 0 <= k < existing@.len() && existing@[k] == c;
        }
    }
}

/// The first refusal, from index `i` on, among the appends of `children`
/// to `parent` in `dom`.
pub open spec fn first_append_error(dom: Dom, parent: NodeId, children: Seq<NodeId>, i: int) -> Option<
    DomError,
>
    decreases children.len() - i,
{
    if i < 0 || i >= children.len() {
        None
    } else if dom.append_error(parent, children[i]) is Some {
        dom.append_error(parent, children[i])
    } else {
        first_append_error(dom, parent, children, i + 1)
    }
}

/// Documents that refuse the same appends to `parent` refuse the same
/// replacement lists.
proof fn lemma_same_append_errors(a: Dom, b: Dom, parent: NodeId, children: Seq<NodeId>, i: int)
    requires
        forall|c: NodeId| #[trigger] a.append_error(parent, c) == b.append_error(parent, c),
    ensures
        first_append_error(a, parent, children, i) == first_append_error(b, parent, children, i),
    decreases children.len() - i,
{
    if 0 <= i < children.len() {
        lemma_same_append_errors(a, b, parent, children, i + 1);
    }
}

/// Why replacing the children of `parent` with `children` is refused, if it
/// is: detaching the old children and appending the earlier new ones never
/// changes whether a later append is refused.
pub open spec fn replace_error(dom: Dom, parent: NodeId, children: Seq<NodeId>) -> Option<DomError> {
    if !dom.contains_node(parent) {
        Some(DomError::NodeNotFound(parent))
    } else {
        first_append_error(dom, parent, children, 0)
    }
}

/// Replaces the children of `parent` with `children`, in order; a node
/// listed twice ends up at its last position.
/// The child list that appending the nodes of `s` in order to an empty list
/// gives: a node appended again moves to the end.
pub open spec fn appended_in_order(s: Seq<NodeId>) -> Seq<NodeId>
    decreases s.len(),
{
    if s.len() == 0 {
        Seq::empty()
    } else {
        without(appended_in_order(s.drop_last()), s.last()).push(s.last())
    }
}

pub fn apply_replace_children(dom: &mut Dom, parent: NodeId, children: &Vec<NodeId>) -> (r: Result<
    (),
    DomError,
>)
    requires
        old(dom).wf(),
    ensures
        final(dom).wf(),
        final(dom).root_id() == old(dom).root_id(),
        !old(dom).contains_node(parent) ==> r == Err::<(), DomError>(DomError::NodeNotFound(parent))
            && *final(dom) == *old(dom),
        r is Err <==> replace_error(*old(dom), parent, children@) is Some,
        r matches Err(e) ==> replace_error(*old(dom), parent, children@) == Some(e),
        r is Ok ==> final(dom).children_of(parent).to_set() == children@.to_set(),
        r is Ok && children@.no_duplicates() ==> final(dom).children_of(parent) == children@,
        r is Ok ==> final(dom).children_of(parent) == appended_in_order(children@),
        r is Ok ==> forall|c: NodeId|
            old(dom).children_of(parent).contains(c) && !children@.contains(c) ==> final(dom).contains_node(c) && final(dom).parent_of(c) is None,
{
    let ghost pre = *dom;
    if !dom.contains(parent) {
        return Err(DomError::NodeNotFound(parent));
    }
    detach_children(dom, parent);
    let ghost cleared = *dom;
    let mut i: usize = 0;
    while i < children.len()
        invariant
            pre == *old(dom),
            pre.wf(),
            dom.wf(),
            cleared.wf(),
            dom.root_id() == pre.root_id(),
            dom.contains_node(parent),
            dom.nodes().dom() == pre.nodes().dom(),
            i <= children@.len(),
            dom.children_of(parent).to_set() == children@.subrange(0, i as int).to_set(),
            children@.subrange(0, i as int).no_duplicates() ==> dom.children_of(parent)
                == children@.subrange(0, i as int),
            dom.children_of(parent) == appended_in_order(children@.subrange(0, i as int)),
            forall|c: NodeId|
                pre.children_of(parent).contains(c) && !children@.contains(c) ==> dom.parent_of(c)
                    is None,
            forall|k: NodeId| #[trigger] dom.contains_node(k) ==> dom.kind_of(k) == pre.kind_of(k),
            forall|y: NodeId| #[trigger]
                pre.in_subtree(y, parent) ==> dom.parent_of(y) == pre.parent_of(y),
            first_append_error(pre, parent, children@, 0) == first_append_error(
                pre,
                parent,
                children@,
                i as int,
            ),
        decreases children@.len() - i,
    {
        let x = children[i];
        let ghost cur = *dom;
        proof {
            pre.lemma_root();
            assert forall|y: NodeId| #[trigger] pre.in_subtree(y, parent) implies cur.contains_node(y)
                && cur.parent_of(y) == pre.parent_of(y) by {
                pre.lemma_in_subtree_rank(y, parent);
            }
            Dom::lemma_ancestry_kept(&pre, &cur, parent, x);
            assert(cur.append_error(parent, x) == pre.append_error(parent, x));
        }
        match dom.append_child(parent, x) {
            Ok(()) => {},
            Err(e) => {
                return Err(e);
            },
        }
        proof {
            cur.lemma_node(parent);
            crate::dom::lemma_without(cur.children_of(parent), x);
            crate::dom::lemma_prefix_step(children@, i as int);
            let w = without(cur.children_of(parent), x);
            cur.lemma_in_subtree_refl(x);
            assert(x != parent);
            cur.lemma_node(x);
            let d = detach_spec(cur.nodes(), x);
            if cur.parent_of(x) == Some(parent) {
                assert(d[parent].children == w);
            } else {
                assert(!cur.children_of(parent).contains(x)) by {
                    if cur.children_of(parent).contains(x) {
                        let q = choose|q: int|
                            0 <= q < cur.children_of(parent).len() && cur.children_of(parent)[q]
                                == x;
                        assert(cur.parent_of(cur.children_of(parent)[q]) == Some(parent));
                    }
                }
                assert(d[parent] == cur.nodes()[parent]);
                assert(w == cur.children_of(parent));
            }
            assert(dom.children_of(parent) == w.insert(w.len() as int, x));
            assert(w.insert(w.len() as int, x) =~= w.push(x));
            assert(children@.subrange(0, i + 1).drop_last() =~= children@.subrange(0, i as int));
            assert(children@.subrange(0, i + 1).last() == x);
            assert(dom.nodes().dom() =~= cur.nodes().dom());
            crate::dom::lemma_insert_fresh(w, w.len() as int, x);
            assert(dom.children_of(parent).to_set() =~= children@.subrange(0, i + 1).to_set());
            if children@.subrange(0, i + 1).no_duplicates() {
                assert(children@.subrange(0, i as int) =~= children@.subrange(0, i + 1).drop_last());
                let pre_i = children@.subrange(0, i + 1);
                crate::dom::lemma_prefix_step(pre_i, i as int);
                assert(pre_i.subrange(0, i as int) =~= children@.subrange(0, i as int));
                assert(pre_i[i as int] == x);
                assert(!children@.subrange(0, i as int).contains(x));
                assert(!cur.children_of(parent).contains(x)) by {
                    if cur.children_of(parent).contains(x) {
                        assert(cur.children_of(parent).to_set().contains(x));
                    }
                }
                assert(w == cur.children_of(parent));
                assert(dom.children_of(parent) =~= children@.subrange(0, i + 1));
            }
            assert forall|c: NodeId|
                pre.children_of(parent).contains(c) && !children@.contains(c) implies dom.parent_of(
                c,
            ) is None by {
                assert(c != x);
                assert(cur.parent_of(c) is None);
            }
            assert forall|k: NodeId| #[trigger] dom.contains_node(k) implies dom.kind_of(k)
                == pre.kind_of(k) by {
                assert(cur.contains_node(k));
            }
            assert forall|y: NodeId| #[trigger] pre.in_subtree(y, parent) implies dom.parent_of(y)
                == pre.parent_of(y) by {
                if y == x {
                    assert(pre.in_subtree(x, parent));
                }
            }
        }
        i = i + 1;
        proof {
            assert(children@.subrange(0, i as int) == children@.subrange(0, (i - 1) + 1));
        }
    }
    proof {
        assert(children@.subrange(0, children@.len() as int) =~= children@);
        assert(replace_error(pre, parent, children@) is None);
        pre.lemma_node(parent);
        assert forall|c: NodeId|
            pre.children_of(parent).contains(c) && !children@.contains(c) implies dom.contains_node(
            c,
        ) && dom.parent_of(c) is None by {
            let k = choose|k: int| 0 <= k < pre.children_of(parent).len() && pre.children_of(parent)[k] == c;
            assert(pre.contains_node(pre.children_of(parent)[k]));
        }
    }
    Ok(())
}

impl DomState {
    /// `replaceChildren`: the replacement runs on a copy first, so a refused
    /// replacement leaves the staging document untouched; the validated copy
    /// then becomes the staging document.
    pub fn replace_children(&mut self, parent: NodeId, children: &Vec<NodeId>) -> (r: Result<
        (),
        BridgeError,
    >)
        requires
            old(self).wf(),
        ensures
            final(self).wf(),
            final(self).leases() == old(self).leases(),
            final(self).body_id() == old(self).body_id(),
            final(self).dom().root_id() == old(self).dom().root_id(),
            r is Err <==> replace_error(old(self).dom(), parent, children@) is Some,
            r matches Err(e) ==> replace_error(old(self).dom(), parent, children@) matches Some(d)
                && e == BridgeError::Dom(d),
            r is Err ==> *final(self) == *old(self),
            r is Ok ==> final(self).reclaim_pending(),
            r is Ok ==> final(self).dom().children_of(parent).to_set() == children@.to_set(),
            r is Ok && children@.no_duplicates() ==> final(self).dom().children_of(parent)
                == children@,
            r is Ok ==> final(self).dom().children_of(parent) == appended_in_order(children@),
            r is Ok ==> forall|c: NodeId|
                old(self).dom().children_of(parent).contains(c) && !children@.contains(c)
                    ==> final(self).dom().contains_node(c) && final(self).dom().parent_of(c) is None,
    {
        let mut validation = self.staging.duplicate();
        proof {
            assert forall|c: NodeId| #[trigger] validation.append_error(parent, c)
                == self.staging.append_error(parent, c) by {
                assert(validation.in_subtree(c, parent) == self.staging.in_subtree(c, parent));
            }
            lemma_same_append_errors(validation, self.staging, parent, children@, 0);
        }
        match apply_replace_children(&mut validation, parent, children) {
            Err(e) => Err(BridgeError::Dom(e)),
            Ok(()) => {
                self.staging = validation;
                self.needs_reclaim = true;
                Ok(())
            },
        }
    }
}

/// The declarations of an element style that differ from the initial
/// style, as property name and value text, `position` first.
pub open spec fn declarations_of(style: ElementStyle) -> Seq<(Seq<char>, Seq<char>)> {
    let p = if style.position == Position::Static {
        Seq::empty()
    } else {
        seq![("position"@, position_keyword(style.position))]
    };
    let z = match style.z_index {
        ZIndex::Auto => Seq::empty(),
        ZIndex::Level(v) => seq![("z-index"@, integer_text(v))],
    };
    p + z
}

fn keyword_string(p: Position) -> (r: String)
    ensures
        r@ == position_keyword(p),
{
    match p {
        Position::Static => String::from_str("static"),
        Position::Relative => String::from_str("relative"),
        Position::Absolute => String::from_str("absolute"),
        Position::Fixed => String::from_str("fixed"),
    }
}

fn integer_string(z: i32) -> (r: String)
    ensures
        r@ == integer_text(z),
{
    if z < 0 {
        let magnitude = (0 - (z as i64)) as u64;
        let mut text = String::from_str("-");
        let digits = crate::node_id::decimal_string(magnitude);
        text.append(digits.as_str());
        proof {
            reveal_strlit("-");
        }
        text
    } else {
        crate::node_id::decimal_string(z as u64)
    }
}

impl DomState {
    /// Whether the element `id` carries the style property `name`.
    pub fn supports_style_property(&self, id: NodeId, name: &str) -> (r: Result<bool, BridgeError>)
        requires
            self.wf(),
        ensures
            !self.dom().contains_node(id) ==> r == Err::<bool, BridgeError>(BridgeError::StaleNode(id)),
            self.dom().contains_node(id) && !(self.dom().kind_of(id) is Element) ==> r == Err::<
                bool,
                BridgeError,
            >(BridgeError::Dom(DomError::NodeNotElement(id))),
            self.dom().contains_node(id) && self.dom().kind_of(id) is Element ==> r == Ok::<
                bool,
                BridgeError,
            >(supported_property(name@)),
    {
        match self.staging.kind(id) {
            None => Err(BridgeError::StaleNode(id)),
            Some(NodeKind::Element(_, _)) => Ok(supports_property(name)),
            Some(_) => Err(BridgeError::Dom(DomError::NodeNotElement(id))),
        }
    }

    /// The style declarations of node `id` that differ from the initial
    /// style; none for a node that is not an element.
    pub fn style_declarations(&self, id: NodeId) -> (r: Result<Vec<(String, String)>, BridgeError>)
        requires
            self.wf(),
        ensures
            r is Err <==> !self.dom().contains_node(id),
            r is Err ==> r == Err::<Vec<(String, String)>, BridgeError>(BridgeError::StaleNode(id)),
            r matches Ok(v) ==> v@.map_values(|d: (String, String)| (d.0@, d.1@)) == match self.dom().kind_of(
                id,
            ) {
                NodeKindView::Element(_, style) => declarations_of(style),
                _ => Seq::empty(),
            },
    {
        let style = match self.staging.kind(id) {
            None => {
                return Err(BridgeError::StaleNode(id));
            },
            Some(NodeKind::Element(_, style)) => *style,
            Some(_) => {
                let none: Vec<(String, String)> = Vec::new();
                proof {
                    assert(none@.map_values(|d: (String, String)| (d.0@, d.1@)) =~= Seq::<
                        (Seq<char>, Seq<char>),
                    >::empty());
                }
                return Ok(none);
            },
        };
        let mut out: Vec<(String, String)> = Vec::new();
        let ghost view = |d: (String, String)| (d.0@, d.1@);
        if style.position != Position::Static {
            out.push((String::from_str("position"), keyword_string(style.position)));
        }
        let ghost first = out@.map_values(view);
        proof {
            assert(first =~= if style.position == Position::Static {
                Seq::empty()
            } else {
                seq![("position"@, position_keyword(style.position))]
            });
        }
        match style.z_index {
            ZIndex::Auto => {},
            ZIndex::Level(v) => {
                out.push((String::from_str("z-index"), integer_string(v)));
            },
        }
        proof {
            assert(out@.map_values(view) =~= declarations_of(style));
        }
        Ok(out)
    }

    /// `style.setProperty(name, value)`: applies the declaration where the
    /// element carries the property and the value is valid, and says
    /// whether it did; anything else is ignored.
    pub fn set_style_property(&mut self, id: NodeId, name: &str, value: &str) -> (r: Result<bool, BridgeError>)
        requires
            old(self).wf(),
        ensures
            final(self).wf(),
            final(self).leases() == old(self).leases(),
            final(self).body_id() == old(self).body_id(),
            final(self).reclaim_pending() == old(self).reclaim_pending(),
            final(self).dom().root_id() == old(self).dom().root_id(),
            !old(self).dom().contains_node(id) ==> r == Err::<bool, BridgeError>(BridgeError::StaleNode(id))
                && *final(self) == *old(self),
            old(self).dom().contains_node(id) ==> match old(self).dom().kind_of(id) {
                NodeKindView::Element(tag, style) => match declared(style, name@, value@) {
                    Some(s2) => r == Ok::<bool, BridgeError>(true) && final(self).dom().nodes()
                        == old(self).dom().nodes().insert(
                        id,
                        DomNodeView {
                            kind: NodeKindView::Element(tag, s2),
                            ..old(self).dom().nodes()[id]
                        },
                    ),
                    None => r == Ok::<bool, BridgeError>(false) && *final(self) == *old(self),
                },
                _ => r == Err::<bool, BridgeError>(BridgeError::Dom(DomError::NodeNotElement(id)))
                    && *final(self) == *old(self),
            },
    {
        let (tag, style) = match self.staging.kind(id) {
            None => {
                return Err(BridgeError::StaleNode(id));
            },
            Some(NodeKind::Element(tag, style)) => (*tag, *style),
            Some(_) => {
                return Err(BridgeError::Dom(DomError::NodeNotElement(id)));
            },
        };
        match apply_declaration(style, name, value) {
            None => Ok(false),
            Some(s2) => {
                proof {
                    self.staging.lemma_root();
                }
                let done = self.staging.set_kind(id, NodeKind::Element(tag, s2));
                proof {
                    assert(done is Ok);
                }
                Ok(true)
            },
        }
    }

    /// `style.removeProperty(name)`: returns a carried property to its
    /// initial value and says whether the element carries it.
    pub fn remove_style_property(&mut self, id: NodeId, name: &str) -> (r: Result<bool, BridgeError>)
        requires
            old(self).wf(),
        ensures
            final(self).wf(),
            final(self).leases() == old(self).leases(),
            final(self).body_id() == old(self).body_id(),
            final(self).reclaim_pending() == old(self).reclaim_pending(),
            final(self).dom().root_id() == old(self).dom().root_id(),
            !old(self).dom().contains_node(id) ==> r == Err::<bool, BridgeError>(BridgeError::StaleNode(id))
                && *final(self) == *old(self),
            old(self).dom().contains_node(id) ==> match old(self).dom().kind_of(id) {
                NodeKindView::Element(tag, style) => match undeclared(style, name@) {
                    Some(s2) => r == Ok::<bool, BridgeError>(true) && final(self).dom().nodes()
                        == old(self).dom().nodes().insert(
                        id,
                        DomNodeView {
                            kind: NodeKindView::Element(tag, s2),
                            ..old(self).dom().nodes()[id]
                        },
                    ),
                    None => r == Ok::<bool, BridgeError>(false) && *final(self) == *old(self),
                },
                _ => r == Err::<bool, BridgeError>(BridgeError::Dom(DomError::NodeNotElement(id)))
                    && *final(self) == *old(self),
            },
    {
        let (tag, style) = match self.staging.kind(id) {
            None => {
                return Err(BridgeError::StaleNode(id));
            },
            Some(NodeKind::Element(tag, style)) => (*tag, *style),
            Some(_) => {
                return Err(BridgeError::Dom(DomError::NodeNotElement(id)));
            },
        };
        match remove_declaration(style, name) {
            None => Ok(false),
            Some(s2) => {
                proof {
                    self.staging.lemma_root();
                }
                let done = self.staging.set_kind(id, NodeKind::Element(tag, s2));
                proof {
                    assert(done is Ok);
                }
                Ok(true)
            },
        }
    }
}

impl DomState {
    /// `getAttribute`: the value of attribute `name`, or `None` where the
    /// node has no such attribute (a raw text node has none).
    pub fn get_attribute(&self, id: NodeId, name: &str) -> (r: Result<Option<String>, BridgeError>)
        requires
            self.wf(),
        ensures
            r is Err <==> !self.dom().contains_node(id),
            r is Err ==> r == Err::<Option<String>, BridgeError>(BridgeError::StaleNode(id)),
            r matches Ok(v) ==> (v is Some <==> self.dom().attributes_of(id).contains_key(name@)),
            r matches Ok(Some(v)) ==> v@ == self.dom().attributes_of(id)[name@],
    {
        if !self.staging.contains(id) {
            return Err(BridgeError::StaleNode(id));
        }
        Ok(self.staging.attribute(id, name))
    }

    /// `setAttribute`: sets attribute `name` of the element `id` to `value`.
    pub fn set_attribute(&mut self, id: NodeId, name: String, value: String) -> (r: Result<(), BridgeError>)
        requires
            old(self).wf(),
        ensures
            final(self).wf(),
            final(self).leases() == old(self).leases(),
            final(self).body_id() == old(self).body_id(),
            final(self).reclaim_pending() == old(self).reclaim_pending(),
            final(self).dom().root_id() == old(self).dom().root_id(),
            !old(self).dom().contains_node(id) ==> r == Err::<(), BridgeError>(BridgeError::StaleNode(id)),
            old(self).dom().contains_node(id) && old(self).dom().kind_of(id) is Text ==> r == Err::<
                (),
                BridgeError,
            >(BridgeError::Dom(DomError::NodeNotElement(id))),
            r is Ok <==> old(self).dom().contains_node(id) && !(old(self).dom().kind_of(id) is Text),
            r is Err ==> *final(self) == *old(self),
            r is Ok ==> final(self).dom().nodes() == old(self).dom().nodes().insert(
                id,
                DomNodeView {
                    attributes: old(self).dom().attributes_of(id).insert(name@, value@),
                    ..old(self).dom().nodes()[id]
                },
            ),
    {
        if !self.staging.contains(id) {
            return Err(BridgeError::StaleNode(id));
        }
        match self.staging.set_attribute(id, name, value) {
            Ok(()) => Ok(()),
            Err(e) => Err(BridgeError::Dom(e)),
        }
    }

    /// `removeAttribute`: removes attribute `name` from the element `id`,
    /// saying whether it was there.
    pub fn remove_attribute(&mut self, id: NodeId, name: &str) -> (r: Result<bool, BridgeError>)
        requires
            old(self).wf(),
        ensures
            final(self).wf(),
            final(self).leases() == old(self).leases(),
            final(self).body_id() == old(self).body_id(),
            final(self).reclaim_pending() == old(self).reclaim_pending(),
            final(self).dom().root_id() == old(self).dom().root_id(),
            !old(self).dom().contains_node(id) ==> r == Err::<bool, BridgeError>(BridgeError::StaleNode(id)),
            old(self).dom().contains_node(id) && old(self).dom().kind_of(id) is Text ==> r == Err::<
                bool,
                BridgeError,
            >(BridgeError::Dom(DomError::NodeNotElement(id))),
            r is Ok <==> old(self).dom().contains_node(id) && !(old(self).dom().kind_of(id) is Text),
            r is Err ==> *final(self) == *old(self),
            r matches Ok(b) ==> b == old(self).dom().attributes_of(id).contains_key(name@),
            r is Ok ==> final(self).dom().nodes() == old(self).dom().nodes().insert(
                id,
                DomNodeView {
                    attributes: old(self).dom().attributes_of(id).remove(name@),
                    ..old(self).dom().nodes()[id]
                },
            ),
    {
        if !self.staging.contains(id) {
            return Err(BridgeError::StaleNode(id));
        }
        let ghost pre = self.staging;
        match self.staging.remove_attribute(id, name) {
            Ok(b) => {
                proof {
                    if !b {
                        assert(pre.attributes_of(id).remove(name@) =~= pre.attributes_of(id));
                        assert(pre.nodes().insert(
                            id,
                            DomNodeView { attributes: pre.attributes_of(id).remove(name@), ..pre.nodes()[id] },
                        ) =~= pre.nodes());
                    }
                }
                Ok(b)
            },
            Err(e) => Err(BridgeError::Dom(e)),
        }
    }
}

impl DomState {
    /// `textContent = text`: a raw text node takes the text; an element loses
    /// its children and, unless the text is empty, gains one text child (a
    /// text element holding the raw text, unless it is itself a text element).
    pub fn set_text_content(&mut self, id: NodeId, text: String) -> (r: Result<(), BridgeError>)
        requires
            old(self).wf(),
            old(self).dom().nodes().len() + 2 < MAX_NODES,
        ensures
            final(self).wf(),
            final(self).leases() == old(self).leases(),
            final(self).body_id() == old(self).body_id(),
            final(self).dom().root_id() == old(self).dom().root_id(),
            !old(self).dom().contains_node(id) ==> r == Err::<(), BridgeError>(
                BridgeError::StaleNode(id),
            ),
            old(self).dom().contains_node(id) && old(self).dom().kind_of(id) is App ==> r == Err::<
                (),
                BridgeError,
            >(BridgeError::AppTextContent),
            r is Err ==> *final(self) == *old(self),
            r is Ok <==> old(self).dom().contains_node(id) && !(old(self).dom().kind_of(id) is App),
            r is Ok ==> text_content_spec(final(self).dom(), id) == text@,
            r is Ok && old(self).dom().kind_of(id) is Text ==> final(self).dom().nodes() == old(self).dom().nodes().insert(
                id,
                DomNodeView {
                    kind: NodeKindView::Text(text@),
                    parent: old(self).dom().parent_of(id),
                    children: old(self).dom().children_of(id),
                    attributes: old(self).dom().attributes_of(id),
                },
            ) && final(self).reclaim_pending() == old(self).reclaim_pending(),
            r is Ok && old(self).dom().kind_of(id) is Element ==> {
                &&& final(self).reclaim_pending()
                &&& final(self).dom().kind_of(id) == old(self).dom().kind_of(id)
                &&& final(self).dom().children_of(id).len() == if text@.len() == 0 {
                    0
                } else {
                    1int
                }
                &&& forall|c: NodeId|
                    old(self).dom().children_of(id).contains(c) ==> final(self).dom().contains_node(
                        c,
                    ) && final(self).dom().parent_of(c) is None
            },
            r is Ok && text@.len() > 0 && is_text_element(old(self).dom().kind_of(id)) ==> {
                let s = final(self).dom().children_of(id)[0];
                &&& !old(self).dom().contains_node(s)
                &&& final(self).dom().kind_of(s) == NodeKindView::Text(text@)
                &&& final(self).dom().children_of(s).len() == 0
            },
            r is Ok && text@.len() > 0 && old(self).dom().kind_of(id) is Element && !is_text_element(
                old(self).dom().kind_of(id),
            ) ==> {
                let t = final(self).dom().children_of(id)[0];
                let s = final(self).dom().children_of(t)[0];
                &&& !old(self).dom().contains_node(t)
                &&& final(self).dom().kind_of(t) == NodeKindView::Element(
                    ElementTag::Text,
                    ElementStyle { position: Position::Static, z_index: ZIndex::Auto },
                )
                &&& final(self).dom().children_of(t).len() == 1
                &&& !old(self).dom().contains_node(s)
                &&& final(self).dom().kind_of(s) == NodeKindView::Text(text@)
                &&& final(self).dom().children_of(s).len() == 0
            },
    {
        let ghost pre = self.staging;
        let ghost tv = text@;
        let kind = match self.staging.kind(id) {
            None => {
                return Err(BridgeError::StaleNode(id));
            },
            Some(k) => k.duplicate(),
        };
        proof {
            pre.lemma_node(id);
        }
        match kind {
            NodeKind::App => Err(BridgeError::AppTextContent),
            NodeKind::Text(_) => {
                let result = self.staging.set_kind(id, NodeKind::Text(text));
                proof {
                    assert(result is Ok);
                    assert(self.staging.contains_node(id));
                    assert(self.staging.kind_of(id) == NodeKindView::Text(tv));
                }
                Ok(())
            },
            NodeKind::Element(tag, _) => {
                detach_children(&mut self.staging, id);
                self.needs_reclaim = true;
                let ghost cleared = self.staging;
                if text.as_str().unicode_len() == 0 {
                    proof {
                        assert(cleared.children_of(id).len() == 0);
                        assert(text_content_spec(cleared, id) =~= tv);
                    }
                    return Ok(());
                }
                proof {
                    assert(cleared.nodes().dom() == pre.nodes().dom());
                    assert(cleared.nodes().len() == pre.nodes().len());
                    assert(cleared.contains_node(id));
                    assert(cleared.kind_of(id) == pre.kind_of(id));
                    cleared.lemma_root();
                }
                let string = self.staging.create(NodeKind::Text(text));
                let ghost made = self.staging;
                proof {
                    assert(made.nodes().dom() =~= cleared.nodes().dom().insert(string));
                    assert(!cleared.nodes().dom().contains(string));
                    assert(made.nodes().dom().len() == cleared.nodes().dom().len() + 1);
                    assert(made.nodes().len() == pre.nodes().len() + 1);
                    made.lemma_node(string);
                    assert(made.contains_node(id));
                    assert(string != id);
                    assert(made.kind_of(id) == pre.kind_of(id));
                    assert(made.kind_of(id) is Element);
                    assert(string != made.root_id());
                    assert(made.children_of(string).len() == 0);
                }
                if let ElementTag::Text = tag {
                    proof {
                        made.lemma_not_above(string, id);
                        made.lemma_node(id);
                    }
                    let result = self.staging.append_child(id, string);
                    proof {
                        assert(result is Ok);
                        let fin = self.staging;
                        assert(fin.children_of(id) =~= seq![string]);
                        assert(fin.kind_of(id) == pre.kind_of(id));
                        fin.lemma_child_measure(id, 0);
                        assert(fin.kind_of(string) == NodeKindView::Text(tv));
                        assert(text_content_spec(fin, string) == tv);
                        assert(children_text_spec(fin, id, 0) == Seq::<char>::empty());
                        assert(children_text_spec(fin, id, 1) =~= tv);
                        assert(fin.nodes().dom() =~= made.nodes().dom());
                        assert forall|c: NodeId|
                            pre.children_of(id).contains(c) implies fin.contains_node(c)
                                && fin.parent_of(c) is None by {
                            let k = choose|k: int|
                                0 <= k < pre.children_of(id).len() && pre.children_of(id)[k] == c;
                            assert(pre.contains_node(pre.children_of(id)[k]));
                            assert(c != string);
                        }
                    }
                    Ok(())
                } else {
                    let holder = self.staging.create(
                        NodeKind::Element(ElementTag::Text, ElementStyle::initial()),
                    );
                    let ghost made2 = self.staging;
                    proof {
                        assert(made2.contains_node(string));
                        assert(made2.contains_node(id));
                        assert(holder != string);
                        assert(holder != id);
                        assert(made2.kind_of(id) == pre.kind_of(id));
                        assert(made2.kind_of(holder) is Element);
                        assert(made2.kind_of(string) == NodeKindView::Text(tv));
                        assert(made2.children_of(string).len() == 0);
                        assert(made2.children_of(holder).len() == 0);
                        assert(made2.parent_of(string) is None);
                        assert(string != made2.root_id());
                        assert(holder != made2.root_id());
                        made2.lemma_node(holder);
                        made2.lemma_node(string);
                        made2.lemma_not_above(string, holder);
                    }
                    let first = self.staging.append_child(holder, string);
                    let ghost linked = self.staging;
                    proof {
                        assert(first is Ok);
                        assert(linked.children_of(holder) =~= seq![string]);
                        assert(linked.nodes().dom() =~= made2.nodes().dom());
                        linked.lemma_node(id);
                        linked.lemma_node(holder);
                        linked.lemma_node(string);
                        assert(linked.children_of(string).len() == 0);
                        assert(linked.children_of(holder)[0] == string);
                        assert(string != id);
                        linked.lemma_not_above(holder, id);
                        assert(linked.kind_of(id) == pre.kind_of(id));
                        assert(linked.kind_of(id) is Element);
                        assert(linked.contains_node(id));
                        assert(linked.contains_node(holder));
                        assert(holder != linked.root_id());
                        assert(linked.kind_of(string) == NodeKindView::Text(tv));
                    }
                    let second = self.staging.append_child(id, holder);
                    proof {
                        assert(second is Ok);
                        let fin = self.staging;
                        assert(fin.children_of(id) =~= seq![holder]);
                        assert(fin.children_of(holder) =~= seq![string]);
                        assert(fin.kind_of(id) == pre.kind_of(id));
                        fin.lemma_child_measure(id, 0);
                        fin.lemma_child_measure(holder, 0);
                        assert(fin.kind_of(string) == NodeKindView::Text(tv));
                        assert(text_content_spec(fin, string) == tv);
                        assert(children_text_spec(fin, holder, 0) == Seq::<char>::empty());
                        assert(children_text_spec(fin, holder, 1) =~= tv);
                        assert(text_content_spec(fin, holder) =~= tv);
                        assert(children_text_spec(fin, id, 0) == Seq::<char>::empty());
                        assert(children_text_spec(fin, id, 1) =~= tv);
                        assert(fin.nodes().dom() =~= linked.nodes().dom());
                        assert forall|c: NodeId|
                            pre.children_of(id).contains(c) implies fin.contains_node(c)
                                && fin.parent_of(c) is None by {
                            let k = choose|k: int|
                                0 <= k < pre.children_of(id).len() && pre.children_of(id)[k] == c;
                            assert(pre.contains_node(pre.children_of(id)[k]));
                            assert(c != string);
                            assert(c != holder);
                        }
                    }
                    Ok(())
                }
            },
        }
    }
}

/// Owns the script host's staging document and wrapper leases, serves the
/// DOM operations scripts call, and publishes the staging tree at runtime
/// checkpoints.
pub struct DomPlugin {
    state: DomState,
    shared: SharedDom,
    /// The revision of this plugin's latest publication; 0 before the first.
    published: u64,
    /// The staging document's revision at the latest publication.
    published_at: Option<u64>,
}

/// `snapshot` publishes `dom` as publication `revision`.
pub open spec fn publishes(snapshot: Snapshot, revision: u64, dom: Dom) -> bool {
    &&& snapshot.revision == revision
    &&& snapshot.dom.nodes() == dom.nodes()
    &&& snapshot.dom.root_id() == dom.root_id()
}

impl DomPlugin {
    pub closed spec fn state_view(&self) -> DomState {
        self.state
    }

    pub open spec fn wf(&self) -> bool {
        self.state_view().wf()
    }

    /// The revision of the plugin's latest publication.
    pub closed spec fn published_spec(&self) -> u64 {
        self.published
    }

    /// The staging document's revision when it was last published.
    pub closed spec fn published_at_spec(&self) -> Option<u64> {
        self.published_at
    }

    /// The revision of the plugin's latest publication; 0 before the first.
    pub fn published_revision(&self) -> (r: u64)
        ensures
            r == self.published_spec(),
    {
        self.published
    }

    /// A document with the App root and its initial Window, owned by a new
    /// plugin that publishes into `shared`. The Window is only staged:
    /// nothing is published until the first checkpoint.
    pub fn new(shared: SharedDom) -> (p: DomPlugin)
        ensures
            p.wf(),
            p.shared_view() == shared,
            p.published_spec() == 0,
            p.published_at_spec() is None,
            ({
                let st = p.state_view();
                let dom = st.dom();
                let root = dom.root_id();
                let body = st.body_id();
                &&& dom.nodes().dom() == set![root, body]
                &&& body != root
                &&& dom.kind_of(root) is App
                &&& dom.children_of(root) == seq![body]
                &&& dom.kind_of(body) == NodeKindView::Element(
                    ElementTag::Window,
                    ElementStyle {
                        position: crate::dom::Position::Static,
                        z_index: crate::dom::ZIndex::Auto,
                    },
                )
                &&& dom.parent_of(body) == Some(root)
                &&& dom.children_of(body) == Seq::<NodeId>::empty()
                &&& st.leases() == Map::<u64, usize>::empty()
                &&& !st.reclaim_pending()
            }),
    {
        let mut staging = Dom::new();
        let root = staging.root();
        proof {
            staging.lemma_root();
            assert(staging.nodes().len() == 1) by {
                assert(staging.nodes().dom() == set![root]);
            }
        }
        let body = staging.create(NodeKind::Element(ElementTag::Window, ElementStyle::initial()));
        let ghost made = staging;
        proof {
            made.lemma_node(body);
            made.lemma_not_above(body, root);
        }
        let appended = staging.append_child(root, body);
        proof {
            assert(appended is Ok);
            assert(staging.nodes().dom() =~= set![root, body]);
            assert(staging.children_of(root) =~= seq![body]);
        }
        DomPlugin {
            state: DomState {
                staging,
                body,
                wrapper_leases: HashMap::new(),
                needs_reclaim: false,
            },
            shared,
            published: 0,
            published_at: None,
        }
    }

    /// A plugin over a fresh shared document, and a handle to that document.
    pub fn with_new_dom() -> (r: (DomPlugin, SharedDom))
        ensures
            r.0.wf(),
            ({
                let st = r.0.state_view();
                let dom = st.dom();
                let root = dom.root_id();
                let body = st.body_id();
                &&& dom.nodes().dom() == set![root, body]
                &&& body != root
                &&& dom.kind_of(root) is App
                &&& dom.children_of(root) == seq![body]
                &&& dom.kind_of(body) == NodeKindView::Element(
                    ElementTag::Window,
                    ElementStyle {
                        position: crate::dom::Position::Static,
                        z_index: crate::dom::ZIndex::Auto,
                    },
                )
                &&& dom.parent_of(body) == Some(root)
                &&& dom.children_of(body) == Seq::<NodeId>::empty()
                &&& !st.reclaim_pending()
            }),
            r.0.state_view().leases() == Map::<u64, usize>::empty(),
            r.0.shared_view().cell_spec() == r.1.cell_spec(),
            r.0.shared_view().last_published() is None,
            r.0.published_spec() == 0,
            r.0.published_at_spec() is None,
            r.1.last_published() matches Some(first) && first.revision == 0 && first.dom.nodes().dom()
                == set![first.dom.root_id()] && first.dom.kind_of(first.dom.root_id()) == NodeKindView::App
                && first.dom.children_of(first.dom.root_id()) == Seq::<NodeId>::empty(),
    {
        let shared = SharedDom::publishing(Dom::new());
        let plugin = DomPlugin::new(shared.handle());
        (plugin, shared)
    }

    pub fn state(&self) -> (r: &DomState)
        ensures
            *r == self.state_view(),
    {
        &self.state
    }

    pub fn state_mut(&mut self) -> (r: &mut DomState)
        ensures
            *r == old(self).state_view(),
            final(self).state_view() == *final(r),
            final(self).shared_view() == old(self).shared_view(),
            final(self).published_spec() == old(self).published_spec(),
            final(self).published_at_spec() == old(self).published_at_spec(),
    {
        &mut self.state
    }

    pub closed spec fn shared_view(&self) -> SharedDom {
        self.shared
    }

    /// The document that this plugin publishes into.
    pub fn shared(&self) -> (r: &SharedDom)
        ensures
            *r == self.shared_view(),
    {
        &self.shared
    }

    /// A runtime checkpoint: reclaims unreachable components when a lease
    /// release or a detaching operation asked for it, then, if the staging
    /// tree changed since its last publication, publishes a copy of it as
    /// the next revision.
    pub fn checkpoint(&mut self)
        requires
            old(self).wf(),
            old(self).published_spec() < u64::MAX,
        ensures
            final(self).wf(),
            final(self).shared_view().cell_spec() == old(self).shared_view().cell_spec(),
            old(self).published_at_spec() != Some(final(self).state_view().dom().revision_spec()) ==> {
                &&& final(self).published_spec() == old(self).published_spec() + 1
                &&& final(self).published_at_spec() == Some(final(self).state_view().dom().revision_spec())
                &&& final(self).shared_view().last_published() matches Some(p) && publishes(
                    p,
                    final(self).published_spec(),
                    final(self).state_view().dom(),
                )
            },
            old(self).published_at_spec() == Some(final(self).state_view().dom().revision_spec()) ==> {
                &&& final(self).published_spec() == old(self).published_spec()
                &&& final(self).published_at_spec() == old(self).published_at_spec()
                &&& final(self).shared_view() == old(self).shared_view()
            },
            !final(self).state_view().reclaim_pending(),
            final(self).state_view().leases() == old(self).state_view().leases(),
            final(self).state_view().body_id() == old(self).state_view().body_id(),
            final(self).state_view().dom().root_id() == old(self).state_view().dom().root_id(),
            old(self).state_view().reclaim_pending() ==> final(self).state_view().dom().nodes()
                == old(self).state_view().dom().nodes().restrict(
                Set::new(|k: NodeId| old(self).state_view().retained(k)),
            ),
            !old(self).state_view().reclaim_pending() ==> final(self).state_view().dom() == old(self).state_view().dom(),
    {
        if self.state.needs_reclaim {
            self.state.reclaim_unreachable();
            self.state.needs_reclaim = false;
        }
        let at = self.state.staging.revision();
        match self.published_at {
            Some(last) => {
                if last == at {
                    return;
                }
            },
            None => {},
        }
        let revision = self.published + 1;
        let copy = self.state.staging.duplicate();
        self.shared.publish(Snapshot { revision, dom: copy });
        self.published = revision;
        self.published_at = Some(at);
    }
}

/// The handle scripts hold for a node: its FFI form in decimal.
pub fn encode(id: NodeId) -> (s: String)
    ensures
        s@ == crate::node_id::decimal(id@ as nat),
{
    crate::node_id::decimal_string(id.raw())
}

/// The node a script handle names, read as `KeyData::from_ffi` reads it.
pub fn decode(handle: &str) -> (r: Result<NodeId, BridgeError>)
    ensures
        r is Err <==> crate::node_id::parse_u64(handle@) is None,
        r is Err ==> r == Err::<NodeId, BridgeError>(BridgeError::InvalidHandle),
        r matches Ok(id) ==> id@ == canonical_raw(crate::node_id::parse_u64(handle@)->0),
{
    match crate::node_id::parse_decimal(handle) {
        None => Err(BridgeError::InvalidHandle),
        Some(raw) => Ok(NodeId::from_ffi(raw)),
    }
}

/// The handle of a node decodes to that node: `decode` reads back the text
/// that `encode` writes.
pub proof fn lemma_handle_round_trip(id: NodeId)
    requires
        canonical_raw(id@) == id@,
    ensures
        crate::node_id::parse_u64(crate::node_id::decimal(id@ as nat)) == Some(id@),
        canonical_raw(crate::node_id::parse_u64(crate::node_id::decimal(id@ as nat))->0) == id@,
{
    crate::node_id::lemma_decimal_round_trip(id@);
}

} // verus!
