//! Reading a document for drawing: the Window that the App root shows, and
//! the styled text runs of a paragraph. A run takes the style of the Text
//! element that holds its raw text. The document model carries no text
//! style properties, so a run's style key is that element's identity: runs
//! of one element share a key, and runs of different elements are kept
//! apart even where their styles would be equal.

use vstd::prelude::*;

use crate::dom::{Dom, ElementTag, NodeKind, NodeKindView};
use crate::node_id::NodeId;
use crate::text::{spans_view, TextSpan};

verus! {

/// The first Window among the children of the App root, from index `i` on.
pub open spec fn window_from(dom: Dom, i: int) -> Option<NodeId>
    decreases dom.children_of(dom.root_id()).len() - i,
{
    let kids = dom.children_of(dom.root_id());
    if i < 0 || i >= kids.len() {
        None
    } else if dom.kind_of(kids[i]) matches NodeKindView::Element(ElementTag::Window, _) {
        Some(kids[i])
    } else {
        window_from(dom, i + 1)
    }
}

/// The first Window child of the App root, if any.
pub fn first_window(dom: &Dom) -> (r: Option<NodeId>)
    requires
        dom.wf(),
    ensures
        r == window_from(*dom, 0),
{
    proof {
        dom.lemma_root();
        dom.lemma_node(dom.root_id());
    }
    let children = dom.children(dom.root()).unwrap();
    let mut i: usize = 0;
    while i < children.len()
        invariant
            dom.wf(),
            children@ == dom.children_of(dom.root_id()),
            forall|k: int| 0 <= k < children@.len() ==> dom.contains_node(#[trigger] children@[k]),
            i <= children@.len(),
            window_from(*dom, 0) == window_from(*dom, i as int),
        decreases children@.len() - i,
    {
        match dom.kind(children[i]).unwrap() {
            NodeKind::Element(ElementTag::Window, _) => {
                return Some(children[i]);
            },
            _ => {},
        }
        i = i + 1;
    }
    None
}

/// The runs below `n` from its child `i` on: raw text takes the style of
/// `n`, a nested Text element gives its own runs, anything else none.
pub open spec fn runs_below(dom: Dom, n: NodeId, i: int) -> Seq<(Seq<char>, u64)>
    decreases dom.depth_measure(n), dom.children_of(n).len() - i,
{
    if i < 0 || i >= dom.children_of(n).len() {
        Seq::empty()
    } else {
        let c = dom.children_of(n)[i];
        let here = match dom.kind_of(c) {
            NodeKindView::Text(s) => seq![(s, n@)],
            NodeKindView::Element(ElementTag::Text, _) => if dom.depth_measure(c) < dom.depth_measure(
                n,
            ) {
                runs_below(dom, c, 0)
            } else {
                Seq::empty()
            },
            _ => Seq::empty(),
        };
        here + runs_below(dom, n, i + 1)
    }
}

/// The runs of a Text element; nothing for any other node.
pub open spec fn text_runs(dom: Dom, n: NodeId) -> Seq<(Seq<char>, u64)> {
    if dom.kind_of(n) matches NodeKindView::Element(ElementTag::Text, _) {
        runs_below(dom, n, 0)
    } else {
        Seq::empty()
    }
}

/// Appends the runs of the Text element `id` to `spans`.
pub fn collect_text_spans(dom: &Dom, id: NodeId, spans: &mut Vec<TextSpan>)
    requires
        dom.wf(),
        dom.contains_node(id),
    ensures
        spans_view(final(spans)@) == spans_view(old(spans)@) + text_runs(*dom, id),
    decreases dom.depth_measure(id),
{
    let is_text = match dom.kind(id).unwrap() {
        NodeKind::Element(ElementTag::Text, _) => true,
        _ => false,
    };
    if !is_text {
        proof {
            assert(spans_view(spans@) =~= spans_view(old(spans)@) + text_runs(*dom, id));
        }
        return;
    }
    proof {
        dom.lemma_node(id);
    }
    let children = dom.children(id).unwrap();
    let ghost start = spans_view(old(spans)@);
    let mut i: usize = 0;
    while i < children.len()
        invariant
            dom.wf(),
            dom.contains_node(id),
            children@ == dom.children_of(id),
            forall|k: int| 0 <= k < children@.len() ==> dom.contains_node(#[trigger] children@[k]),
            i <= children@.len(),
            spans_view(spans@) + runs_below(*dom, id, i as int) == start + runs_below(*dom, id, 0),
        decreases children@.len() - i,
    {
        let c = children[i];
        proof {
            dom.lemma_child_measure(id, i as int);
        }
        let ghost before = spans_view(spans@);
        match dom.kind(c).unwrap() {
            NodeKind::Text(s) => {
                spans.push(TextSpan { text: s.clone(), style: id.raw() });
                proof {
                    assert(spans_view(spans@) =~= before + seq![(s@, id@)]);
                    assert(runs_below(*dom, id, i as int) == seq![(s@, id@)] + runs_below(
                        *dom,
                        id,
                        i + 1,
                    ));
                }
            },
            NodeKind::Element(ElementTag::Text, _) => {
                collect_text_spans(dom, c, spans);
                proof {
                    assert(runs_below(*dom, id, i as int) == runs_below(*dom, c, 0) + runs_below(
                        *dom,
                        id,
                        i + 1,
                    ));
                }
            },
            _ => {
                proof {
                    assert(runs_below(*dom, id, i as int) =~= runs_below(*dom, id, i + 1));
                }
            },
        }
        i = i + 1;
    }
    proof {
        assert(runs_below(*dom, id, i as int) =~= Seq::<(Seq<char>, u64)>::empty());
    }
}

/// The runs of the Text element `id`.
pub fn text_spans(dom: &Dom, id: NodeId) -> (r: Vec<TextSpan>)
    requires
        dom.wf(),
        dom.contains_node(id),
    ensures
        spans_view(r@) == text_runs(*dom, id),
{
    let mut spans: Vec<TextSpan> = Vec::new();
    proof {
        assert(spans_view(spans@) =~= Seq::<(Seq<char>, u64)>::empty());
    }
    collect_text_spans(dom, id, &mut spans);
    proof {
        assert(Seq::<(Seq<char>, u64)>::empty() + text_runs(*dom, id) =~= text_runs(*dom, id));
    }
    spans
}

} // verus!
