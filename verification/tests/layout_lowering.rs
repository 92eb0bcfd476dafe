use std::collections::HashSet;

use burokku::dom::{Dom, ElementStyle, ElementTag, NodeKind, Position, ZIndex};
use burokku::node_id::NodeId;
use burokku::reconcile::{reconcile_full, LayoutRole, ScratchLayout};
use burokku::topology::{LayoutError, LayoutId, LayoutTopology};

fn element(dom: &mut Dom, tag: ElementTag) -> NodeId {
    dom.create(NodeKind::Element(tag, ElementStyle::initial()))
}

fn positioned(dom: &mut Dom, tag: ElementTag, position: Position) -> NodeId {
    dom.create(NodeKind::Element(tag, ElementStyle { position, z_index: ZIndex::Auto }))
}

fn text(dom: &mut Dom, value: &str) -> NodeId {
    dom.create(NodeKind::Text(value.to_string()))
}

/// A document whose App root holds one Window.
fn with_window() -> (Dom, NodeId) {
    let mut dom = Dom::new();
    let window = element(&mut dom, ElementTag::Window);
    dom.append_child(dom.root(), window).unwrap();
    (dom, window)
}

fn children_of(layout: &ScratchLayout, id: NodeId) -> Vec<NodeId> {
    layout
        .topology
        .children(LayoutId::for_dom(id))
        .unwrap()
        .iter()
        .map(|child| layout.topology.dom_id(*child).unwrap())
        .collect()
}

#[test]
fn layout_ids_preserve_dom_generations_and_round_trip() {
    let mut dom = Dom::new();
    let first = element(&mut dom, ElementTag::Div);
    let first_layout = LayoutId::for_dom(first);
    dom.remove_subtree(first).unwrap();
    let replacement = element(&mut dom, ElementTag::Div);
    let replacement_layout = LayoutId::for_dom(replacement);

    assert_eq!(first_layout.decode_dom(), first);
    assert_eq!(replacement_layout.decode_dom(), replacement);
    assert_ne!(first_layout, replacement_layout);
}

#[test]
fn topology_validates_forward_reverse_and_ordered_parent_edges() {
    let mut dom = Dom::new();
    let window = element(&mut dom, ElementTag::Window);
    let first = element(&mut dom, ElementTag::Div);
    let second = element(&mut dom, ElementTag::Grid);
    let mut topology = LayoutTopology::new();
    let root = topology.insert_root(window).unwrap();
    let first_id = topology.insert_child(first, window, root, 0).unwrap();
    let second_id = topology.insert_child(second, window, root, 1).unwrap();
    let sidecars: HashSet<u64> = HashSet::from([root.raw, first_id.raw, second_id.raw]);

    topology.validate(&sidecars, 8).unwrap();

    assert_eq!(topology.layout_id(first), Some(first_id));
    assert_eq!(topology.dom_id(second_id), Some(second));
    assert_eq!(topology.parent(first_id), Some(root));
    assert_eq!(
        topology.children(root).map(|c| c.as_slice()),
        Some(&[first_id, second_id][..])
    );
    assert_eq!(
        topology.positioning(second_id).unwrap().dom_parent,
        Some(window)
    );
    assert_eq!(
        topology.positioning(second_id).unwrap().containing_block,
        Some(root)
    );
    assert_eq!(topology.positioning(second_id).unwrap().source_order, 1);
    assert!(!topology.is_empty());
}

#[test]
fn topology_refuses_duplicates_and_unknown_parents() {
    let mut dom = Dom::new();
    let window = element(&mut dom, ElementTag::Window);
    let child = element(&mut dom, ElementTag::Div);
    let stranger = element(&mut dom, ElementTag::Div);
    let mut topology = LayoutTopology::new();
    assert!(topology.is_empty());
    let root = topology.insert_root(window).unwrap();
    assert_eq!(topology.root(), Some(root));
    assert_eq!(topology.insert_root(window), Err(LayoutError::DuplicateDomNode(window)));
    let child_id = topology.insert_child(child, window, root, 0).unwrap();
    assert_eq!(
        topology.insert_child(child, window, root, 1),
        Err(LayoutError::DuplicateDomNode(child))
    );
    let missing = LayoutId::for_dom(stranger);
    assert_eq!(
        topology.insert_child(stranger, window, missing, 0),
        Err(LayoutError::MissingLayoutNode(missing))
    );
    assert_eq!(topology.len(), 2);
    assert_eq!(topology.children(child_id).map(|c| c.len()), Some(0));
    assert_eq!(topology.parent(root), None);
}

#[test]
fn topology_validation_finds_missing_sidecars() {
    let mut dom = Dom::new();
    let window = element(&mut dom, ElementTag::Window);
    let outer = element(&mut dom, ElementTag::Div);
    let inner = element(&mut dom, ElementTag::Div);
    let mut topology = LayoutTopology::new();
    let root = topology.insert_root(window).unwrap();
    let outer_id = topology.insert_child(outer, window, root, 0).unwrap();
    let inner_id = topology.insert_child(inner, outer, outer_id, 0).unwrap();

    let partial: HashSet<u64> = HashSet::from([root.raw, outer_id.raw]);
    assert_eq!(
        topology.validate(&partial, 8),
        Err(LayoutError::MissingLayoutSidecar(inner_id))
    );
    let all: HashSet<u64> = HashSet::from([root.raw, outer_id.raw, inner_id.raw]);
    assert_eq!(topology.validate(&all, 2), Ok(()));
    assert!(LayoutTopology::new().validate(&HashSet::new(), 8).is_ok());
}

#[test]
fn an_app_without_a_window_lowers_to_an_empty_layout() {
    let dom = Dom::new();
    let layout = reconcile_full(&dom, 64).unwrap();
    assert_eq!(layout.window, None);
    assert!(layout.topology.is_empty());
    assert!(layout.nodes.is_empty());
    assert_eq!(layout.revision, dom.revision());
}

#[test]
fn containers_and_paragraphs_lower_in_document_order() {
    let (mut dom, window) = with_window();
    let panel = element(&mut dom, ElementTag::Div);
    let flex = element(&mut dom, ElementTag::Flex);
    let paragraph = element(&mut dom, ElementTag::Text);
    let hello = text(&mut dom, "hello ");
    let nested = element(&mut dom, ElementTag::Text);
    let world = text(&mut dom, "world");
    dom.append_child(window, panel).unwrap();
    dom.append_child(window, flex).unwrap();
    dom.append_child(flex, paragraph).unwrap();
    dom.append_child(paragraph, hello).unwrap();
    dom.append_child(paragraph, nested).unwrap();
    dom.append_child(nested, world).unwrap();

    let layout = reconcile_full(&dom, 64).unwrap();
    assert_eq!(layout.window, Some(window));
    assert_eq!(layout.topology.root(), Some(LayoutId::for_dom(window)));
    assert_eq!(layout.topology.len(), 4);
    assert_eq!(children_of(&layout, window), vec![panel, flex]);
    assert_eq!(children_of(&layout, flex), vec![paragraph]);
    assert_eq!(layout.topology.layout_id(hello), None);
    assert_eq!(layout.topology.layout_id(nested), None);
    match &layout.nodes[&paragraph.raw()].role {
        LayoutRole::Paragraph { text } => assert_eq!(text, "hello world"),
        LayoutRole::Container => panic!("a Text element lowers to a paragraph"),
    }
    assert!(matches!(layout.nodes[&panel.raw()].role, LayoutRole::Container));
    assert_eq!(layout.nodes[&flex.raw()].dom_id, flex);
    for member in [hello, nested, world] {
        assert_eq!(layout.text_owner[&member.raw()], paragraph);
    }
    assert_eq!(layout.text_owner[&paragraph.raw()], paragraph);
    let meta = layout.topology.positioning(LayoutId::for_dom(flex)).unwrap();
    assert_eq!(meta.dom_parent, Some(window));
    assert_eq!(meta.source_order, 1);
}

#[test]
fn positioned_boxes_hang_below_their_containing_blocks() {
    let (mut dom, window) = with_window();
    let relative = positioned(&mut dom, ElementTag::Div, Position::Relative);
    let plain = element(&mut dom, ElementTag::Div);
    let absolute = positioned(&mut dom, ElementTag::Div, Position::Absolute);
    let fixed = positioned(&mut dom, ElementTag::Grid, Position::Fixed);
    let orphan = positioned(&mut dom, ElementTag::Div, Position::Absolute);
    dom.append_child(window, relative).unwrap();
    dom.append_child(relative, plain).unwrap();
    dom.append_child(plain, absolute).unwrap();
    dom.append_child(plain, fixed).unwrap();
    dom.append_child(window, orphan).unwrap();

    let layout = reconcile_full(&dom, 64).unwrap();
    let topology = &layout.topology;
    assert_eq!(
        topology.parent(LayoutId::for_dom(absolute)),
        Some(LayoutId::for_dom(relative))
    );
    assert_eq!(
        topology.parent(LayoutId::for_dom(fixed)),
        Some(LayoutId::for_dom(window))
    );
    assert_eq!(
        topology.parent(LayoutId::for_dom(orphan)),
        Some(LayoutId::for_dom(window))
    );
    assert_eq!(
        topology.parent(LayoutId::for_dom(plain)),
        Some(LayoutId::for_dom(relative))
    );
    let meta = topology.positioning(LayoutId::for_dom(absolute)).unwrap();
    assert_eq!(meta.dom_parent, Some(plain));
    assert_eq!(meta.containing_block, Some(LayoutId::for_dom(relative)));
    assert_eq!(meta.source_order, 0);
    let fixed_meta = topology.positioning(LayoutId::for_dom(fixed)).unwrap();
    assert_eq!(fixed_meta.source_order, 1);
}

#[test]
fn the_app_root_must_hold_at_most_one_window() {
    let mut dom = Dom::new();
    let root = dom.root();
    let first = element(&mut dom, ElementTag::Window);
    let second = element(&mut dom, ElementTag::Window);
    dom.append_child(root, first).unwrap();
    dom.append_child(root, second).unwrap();
    assert_eq!(
        reconcile_full(&dom, 64).unwrap_err(),
        LayoutError::InvalidAppChildren { count: 2 }
    );

    let mut dom = Dom::new();
    let root = dom.root();
    let div = element(&mut dom, ElementTag::Div);
    dom.append_child(root, div).unwrap();
    assert_eq!(reconcile_full(&dom, 64).unwrap_err(), LayoutError::ExpectedWindow(div));
}

#[test]
fn misplaced_windows_and_text_are_refused() {
    let (mut dom, window) = with_window();
    let inner = element(&mut dom, ElementTag::Window);
    dom.append_child(window, inner).unwrap();
    assert_eq!(reconcile_full(&dom, 64).unwrap_err(), LayoutError::UnexpectedWindow(inner));

    let (mut dom, window) = with_window();
    let panel = element(&mut dom, ElementTag::Div);
    let raw = text(&mut dom, "loose");
    dom.append_child(window, panel).unwrap();
    dom.append_child(panel, raw).unwrap();
    assert_eq!(
        reconcile_full(&dom, 64).unwrap_err(),
        LayoutError::RawTextOutsideParagraph(raw)
    );

    let (mut dom, window) = with_window();
    let paragraph = element(&mut dom, ElementTag::Text);
    let nested = element(&mut dom, ElementTag::Text);
    let block = element(&mut dom, ElementTag::Div);
    dom.append_child(window, paragraph).unwrap();
    dom.append_child(paragraph, nested).unwrap();
    dom.append_child(nested, block).unwrap();
    assert_eq!(
        reconcile_full(&dom, 64).unwrap_err(),
        LayoutError::InvalidParagraphChild { paragraph, child: block }
    );
}

#[test]
fn container_nesting_is_limited() {
    let (mut dom, window) = with_window();
    let mut parent = window;
    for _ in 0..3 {
        let child = element(&mut dom, ElementTag::Div);
        dom.append_child(parent, child).unwrap();
        parent = child;
    }
    // The Window is depth one, so three nested boxes reach depth four.
    assert!(reconcile_full(&dom, 4).is_ok());
    assert_eq!(
        reconcile_full(&dom, 3).unwrap_err(),
        LayoutError::TreeTooDeep { depth: 4, limit: 3 }
    );
    // A paragraph does not count as a container level.
    let paragraph = element(&mut dom, ElementTag::Text);
    dom.append_child(parent, paragraph).unwrap();
    assert!(reconcile_full(&dom, 4).is_ok());
}

#[test]
fn detached_nodes_are_left_out_of_the_layout() {
    let (mut dom, window) = with_window();
    let kept = element(&mut dom, ElementTag::Div);
    let detached = element(&mut dom, ElementTag::Div);
    dom.append_child(window, kept).unwrap();
    let layout = reconcile_full(&dom, 64).unwrap();
    assert_eq!(layout.topology.len(), 2);
    assert_eq!(layout.topology.layout_id(detached), None);
    assert!(!layout.nodes.contains_key(&detached.raw()));
}
