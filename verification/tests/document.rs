use burokku::dom::{Dom, DomError, ElementStyle, ElementTag, NodeKind, Position, ZIndex};
use burokku::node_id::{decimal_string, encode_node_id, parse_decimal, NodeId};

fn element(dom: &mut Dom, tag: ElementTag) -> NodeId {
    dom.create(NodeKind::Element(tag, ElementStyle::initial()))
}

fn text(dom: &mut Dom, value: &str) -> NodeId {
    dom.create(NodeKind::Text(value.to_string()))
}

#[test]
fn node_tokens_preserve_full_node_id_precision() {
    let mut dom = Dom::new();
    let token = encode_node_id(text(&mut dom, "token"));

    assert_eq!(token.len(), 16);
    assert!(token.bytes().all(|byte| byte.is_ascii_hexdigit()));
}

#[test]
fn encoded_tokens_are_zero_padded_lower_case_hex() {
    let id = NodeId::from_ffi(0x0000_0003_0000_002a);
    assert_eq!(encode_node_id(id), "000000030000002a");
    // The version half is forced odd, as slot-map keys always are.
    let forced = NodeId::from_ffi(0x0000_0002_0000_0001);
    assert_eq!(forced.raw(), 0x0000_0003_0000_0001);
    assert_eq!(encode_node_id(forced), "0000000300000001");
}

#[test]
fn decimal_text_round_trips_through_the_parser() {
    assert_eq!(decimal_string(0), "0");
    assert_eq!(decimal_string(4_294_967_338), "4294967338");
    assert_eq!(decimal_string(u64::MAX), "18446744073709551615");
    assert_eq!(parse_decimal("4294967338"), Some(4_294_967_338));
    assert_eq!(parse_decimal("+7"), Some(7));
    assert_eq!(parse_decimal("18446744073709551615"), Some(u64::MAX));
    assert_eq!(parse_decimal("18446744073709551616"), None);
    assert_eq!(parse_decimal(""), None);
    assert_eq!(parse_decimal("+"), None);
    assert_eq!(parse_decimal("-1"), None);
    assert_eq!(parse_decimal("12a"), None);
}

#[test]
fn a_new_document_holds_only_the_app_root() {
    let dom = Dom::new();
    let root = dom.root();
    assert_eq!(dom.len(), 1);
    assert!(dom.contains(root));
    assert!(matches!(dom.kind(root), Some(NodeKind::App)));
    assert_eq!(dom.parent(root), None);
    assert_eq!(dom.children(root).map(|c| c.len()), Some(0));
    assert_eq!(dom.is_connected(root), Ok(true));
}

#[test]
fn appending_and_inserting_keep_child_order() {
    let mut dom = Dom::new();
    let root = dom.root();
    let window = element(&mut dom, ElementTag::Window);
    let a = element(&mut dom, ElementTag::Div);
    let b = element(&mut dom, ElementTag::Div);
    let c = element(&mut dom, ElementTag::Div);
    dom.append_child(root, window).unwrap();
    dom.append_child(window, a).unwrap();
    dom.append_child(window, c).unwrap();
    dom.insert_child(window, 1, b).unwrap();
    assert_eq!(dom.children(window).unwrap().as_slice(), &[a, b, c]);
    assert_eq!(dom.parent(b), Some(window));
    // Moving a child within the same parent first takes it out.
    dom.insert_child(window, 0, c).unwrap();
    assert_eq!(dom.children(window).unwrap().as_slice(), &[c, a, b]);
    dom.append_child(window, c).unwrap();
    assert_eq!(dom.children(window).unwrap().as_slice(), &[a, b, c]);
    assert!(dom.is_inclusive_ancestor(window, b));
    assert!(dom.is_inclusive_ancestor(b, b));
    assert!(!dom.is_inclusive_ancestor(b, window));
    assert_eq!(dom.top_ancestor(b), root);
    assert_eq!(dom.is_connected(b), Ok(true));
}

#[test]
fn refused_insertions_name_their_reason() {
    let mut dom = Dom::new();
    let root = dom.root();
    let window = element(&mut dom, ElementTag::Window);
    let div = element(&mut dom, ElementTag::Div);
    let raw = text(&mut dom, "raw");
    dom.append_child(root, window).unwrap();
    dom.append_child(window, div).unwrap();
    let before = dom.children(window).unwrap().clone();

    assert_eq!(
        dom.append_child(raw, div),
        Err(DomError::TextCannotHaveChildren(raw))
    );
    assert_eq!(
        dom.append_child(div, window),
        Err(DomError::HierarchyRequest { parent: div, child: window })
    );
    assert_eq!(
        dom.append_child(div, div),
        Err(DomError::HierarchyRequest { parent: div, child: div })
    );
    assert_eq!(
        dom.append_child(window, root),
        Err(DomError::HierarchyRequest { parent: window, child: root })
    );
    assert_eq!(
        dom.insert_child(window, 3, raw),
        Err(DomError::IndexOutOfBounds { parent: window, index: 3 })
    );
    dom.remove_subtree(raw).unwrap();
    assert_eq!(dom.append_child(window, raw), Err(DomError::NodeNotFound(raw)));
    assert_eq!(dom.children(window).unwrap(), &before);
}

#[test]
fn removing_a_subtree_destroys_every_descendant() {
    let mut dom = Dom::new();
    let root = dom.root();
    let window = element(&mut dom, ElementTag::Window);
    let panel = element(&mut dom, ElementTag::Div);
    let label = element(&mut dom, ElementTag::Text);
    let words = text(&mut dom, "words");
    dom.append_child(root, window).unwrap();
    dom.append_child(window, panel).unwrap();
    dom.append_child(panel, label).unwrap();
    dom.append_child(label, words).unwrap();
    assert_eq!(dom.len(), 5);

    dom.remove_subtree(panel).unwrap();
    assert_eq!(dom.len(), 2);
    for gone in [panel, label, words] {
        assert!(!dom.contains(gone));
        assert_eq!(dom.is_connected(gone), Err(DomError::NodeNotFound(gone)));
    }
    assert_eq!(dom.children(window).map(|c| c.len()), Some(0));
    assert_eq!(dom.remove_subtree(root), Err(DomError::RootIsPermanent));
    assert_eq!(dom.remove_subtree(panel), Err(DomError::NodeNotFound(panel)));

    // A new node never reuses the identity of a destroyed one.
    let replacement = element(&mut dom, ElementTag::Div);
    assert_ne!(replacement, panel);
    assert!(!dom.contains(panel));
}

#[test]
fn detached_components_keep_their_shape() {
    let mut dom = Dom::new();
    let root = dom.root();
    let window = element(&mut dom, ElementTag::Window);
    let panel = element(&mut dom, ElementTag::Div);
    let child = element(&mut dom, ElementTag::Div);
    dom.append_child(root, window).unwrap();
    dom.append_child(window, panel).unwrap();
    dom.append_child(panel, child).unwrap();

    dom.detach(panel).unwrap();
    assert_eq!(dom.parent(panel), None);
    assert_eq!(dom.parent(child), Some(panel));
    assert_eq!(dom.is_connected(child), Ok(false));
    assert_eq!(dom.top_ancestor(child), panel);
    assert_eq!(dom.detached_roots(), vec![panel]);

    dom.append_child(window, panel).unwrap();
    assert_eq!(dom.is_connected(child), Ok(true));
    assert!(dom.detached_roots().is_empty());
}

#[test]
fn revisions_advance_with_each_change() {
    let mut dom = Dom::new();
    let root = dom.root();
    let start = dom.revision();
    let window = element(&mut dom, ElementTag::Window);
    let after_create = dom.revision();
    assert!(after_create > start);
    dom.append_child(root, window).unwrap();
    assert!(dom.revision() > after_create);
    let before_refusal = dom.revision();
    assert!(dom.append_child(window, root).is_err());
    assert_eq!(dom.revision(), before_refusal);
}

#[test]
fn element_tags_and_kind_changes() {
    let mut dom = Dom::new();
    let root = dom.root();
    let grid = element(&mut dom, ElementTag::Grid);
    let raw = text(&mut dom, "raw");
    let child = element(&mut dom, ElementTag::Div);
    dom.append_child(grid, child).unwrap();

    assert_eq!(dom.element_tag(grid), Ok(ElementTag::Grid));
    assert_eq!(dom.element_tag(raw), Err(DomError::NodeNotElement(raw)));
    assert_eq!(dom.element_tag(root), Err(DomError::NodeNotElement(root)));

    let styled = ElementStyle { position: Position::Relative, z_index: ZIndex::Level(2) };
    dom.set_kind(grid, NodeKind::Element(ElementTag::Flex, styled)).unwrap();
    assert_eq!(dom.element_tag(grid), Ok(ElementTag::Flex));
    assert_eq!(dom.children(grid).unwrap().as_slice(), &[child]);
    assert_eq!(
        dom.set_kind(grid, NodeKind::Text("x".to_string())),
        Err(DomError::TextCannotHaveChildren(grid))
    );
    assert_eq!(dom.set_kind(root, NodeKind::Text(String::new())), Err(DomError::RootIsPermanent));
    assert_eq!(dom.set_kind(child, NodeKind::App), Err(DomError::RootIsPermanent));
}

#[test]
fn duplicates_are_independent_copies() {
    let mut dom = Dom::new();
    let root = dom.root();
    let window = element(&mut dom, ElementTag::Window);
    dom.append_child(root, window).unwrap();
    let copy = dom.duplicate();
    let extra = element(&mut dom, ElementTag::Div);
    dom.append_child(window, extra).unwrap();
    assert_eq!(copy.len(), 2);
    assert_eq!(copy.children(window).map(|c| c.len()), Some(0));
    assert_eq!(dom.children(window).map(|c| c.len()), Some(1));
}

#[test]
fn tokens_differ_for_ids_that_differ_only_in_generation() {
    let first = NodeId::from_ffi(0x0000_0001_0000_0005);
    let second = NodeId::from_ffi(0x0000_0003_0000_0005);
    assert_ne!(encode_node_id(first), encode_node_id(second));
    assert_eq!(encode_node_id(first), encode_node_id(NodeId::from_ffi(first.raw())));
}
