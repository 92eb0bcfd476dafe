use burokku::bridge::{
    apply_replace_children, decode, element_for_tag, element_name, encode, BridgeError, DomPlugin,
};
use burokku::dom::{Dom, DomError, ElementStyle, ElementTag, NodeKind};
use burokku::node_id::NodeId;
use burokku::shared::SharedDom;

fn plugin() -> DomPlugin {
    DomPlugin::with_new_dom().0
}

#[test]
fn a_new_plugin_starts_with_app_and_window() {
    let plugin = plugin();
    let state = plugin.state();
    let root = state.root();
    let body = state.body();
    assert_eq!(state.node_count(), 2);
    assert_eq!(state.children(root).unwrap(), vec![body]);
    assert_eq!(state.node_name(root), Ok("APP"));
    assert_eq!(state.node_name(body), Ok("WINDOW"));
    assert_eq!(state.node_type(body), Ok(1));
    assert_eq!(state.parent(body), Ok(Some(root)));
    assert!(!state.needs_reclaim());
}

#[test]
fn scripts_build_and_read_a_tree() {
    let mut plugin = plugin();
    let state = plugin.state_mut();
    let body = state.body();
    let panel = state.create_element("div").unwrap();
    let label = state.create_element("text").unwrap();
    let words = state.create_text_node("hello".to_string());
    let more = state.create_text_node(" world".to_string());
    state.append(body, panel).unwrap();
    state.append(panel, label).unwrap();
    state.append(label, words).unwrap();
    state.append(label, more).unwrap();

    assert_eq!(state.first_child(body), Ok(Some(panel)));
    assert_eq!(state.first_child(words), Ok(None));
    assert_eq!(state.next_sibling(words), Ok(Some(more)));
    assert_eq!(state.next_sibling(more), Ok(None));
    assert_eq!(state.node_type(words), Ok(3));
    assert_eq!(state.node_name(words), Ok("#text"));
    assert_eq!(state.node_name(label), Ok("TEXT"));
    assert_eq!(state.text_content(panel).unwrap(), "hello world");
    assert_eq!(state.text_content(body).unwrap(), "hello world");
    assert_eq!(
        state.create_element("span"),
        Err(BridgeError::UnsupportedElement)
    );
}

#[test]
fn insert_before_places_the_child_before_its_reference() {
    let mut plugin = plugin();
    let state = plugin.state_mut();
    let body = state.body();
    let a = state.create_element("div").unwrap();
    let b = state.create_element("div").unwrap();
    let c = state.create_element("div").unwrap();
    state.insert_before(body, a, None).unwrap();
    state.insert_before(body, c, None).unwrap();
    state.insert_before(body, b, Some(c)).unwrap();
    assert_eq!(state.children(body).unwrap(), vec![a, b, c]);
    // Inserting a node before itself leaves the tree as it is.
    state.insert_before(body, b, Some(b)).unwrap();
    assert_eq!(state.children(body).unwrap(), vec![a, b, c]);
    // The reference must be a child of the requested parent.
    let stranger = state.create_element("div").unwrap();
    assert_eq!(
        state.insert_before(body, stranger, Some(stranger)),
        Err(BridgeError::NotAChild)
    );
    assert_eq!(state.insert_before(a, c, Some(b)), Err(BridgeError::NotAChild));
    assert_eq!(state.children(body).unwrap(), vec![a, b, c]);
}

#[test]
fn remove_child_requires_the_named_parent() {
    let mut plugin = plugin();
    let state = plugin.state_mut();
    let body = state.body();
    let root = state.root();
    let a = state.create_element("div").unwrap();
    state.append(body, a).unwrap();
    assert_eq!(state.remove_child(root, a), Err(BridgeError::NotAChild));
    state.remove_child(body, a).unwrap();
    assert_eq!(state.parent(a), Ok(None));
    assert_eq!(state.remove_child(body, a), Err(BridgeError::NotAChild));
}

#[test]
fn refused_tree_operations_report_the_document_error() {
    let mut plugin = plugin();
    let state = plugin.state_mut();
    let body = state.body();
    let root = state.root();
    let words = state.create_text_node("words".to_string());
    let a = state.create_element("div").unwrap();
    assert_eq!(
        state.append(words, a),
        Err(BridgeError::Dom(DomError::TextCannotHaveChildren(words)))
    );
    assert_eq!(
        state.append(body, root),
        Err(BridgeError::Dom(DomError::HierarchyRequest { parent: body, child: root }))
    );
}

#[test]
fn replace_children_is_all_or_nothing() {
    let mut plugin = plugin();
    let state = plugin.state_mut();
    let body = state.body();
    let a = state.create_element("div").unwrap();
    let b = state.create_element("div").unwrap();
    let c = state.create_element("div").unwrap();
    state.append(body, a).unwrap();
    state.append(body, b).unwrap();

    state.replace_children(body, &vec![c, a]).unwrap();
    assert_eq!(state.children(body).unwrap(), vec![c, a]);
    assert_eq!(state.parent(b), Ok(None));

    // The body cannot become its own child: nothing changes.
    let failed = state.replace_children(c, &vec![b, body]);
    assert!(failed.is_err());
    assert_eq!(state.children(body).unwrap(), vec![c, a]);
    assert_eq!(state.children(c).unwrap(), Vec::<NodeId>::new());
    assert_eq!(state.parent(b), Ok(None));
}

#[test]
fn apply_replace_children_appends_in_order_and_rejects_text_parents() {
    let mut dom = Dom::new();
    let root = dom.root();
    let window = dom.create(NodeKind::Element(ElementTag::Window, ElementStyle::initial()));
    let a = dom.create(NodeKind::Element(ElementTag::Div, ElementStyle::initial()));
    let words = dom.create(NodeKind::Text("w".to_string()));
    dom.append_child(root, window).unwrap();
    // A repeated child is appended twice, so it ends up once, last.
    apply_replace_children(&mut dom, window, &vec![a, a]).unwrap();
    assert_eq!(dom.children(window).unwrap().as_slice(), &[a]);
    assert_eq!(
        apply_replace_children(&mut dom, words, &vec![a]),
        Err(DomError::TextCannotHaveChildren(words))
    );
    apply_replace_children(&mut dom, window, &vec![]).unwrap();
    assert_eq!(dom.children(window).map(|c| c.len()), Some(0));
    assert_eq!(
        apply_replace_children(&mut dom, window, &vec![root]),
        Err(DomError::HierarchyRequest { parent: window, child: root })
    );
}

#[test]
fn set_text_content_replaces_children_with_one_text_node() {
    let mut plugin = plugin();
    let state = plugin.state_mut();
    let body = state.body();
    let root = state.root();
    let label = state.create_element("text").unwrap();
    let old = state.create_text_node("old".to_string());
    state.append(body, label).unwrap();
    state.append(label, old).unwrap();

    state.set_text_content(label, "new".to_string()).unwrap();
    assert_eq!(state.text_content(label).unwrap(), "new");
    let kids = state.children(label).unwrap();
    assert_eq!(kids.len(), 1);
    assert_ne!(kids[0], old);
    assert_eq!(state.parent(old), Ok(None));

    state.set_text_content(label, String::new()).unwrap();
    assert!(state.children(label).unwrap().is_empty());
    assert_eq!(
        state.set_text_content(root, "x".to_string()),
        Err(BridgeError::AppTextContent)
    );
}

#[test]
fn set_text_content_wraps_text_in_a_text_element_below_containers() {
    let mut plugin = plugin();
    let state = plugin.state_mut();
    let body = state.body();
    let div = state.create_element("div").unwrap();
    state.append(body, div).unwrap();
    state.set_text_content(div, "hi".to_string()).unwrap();
    let kids = state.children(div).unwrap();
    assert_eq!(kids.len(), 1);
    assert_eq!(state.node_type(kids[0]), Ok(1));
    assert_eq!(state.node_name(kids[0]), Ok("TEXT"));
    let inner = state.children(kids[0]).unwrap();
    assert_eq!(inner.len(), 1);
    assert_eq!(state.node_type(inner[0]), Ok(3));
    assert_eq!(state.text_content(inner[0]).unwrap(), "hi");

    let label = state.create_element("text").unwrap();
    state.set_text_content(label, "yo".to_string()).unwrap();
    let kids = state.children(label).unwrap();
    assert_eq!(kids.len(), 1);
    assert_eq!(state.node_type(kids[0]), Ok(3));
    assert_eq!(state.text_content(kids[0]).unwrap(), "yo");
}

#[test]
fn leases_keep_detached_components_until_released() {
    let mut plugin = plugin();
    {
        let state = plugin.state_mut();
        let body = state.body();
        let panel = state.create_element("div").unwrap();
        let child = state.create_element("div").unwrap();
        state.append(body, panel).unwrap();
        state.append(panel, child).unwrap();
        state.retain(child).unwrap();
        state.remove_child(body, panel).unwrap();
        assert!(state.needs_reclaim());
    }
    plugin.checkpoint();
    let (panel, child) = {
        let state = plugin.state();
        assert!(!state.needs_reclaim());
        // The lease on the child keeps its whole detached component.
        assert_eq!(state.node_count(), 4);
        let roots = state.staging().detached_roots();
        assert_eq!(roots.len(), 1);
        let panel = roots[0];
        (panel, state.children(panel).unwrap()[0])
    };
    plugin.state_mut().release_wrapper(child);
    plugin.checkpoint();
    let state = plugin.state();
    assert!(!state.contains(panel));
    assert!(!state.contains(child));
    assert_eq!(state.node_count(), 2);
}

#[test]
fn leases_count_and_stale_nodes_are_refused() {
    let mut plugin = plugin();
    let state = plugin.state_mut();
    let a = state.create_element("div").unwrap();
    state.retain(a).unwrap();
    state.retain(a).unwrap();
    state.release_wrapper(a);
    let root = state.root();
    // One lease is left, so the detached node survives a checkpoint.
    plugin.checkpoint();
    assert!(plugin.state().contains(a));
    plugin.state_mut().release_wrapper(a);
    plugin.checkpoint();
    assert!(!plugin.state().contains(a));
    assert_eq!(plugin.state_mut().retain(a), Err(BridgeError::StaleNode(a)));
    assert_eq!(plugin.state().node_type(a), Err(BridgeError::StaleNode(a)));
    assert!(plugin.state().contains(root));
}

#[test]
fn unleased_new_nodes_are_swept_at_the_next_checkpoint() {
    let mut plugin = plugin();
    let a = plugin.state_mut().create_element("flex").unwrap();
    assert!(plugin.state().needs_reclaim());
    plugin.checkpoint();
    assert!(!plugin.state().contains(a));
    assert_eq!(plugin.state().node_count(), 2);
}

#[test]
fn checkpoints_publish_the_staging_tree() {
    let (mut plugin, shared) = DomPlugin::with_new_dom();
    assert_eq!(shared.snapshot().revision, 0);
    assert_eq!(shared.snapshot().dom.len(), 1);
    let body = plugin.state().body();
    let a = plugin.state_mut().create_element("grid").unwrap();
    plugin.state_mut().append(body, a).unwrap();
    plugin.checkpoint();
    let published = shared.snapshot();
    assert_eq!(published.revision, 1);
    assert_eq!(published.dom.len(), 3);
    assert_eq!(published.dom.children(body).unwrap().as_slice(), &[a]);
    assert_eq!(plugin.published_revision(), 1);
}

#[test]
fn the_window_is_only_staged_until_the_first_checkpoint() {
    let (plugin, shared) = DomPlugin::with_new_dom();
    let published = shared.snapshot();
    assert_eq!(published.revision, 0);
    assert!(published.dom.children(published.dom.root()).unwrap().is_empty());
    assert_eq!(plugin.published_revision(), 0);
}

#[test]
fn the_first_checkpoint_publishes_revision_one_with_the_window() {
    let (mut plugin, shared) = DomPlugin::with_new_dom();
    let body = plugin.state().body();
    let div = plugin.state_mut().create_element("div").unwrap();
    plugin.state_mut().set_text_content(div, "hello".to_string()).unwrap();
    plugin.state_mut().append(body, div).unwrap();
    plugin.checkpoint();
    let published = shared.snapshot();
    assert_eq!(published.revision, 1);
    assert_eq!(published.dom.children(published.dom.root()).unwrap().len(), 1);
}

#[test]
fn unchanged_checkpoints_publish_nothing_new() {
    let (mut plugin, shared) = DomPlugin::with_new_dom();
    plugin.checkpoint();
    plugin.checkpoint();
    assert_eq!(shared.snapshot().revision, 1);
    let body = plugin.state().body();
    let a = plugin.state_mut().create_element("flex").unwrap();
    plugin.state_mut().append(body, a).unwrap();
    plugin.checkpoint();
    plugin.checkpoint();
    assert_eq!(shared.snapshot().revision, 2);
    assert_eq!(plugin.published_revision(), 2);
}

#[test]
fn a_plugin_publishes_into_the_shared_document_it_was_given() {
    let shared = SharedDom::publishing(Dom::new());
    let mut plugin = DomPlugin::new(shared.handle());
    assert_eq!(shared.snapshot().dom.len(), 1);
    plugin.checkpoint();
    assert_eq!(shared.snapshot().dom.len(), 2);
    assert_eq!(plugin.shared().snapshot().dom.len(), 2);
    assert_eq!(shared.snapshot().revision, 1);
}

#[test]
fn handles_round_trip_and_malformed_handles_are_refused() {
    let plugin = plugin();
    let body = plugin.state().body();
    let handle = encode(body);
    assert_eq!(handle, body.raw().to_string());
    assert_eq!(decode(&handle), Ok(body));
    assert_eq!(decode("not a number"), Err(BridgeError::InvalidHandle));
    assert_eq!(decode(""), Err(BridgeError::InvalidHandle));
    // The version half of a decoded handle is forced odd.
    assert_eq!(decode("42").unwrap().raw(), 0x1_0000_002a);
}

#[test]
fn tag_names_map_to_elements_and_back() {
    for (name, tag, upper) in [
        ("window", ElementTag::Window, "WINDOW"),
        ("div", ElementTag::Div, "DIV"),
        ("flex", ElementTag::Flex, "FLEX"),
        ("grid", ElementTag::Grid, "GRID"),
        ("text", ElementTag::Text, "TEXT"),
    ] {
        let kind = element_for_tag(name).unwrap();
        assert!(matches!(kind, NodeKind::Element(t, _) if t == tag));
        assert_eq!(element_name(&kind), upper);
    }
    assert!(element_for_tag("DIV").is_none());
    assert_eq!(element_name(&NodeKind::App), "APP");
    assert_eq!(element_name(&NodeKind::Text("x".to_string())), "#text");
}

#[test]
fn replace_children_with_a_repeated_node_keeps_its_last_place() {
    let mut plugin = plugin();
    let state = plugin.state_mut();
    let body = state.body();
    let a = state.create_element("div").unwrap();
    let b = state.create_element("div").unwrap();
    state.replace_children(body, &vec![a, b, a]).unwrap();
    assert_eq!(state.children(body).unwrap(), vec![b, a]);
}

#[test]
fn attributes_use_null_and_presence_semantics() {
    let mut plugin = plugin();
    let state = plugin.state_mut();
    let button = state.create_element("div").unwrap();
    assert_eq!(state.get_attribute(button, "disabled"), Ok(None));
    state.set_attribute(button, "disabled".to_string(), String::new()).unwrap();
    assert_eq!(state.get_attribute(button, "disabled"), Ok(Some(String::new())));
    state.set_attribute(button, "disabled".to_string(), "yes".to_string()).unwrap();
    assert_eq!(state.get_attribute(button, "disabled"), Ok(Some("yes".to_string())));
    assert_eq!(state.remove_attribute(button, "disabled"), Ok(true));
    assert_eq!(state.get_attribute(button, "disabled"), Ok(None));
    assert_eq!(state.remove_attribute(button, "disabled"), Ok(false));
}

#[test]
fn raw_text_nodes_have_no_attributes() {
    let mut plugin = plugin();
    let state = plugin.state_mut();
    let text = state.create_text_node("t".to_string());
    assert_eq!(state.get_attribute(text, "id"), Ok(None));
    assert_eq!(
        state.set_attribute(text, "id".to_string(), "x".to_string()),
        Err(BridgeError::Dom(DomError::NodeNotElement(text)))
    );
    assert_eq!(
        state.remove_attribute(text, "id"),
        Err(BridgeError::Dom(DomError::NodeNotElement(text)))
    );
}

#[test]
fn attributes_are_published_with_the_document() {
    let (mut plugin, shared) = DomPlugin::with_new_dom();
    let body = plugin.state().body();
    let div = plugin.state_mut().create_element("div").unwrap();
    plugin.state_mut().set_attribute(div, "id".to_string(), "panel".to_string()).unwrap();
    plugin.state_mut().append(body, div).unwrap();
    plugin.checkpoint();
    let published = shared.snapshot();
    assert_eq!(published.dom.attribute(div, "id"), Some("panel".to_string()));
}

#[test]
fn position_and_z_index_can_be_set_and_removed() {
    let mut plugin = plugin();
    let state = plugin.state_mut();
    let div = state.create_element("div").unwrap();
    assert_eq!(state.supports_style_property(div, "position"), Ok(true));
    assert_eq!(state.supports_style_property(div, "width"), Ok(false));
    assert_eq!(state.set_style_property(div, "position", "Absolute"), Ok(true));
    assert_eq!(state.set_style_property(div, "z-index", "-12"), Ok(true));
    assert_eq!(
        state.style_declarations(div).unwrap(),
        vec![
            ("position".to_string(), "absolute".to_string()),
            ("z-index".to_string(), "-12".to_string())
        ]
    );
    assert_eq!(state.set_style_property(div, "z-index", "2147483648"), Ok(false));
    assert_eq!(state.set_style_property(div, "z-index", "1.5"), Ok(false));
    assert_eq!(state.set_style_property(div, "width", "10px"), Ok(false));
    assert_eq!(state.remove_style_property(div, "position"), Ok(true));
    assert_eq!(state.remove_style_property(div, "width"), Ok(false));
    assert_eq!(
        state.style_declarations(div).unwrap(),
        vec![("z-index".to_string(), "-12".to_string())]
    );
    let text = state.create_text_node("t".to_string());
    assert_eq!(
        state.set_style_property(text, "position", "fixed"),
        Err(BridgeError::Dom(DomError::NodeNotElement(text)))
    );
    assert_eq!(state.style_declarations(text).unwrap(), Vec::new());
}
