use std::collections::HashSet;

use burokku::dom::{Dom, ElementStyle, ElementTag, NodeKind, Position, ZIndex};
use burokku::node_id::NodeId;
use burokku::stacking::StackingContexts;

fn element(dom: &mut Dom, tag: ElementTag) -> NodeId {
    dom.create(NodeKind::Element(tag, ElementStyle::initial()))
}

/// Sets the position and z-index of an element, keeping its tag.
fn style(dom: &mut Dom, node: NodeId, position: Position, z_index: ZIndex) {
    let tag = dom.element_tag(node).unwrap();
    dom.set_kind(node, NodeKind::Element(tag, ElementStyle { position, z_index }))
        .unwrap();
}

/// The boxes a completed layout has: every element below the Window.
fn boxes(dom: &Dom, window: NodeId) -> HashSet<u64> {
    let mut found = HashSet::new();
    let mut pending = vec![window];
    while let Some(node) = pending.pop() {
        for &child in dom.children(node).unwrap() {
            if matches!(dom.kind(child), Some(NodeKind::Element(..))) {
                found.insert(child.raw());
                pending.push(child);
            }
        }
    }
    found
}

#[test]
fn builds_contexts_from_css_position_and_flex_item_rules() {
    // <window>
    //   <div id="ordinary" z-index="9" />
    //   <flex>
    //     <div id="flex-item" z-index="2" />
    //   </flex>
    //   <div position="relative">
    //     <div position="absolute">
    //       <div id="nested" position="relative" z-index="3" />
    //     </div>
    //     <div id="fixed" position="fixed" />
    //   </div>
    // </window>
    let mut dom = Dom::new();
    let window = element(&mut dom, ElementTag::Window);
    let ordinary = element(&mut dom, ElementTag::Div);
    let flex = element(&mut dom, ElementTag::Flex);
    let flex_item = element(&mut dom, ElementTag::Div);
    let relative = element(&mut dom, ElementTag::Div);
    let absolute = element(&mut dom, ElementTag::Div);
    let nested = element(&mut dom, ElementTag::Div);
    let fixed = element(&mut dom, ElementTag::Div);
    style(&mut dom, ordinary, Position::Static, ZIndex::Level(9));
    style(&mut dom, flex_item, Position::Static, ZIndex::Level(2));
    style(&mut dom, relative, Position::Relative, ZIndex::Auto);
    style(&mut dom, absolute, Position::Absolute, ZIndex::Auto);
    style(&mut dom, nested, Position::Relative, ZIndex::Level(3));
    style(&mut dom, fixed, Position::Fixed, ZIndex::Auto);
    dom.append_child(dom.root(), window).unwrap();
    dom.append_child(window, ordinary).unwrap();
    dom.append_child(window, flex).unwrap();
    dom.append_child(flex, flex_item).unwrap();
    dom.append_child(window, relative).unwrap();
    dom.append_child(relative, absolute).unwrap();
    dom.append_child(absolute, nested).unwrap();
    dom.append_child(relative, fixed).unwrap();

    let contexts = StackingContexts::build(&dom, Some(window), &boxes(&dom, window));

    assert!(contexts.context(ordinary).is_none());
    assert!(contexts.context(relative).is_none());
    assert!(contexts.context(absolute).is_none());
    for node in [flex_item, nested, fixed] {
        assert_eq!(contexts.context(node).unwrap().parent, Some(window));
    }
    assert_eq!(contexts.context(flex_item).unwrap().level, 2);
    assert_eq!(contexts.context(window).unwrap().parent, None);
}

#[test]
fn nested_contexts_are_atomic_in_their_parent() {
    // <window>
    //   <div id="first" position="relative" z-index="1">
    //     <div id="inner" position="absolute" z-index="999" />
    //   </div>
    //   <div id="normal" />
    //   <div id="auto" position="absolute" />
    //   <div id="zero" position="relative" z-index="0" />
    //   <div id="second" position="relative" z-index="2" />
    //   <div id="negative" position="relative" z-index="-1" />
    // </window>
    let mut dom = Dom::new();
    let window = element(&mut dom, ElementTag::Window);
    let first = element(&mut dom, ElementTag::Div);
    let inner = element(&mut dom, ElementTag::Div);
    let normal = element(&mut dom, ElementTag::Div);
    let auto = element(&mut dom, ElementTag::Div);
    let zero = element(&mut dom, ElementTag::Div);
    let second = element(&mut dom, ElementTag::Div);
    let negative = element(&mut dom, ElementTag::Div);
    for (node, position, z_index) in [
        (first, Position::Relative, 1),
        (inner, Position::Absolute, 999),
        (zero, Position::Relative, 0),
        (second, Position::Relative, 2),
        (negative, Position::Relative, -1),
    ] {
        style(&mut dom, node, position, ZIndex::Level(z_index));
    }
    style(&mut dom, auto, Position::Absolute, ZIndex::Auto);
    dom.append_child(dom.root(), window).unwrap();
    dom.append_child(window, first).unwrap();
    dom.append_child(first, inner).unwrap();
    dom.append_child(window, normal).unwrap();
    dom.append_child(window, auto).unwrap();
    dom.append_child(window, zero).unwrap();
    dom.append_child(window, second).unwrap();
    dom.append_child(window, negative).unwrap();

    let contexts = StackingContexts::build(&dom, Some(window), &boxes(&dom, window));

    assert_eq!(contexts.context(inner).unwrap().parent, Some(first));
    assert_eq!(
        contexts.paint_order(&dom),
        vec![window, negative, normal, auto, zero, first, inner, second]
    );
}

#[test]
fn without_a_window_nothing_paints() {
    let dom = Dom::new();
    let contexts = StackingContexts::build(&dom, None, &HashSet::new());
    assert_eq!(contexts.root(), None);
    assert!(contexts.paint_order(&dom).is_empty());
}

#[test]
fn equal_levels_paint_in_document_order_and_boxless_subtrees_are_skipped() {
    // <window>
    //   <div id="a" position="relative" z-index="1" />
    //   <div id="skipped"> <div id="hidden" position="relative" z-index="5" /> </div>
    //   <div id="b" position="relative" z-index="1" />
    //   <div id="c" position="absolute" z-index="-3" />
    //   <div id="d" position="absolute" z-index="-3" />
    // </window>
    let mut dom = Dom::new();
    let window = element(&mut dom, ElementTag::Window);
    let a = element(&mut dom, ElementTag::Div);
    let skipped = element(&mut dom, ElementTag::Div);
    let hidden = element(&mut dom, ElementTag::Div);
    let b = element(&mut dom, ElementTag::Div);
    let c = element(&mut dom, ElementTag::Div);
    let d = element(&mut dom, ElementTag::Div);
    style(&mut dom, a, Position::Relative, ZIndex::Level(1));
    style(&mut dom, hidden, Position::Relative, ZIndex::Level(5));
    style(&mut dom, b, Position::Relative, ZIndex::Level(1));
    style(&mut dom, c, Position::Absolute, ZIndex::Level(-3));
    style(&mut dom, d, Position::Absolute, ZIndex::Level(-3));
    dom.append_child(dom.root(), window).unwrap();
    for node in [a, skipped, b, c, d] {
        dom.append_child(window, node).unwrap();
    }
    dom.append_child(skipped, hidden).unwrap();
    let mut laid_out = boxes(&dom, window);
    laid_out.remove(&skipped.raw());

    let contexts = StackingContexts::build(&dom, Some(window), &laid_out);
    assert!(contexts.context(hidden).is_none());
    assert_eq!(contexts.paint_order(&dom), vec![window, c, d, a, b]);
}

#[test]
fn flex_items_with_z_index_form_contexts_and_static_content_paints_first() {
    // <window>
    //   <flex>
    //     <div id="raised" z-index="1"> <div id="content" /> </div>
    //     <div id="plain" />
    //   </flex>
    // </window>
    let mut dom = Dom::new();
    let window = element(&mut dom, ElementTag::Window);
    let flex = element(&mut dom, ElementTag::Flex);
    let raised = element(&mut dom, ElementTag::Div);
    let content = element(&mut dom, ElementTag::Div);
    let plain = element(&mut dom, ElementTag::Div);
    style(&mut dom, raised, Position::Static, ZIndex::Level(1));
    dom.append_child(dom.root(), window).unwrap();
    dom.append_child(window, flex).unwrap();
    dom.append_child(flex, raised).unwrap();
    dom.append_child(raised, content).unwrap();
    dom.append_child(flex, plain).unwrap();

    let contexts = StackingContexts::build(&dom, Some(window), &boxes(&dom, window));
    assert_eq!(contexts.context(raised).unwrap().parent, Some(window));
    assert_eq!(
        contexts.paint_order(&dom),
        vec![window, flex, plain, raised, content]
    );
}
