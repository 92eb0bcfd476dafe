use std::collections::HashMap;

use burokku::dom::{Dom, DomError, ElementStyle, ElementTag, NodeKind};
use burokku::node_id::NodeId;
use burokku::resize_observer::{
    LayoutSnapshot, ObserverKey, ResizeObserverEntry, ResizeObserverError, ResizeRegistry,
    SizeBits,
};

fn size(width: f32, height: f32) -> SizeBits {
    SizeBits { width: width.to_bits(), height: height.to_bits() }
}

fn element(dom: &mut Dom, tag: ElementTag) -> NodeId {
    dom.create(NodeKind::Element(tag, ElementStyle::initial()))
}

/// An App root holding a Window that holds one panel.
fn fixture() -> (Dom, NodeId, NodeId) {
    let mut dom = Dom::new();
    let window = element(&mut dom, ElementTag::Window);
    let panel = element(&mut dom, ElementTag::Div);
    dom.append_child(window, panel).unwrap();
    dom.append_child(dom.root(), window).unwrap();
    (dom, window, panel)
}

/// A style change of `node`: the document moves to a new revision.
fn restyle(dom: &mut Dom, node: NodeId) {
    let tag = dom.element_tag(node).unwrap();
    dom.set_kind(node, NodeKind::Element(tag, ElementStyle::initial())).unwrap();
}

/// Publishes a completed layout of the current revision of `dom`.
fn layout(
    registry: &mut ResizeRegistry,
    dom: &Dom,
    id: u64,
    sizes: &[(NodeId, SizeBits)],
) -> bool {
    let sizes: HashMap<u64, SizeBits> =
        sizes.iter().map(|(node, size)| (node.raw(), *size)).collect();
    registry.publish(LayoutSnapshot { id, revision: dom.revision(), sizes })
}

fn widths(entries: &[ResizeObserverEntry]) -> Vec<f32> {
    entries.iter().map(|entry| f32::from_bits(entry.size.width)).collect()
}

fn observed(registry: &mut ResizeRegistry, dom: &Dom, target: NodeId) -> ObserverKey {
    let observer = registry.create();
    registry.observe(observer, dom, target).unwrap();
    observer
}

#[test]
fn cancelled_and_replaced_batches_do_not_consume_new_registrations() {
    let (dom, window, panel) = fixture();
    let mut registry = ResizeRegistry::new();
    let observer = observed(&mut registry, &dom, panel);
    layout(&mut registry, &dom, 1, &[(window, size(320.0, 240.0)), (panel, size(100.0, 50.0))]);
    // Discarding a prepared batch models adapter entry-conversion failure.
    drop(registry.prepare(observer, &dom).unwrap().unwrap());
    let old = registry.prepare(observer, &dom).unwrap().unwrap();
    registry.observe(observer, &dom, panel).unwrap();
    assert!(registry.commit(observer, &dom, old).unwrap().is_empty());
    assert_eq!(registry.take_records(observer, &dom).unwrap().len(), 1);
    registry.observe(observer, &dom, panel).unwrap();
    let pending = registry.prepare(observer, &dom).unwrap().unwrap();
    registry.disconnect(observer);
    registry.disconnect(observer);
    assert!(registry.commit(observer, &dom, pending).unwrap().is_empty());
    registry.observe(observer, &dom, panel).unwrap();
    assert_eq!(registry.take_records(observer, &dom).unwrap().len(), 1);
    registry.unobserve(observer, panel);
    registry.unobserve(observer, panel);
    assert!(registry.take_records(observer, &dom).unwrap().is_empty());
}

#[test]
fn explicit_destruction_removes_roots_and_invalidates_pending_entries() {
    let (mut dom, window, panel) = fixture();
    let mut registry = ResizeRegistry::new();
    let observer = observed(&mut registry, &dom, panel);
    layout(&mut registry, &dom, 1, &[(window, size(320.0, 240.0)), (panel, size(100.0, 50.0))]);
    let batch = registry.prepare(observer, &dom).unwrap().unwrap();
    dom.remove_subtree(panel).unwrap();
    assert!(registry.commit(observer, &dom, batch).unwrap().is_empty());
    // The document drops registrations of destroyed nodes.
    registry.prune(&dom);
    assert!(registry.retained_targets().is_empty());
    assert_eq!(
        registry.observe(observer, &dom, panel),
        Err(ResizeObserverError::InvalidTarget(DomError::NodeNotFound(panel)))
    );
}

#[test]
fn rejects_non_elements_and_closes_with_dom() {
    let (mut dom, _, _) = fixture();
    let mut registry = ResizeRegistry::new();
    let observer = registry.create();
    let text = dom.create(NodeKind::Text("raw text".to_string()));
    for invalid in [dom.root(), text] {
        assert!(matches!(
            registry.observe(observer, &dom, invalid),
            Err(ResizeObserverError::InvalidTarget(DomError::NodeNotElement(_)))
        ));
    }
    registry.shutdown();
    assert_eq!(registry.take_records(observer, &dom), Err(ResizeObserverError::Closed));
    assert_eq!(registry.prepare(observer, &dom).err(), Some(ResizeObserverError::Closed));
    assert_eq!(registry.set_callback(observer, 7), Err(ResizeObserverError::Closed));
    registry.disconnect(observer);
    assert_eq!(registry.observer_count(), 0);
}

#[test]
fn intermediate_layouts_coalesce_and_a_stale_dom_waits_for_layout() {
    let (mut dom, window, panel) = fixture();
    let mut registry = ResizeRegistry::new();
    let observer = observed(&mut registry, &dom, panel);
    assert!(registry.take_records(observer, &dom).unwrap().is_empty());
    layout(&mut registry, &dom, 1, &[(window, size(320.0, 240.0)), (panel, size(100.0, 50.0))]);
    registry.take_records(observer, &dom).unwrap();
    for (id, width) in [(2, 120.0), (3, 150.0)] {
        restyle(&mut dom, panel);
        layout(&mut registry, &dom, id, &[(window, size(320.0, 240.0)), (panel, size(width, 50.0))]);
    }
    restyle(&mut dom, panel);
    assert!(registry.take_records(observer, &dom).unwrap().is_empty());
    layout(&mut registry, &dom, 4, &[(window, size(320.0, 240.0)), (panel, size(180.0, 50.0))]);
    let entries = registry.take_records(observer, &dom).unwrap();
    assert_eq!(entries.len(), 1);
    assert_eq!(widths(&entries), vec![180.0]);
}

#[test]
fn failed_layout_preserves_delivery_state_until_a_successful_retry() {
    let (mut dom, window, panel) = fixture();
    let mut registry = ResizeRegistry::new();
    let observer = observed(&mut registry, &dom, panel);
    layout(&mut registry, &dom, 1, &[(window, size(320.0, 240.0)), (panel, size(100.0, 50.0))]);
    registry.take_records(observer, &dom).unwrap();
    restyle(&mut dom, panel);
    registry.request_measurement();
    registry.measurement_failed();
    assert!(!registry.measurement_requested());
    assert!(registry.take_records(observer, &dom).unwrap().is_empty());
    layout(&mut registry, &dom, 2, &[(window, size(320.0, 240.0)), (panel, size(150.0, 50.0))]);
    assert_eq!(widths(&registry.take_records(observer, &dom).unwrap()), vec![150.0]);
    assert!(registry.take_records(observer, &dom).unwrap().is_empty());
}

#[test]
fn observer_and_dom_changes_coalesce_wakeups_and_idle_callbacks_reuse_layout() {
    let (mut dom, window, panel) = fixture();
    let mut registry = ResizeRegistry::new();
    let mut wakes = 0;
    let mut count = |wake: bool| {
        if wake {
            wakes += 1;
        }
    };
    count(registry.set_waker());
    let observer = registry.create();
    count(registry.observe(observer, &dom, panel).unwrap());
    count(registry.observe(observer, &dom, panel).unwrap());
    restyle(&mut dom, panel);
    count(registry.request_measurement());
    count(layout(&mut registry, &dom, 1, &[(window, size(320.0, 240.0)), (panel, size(120.0, 50.0))]));
    assert!(!registry.measurement_requested());
    restyle(&mut dom, panel);
    count(registry.request_measurement());
    count(layout(&mut registry, &dom, 2, &[(window, size(320.0, 240.0)), (panel, size(140.0, 50.0))]));
    // A manual subscription has no callback delivery to wake for.
    count(registry.set_callback(observer, 11).unwrap());
    // The same layout is published again: nothing was recomputed.
    count(layout(&mut registry, &dom, 2, &[(window, size(320.0, 240.0)), (panel, size(140.0, 50.0))]));
    let deliveries = registry.prepare_callbacks(&dom);
    assert_eq!(deliveries.len(), 1);
    let mut calls = 0;
    for delivery in deliveries {
        assert_eq!(delivery.callback, 11);
        let entries = delivery.commit(&mut registry, &dom).unwrap();
        assert_eq!(widths(&entries), vec![140.0]);
        calls += 1;
    }
    assert_eq!(calls, 1);
    count(layout(&mut registry, &dom, 2, &[(window, size(320.0, 240.0)), (panel, size(140.0, 50.0))]));
    assert!(registry.prepare_callbacks(&dom).is_empty());
    drop(count);
    assert_eq!(wakes, 4);
}

#[test]
fn taking_records_twice_reports_nothing_the_second_time() {
    let (dom, window, panel) = fixture();
    let mut registry = ResizeRegistry::new();
    let observer = registry.create();
    registry.observe(observer, &dom, panel).unwrap();
    registry.observe(observer, &dom, window).unwrap();
    layout(&mut registry, &dom, 1, &[(window, size(320.0, 240.0)), (panel, size(100.0, 50.0))]);
    let entries = registry.take_records(observer, &dom).unwrap();
    assert_eq!(
        entries.iter().map(|entry| entry.target).collect::<Vec<_>>(),
        vec![panel, window]
    );
    assert_eq!(entries[0].size, size(100.0, 50.0));
    assert!(registry.take_records(observer, &dom).unwrap().is_empty());
    // Unchanged sizes in a new layout stay quiet; a changed one reports.
    layout(&mut registry, &dom, 2, &[(window, size(400.0, 240.0)), (panel, size(100.0, 50.0))]);
    let entries = registry.take_records(observer, &dom).unwrap();
    assert_eq!(entries.len(), 1);
    assert_eq!(entries[0].target, window);
}

#[test]
fn detached_targets_report_zero_once_after_being_seen() {
    let (mut dom, window, panel) = fixture();
    let mut registry = ResizeRegistry::new();
    dom.detach(panel).unwrap();
    let observer = observed(&mut registry, &dom, panel);
    layout(&mut registry, &dom, 1, &[(window, size(320.0, 240.0))]);
    assert!(registry.take_records(observer, &dom).unwrap().is_empty());
    dom.append_child(window, panel).unwrap();
    layout(&mut registry, &dom, 2, &[(window, size(320.0, 240.0)), (panel, size(100.0, 50.0))]);
    assert_eq!(widths(&registry.take_records(observer, &dom).unwrap()), vec![100.0]);
    dom.detach(panel).unwrap();
    layout(&mut registry, &dom, 3, &[(window, size(320.0, 240.0))]);
    let entries = registry.take_records(observer, &dom).unwrap();
    assert_eq!(entries.len(), 1);
    assert_eq!(entries[0].size, size(0.0, 0.0));
    assert!(registry.take_records(observer, &dom).unwrap().is_empty());
}

#[test]
fn removed_observers_are_closed_and_others_keep_working() {
    let (dom, window, panel) = fixture();
    let mut registry = ResizeRegistry::new();
    let first = observed(&mut registry, &dom, panel);
    let second = observed(&mut registry, &dom, panel);
    assert_eq!(registry.observer_count(), 2);
    registry.remove(first);
    assert_eq!(registry.observer_count(), 1);
    assert_eq!(registry.take_records(first, &dom), Err(ResizeObserverError::Closed));
    layout(&mut registry, &dom, 1, &[(window, size(320.0, 240.0)), (panel, size(10.0, 5.0))]);
    assert_eq!(registry.take_records(second, &dom).unwrap().len(), 1);
    assert_eq!(registry.retained_targets(), vec![panel]);
}
