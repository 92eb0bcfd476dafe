use burokku::dom::{Dom, DomError, ElementStyle, ElementTag, NodeKind};
use burokku::events::{js_event_type, MouseEventKind, Scrollbar, ScrollbarAxis};
use burokku::layout_cache::{CacheInput, NodeLayoutCache, RunMode, MAX_MEASURE_ENTRIES};
use burokku::wrapper_roots::{DomBindingState, WrapperRoots};

/// A layout result as the engine reports it: sizes and first baselines.
#[derive(Clone, Copy, Debug, PartialEq)]
struct Output {
    width: f32,
    height: f32,
    baseline_x: Option<f32>,
    baseline_y: Option<f32>,
}

fn output(width: f32, height: f32) -> Output {
    Output { width, height, baseline_x: None, baseline_y: None }
}

const MAX_CONTENT: u64 = 2;
const DEFINITE: u64 = 0;

/// The exact encoding of a request's available width.
fn input(run_mode: RunMode, space: u64, value: f32) -> CacheInput {
    CacheInput { run_mode, key: vec![space, u64::from(value.to_bits())] }
}

#[test]
fn compute_size_cache_preserves_baselines() {
    let request = input(RunMode::ComputeSize, MAX_CONTENT, 0.0);
    let result = Output { width: 30.0, height: 12.0, baseline_x: None, baseline_y: Some(9.0) };
    let mut cache = NodeLayoutCache::new();

    cache.store(request.clone(), result);

    assert_eq!(cache.get(&request), Some(result));
    assert_eq!(cache.get(&request).unwrap().baseline_y, Some(9.0));
}

#[test]
fn complete_inputs_do_not_collide() {
    let first = input(RunMode::ComputeSize, DEFINITE, 100.0);
    let second = input(RunMode::ComputeSize, DEFINITE, 101.0);
    let mut cache = NodeLayoutCache::new();
    cache.store(first, output(100.0, 10.0));

    assert!(cache.get(&second).is_none());
}

#[test]
fn final_layouts_and_probes_are_kept_apart() {
    let mut cache = NodeLayoutCache::new();
    let layout = input(RunMode::PerformLayout, DEFINITE, 50.0);
    let probe = input(RunMode::ComputeSize, DEFINITE, 50.0);
    let hidden = input(RunMode::PerformHiddenLayout, DEFINITE, 50.0);
    cache.store(layout.clone(), output(50.0, 1.0));
    cache.store(probe.clone(), output(50.0, 2.0));
    cache.store(hidden.clone(), output(50.0, 3.0));
    assert_eq!(cache.get(&layout), Some(output(50.0, 1.0)));
    assert_eq!(cache.get(&probe), Some(output(50.0, 2.0)));
    assert_eq!(cache.get(&hidden), None);
    // A new final layout replaces the old one.
    let other = input(RunMode::PerformLayout, DEFINITE, 60.0);
    cache.store(other.clone(), output(60.0, 1.0));
    assert_eq!(cache.get(&layout), None);
    assert_eq!(cache.get(&other), Some(output(60.0, 1.0)));
    cache.clear();
    assert_eq!(cache.get(&other), None);
    assert_eq!(cache.get(&probe), None);
}

#[test]
fn probes_evict_in_turn_once_every_slot_is_taken() {
    let mut cache = NodeLayoutCache::new();
    for i in 0..MAX_MEASURE_ENTRIES {
        cache.store(input(RunMode::ComputeSize, DEFINITE, i as f32), output(i as f32, 0.0));
    }
    for i in 0..MAX_MEASURE_ENTRIES {
        assert!(cache.get(&input(RunMode::ComputeSize, DEFINITE, i as f32)).is_some());
    }
    // Updating a kept probe takes no new slot.
    cache.store(input(RunMode::ComputeSize, DEFINITE, 3.0), output(3.0, 9.0));
    assert_eq!(
        cache.get(&input(RunMode::ComputeSize, DEFINITE, 3.0)),
        Some(output(3.0, 9.0))
    );
    assert!(cache.get(&input(RunMode::ComputeSize, DEFINITE, 0.0)).is_some());
    // A new probe replaces the oldest slot, then the next one.
    cache.store(input(RunMode::ComputeSize, DEFINITE, 100.0), output(100.0, 0.0));
    assert!(cache.get(&input(RunMode::ComputeSize, DEFINITE, 0.0)).is_none());
    assert!(cache.get(&input(RunMode::ComputeSize, DEFINITE, 1.0)).is_some());
    cache.store(input(RunMode::ComputeSize, DEFINITE, 101.0), output(101.0, 0.0));
    assert!(cache.get(&input(RunMode::ComputeSize, DEFINITE, 1.0)).is_none());
    assert!(cache.get(&input(RunMode::ComputeSize, DEFINITE, 100.0)).is_some());
    assert!(cache.get(&input(RunMode::ComputeSize, DEFINITE, 101.0)).is_some());
}

#[test]
fn mouse_events_have_dom_type_names() {
    assert_eq!(js_event_type(MouseEventKind::Click), "click");
    assert_eq!(js_event_type(MouseEventKind::Wheel), "wheel");
}

#[test]
fn scrollbars_carry_their_axis_and_rectangles() {
    let bar = Scrollbar { axis: ScrollbarAxis::Vertical, track: (0, 0, 8, 100), thumb: (0, 10, 8, 20) };
    let copy = bar;
    assert_eq!(copy.axis, ScrollbarAxis::Vertical);
    assert_ne!(copy.axis, ScrollbarAxis::Horizontal);
    assert_eq!(copy.thumb, (0, 10, 8, 20));
    assert_eq!(bar.track, (0, 0, 8, 100));
}

#[test]
fn wrapper_roots_queue_released_nodes_in_order() {
    let mut dom = Dom::new();
    let a = dom.create(NodeKind::Element(ElementTag::Div, ElementStyle::initial()));
    let b = dom.create(NodeKind::Element(ElementTag::Div, ElementStyle::initial()));
    let mut roots = WrapperRoots::new();
    roots.acquire(a);
    roots.acquire(b);
    assert_eq!(roots.live_wrapper_count(), 2);
    roots.release(b);
    roots.release(a);
    // Releasing an unregistered node changes nothing.
    roots.release(a);
    assert!(!roots.has_wrapper(a));
    assert_eq!(roots.take_released(), vec![b, a]);
    assert!(roots.take_released().is_empty());
    assert_eq!(roots.live_wrapper_count(), 0);
}

#[test]
fn bindings_only_wrap_live_nodes() {
    let mut dom = Dom::new();
    let node = dom.create(NodeKind::Element(ElementTag::Div, ElementStyle::initial()));
    let gone = dom.create(NodeKind::Text("gone".to_string()));
    dom.remove_subtree(gone).unwrap();
    let mut state = DomBindingState::new(dom);
    assert_eq!(state.acquire_wrapper(gone), Err(DomError::NodeNotFound(gone)));
    assert_eq!(state.live_wrapper_count(), 0);
    state.acquire_wrapper(node).unwrap();
    assert!(state.has_wrapper(node));
    assert_eq!(state.live_wrapper_count(), 1);
    state.release_wrapper(node);
    assert!(!state.has_wrapper(node));
    assert_eq!(state.take_released_wrappers(), vec![node]);
    assert!(state.take_released_wrappers().is_empty());
    // The node itself stays in the document.
    assert!(state.dom.contains(node));
}
