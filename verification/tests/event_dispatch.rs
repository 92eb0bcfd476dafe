use burokku::dispatch::{Dispatch, EventFlags};
use burokku::listeners::ListenerRegistry;

fn ids(registry: &ListenerRegistry<u32>, event_type: &str) -> Vec<u64> {
    registry.matching(event_type).iter().map(|listener| listener.id).collect()
}

fn callbacks(registry: &ListenerRegistry<u32>, event_type: &str) -> Vec<u32> {
    registry.matching(event_type).iter().map(|listener| listener.callback).collect()
}

#[test]
fn a_callback_registers_once_per_event_type() {
    let mut registry = ListenerRegistry::new();
    assert!(registry.is_empty());
    assert!(registry.add("click".to_string(), 7));
    assert!(!registry.add("click".to_string(), 7));
    assert!(registry.add("wheel".to_string(), 7));
    assert!(registry.add("click".to_string(), 8));
    assert_eq!(ids(&registry, "click"), vec![0, 2]);
    assert_eq!(callbacks(&registry, "click"), vec![7, 8]);
    assert_eq!(ids(&registry, "wheel"), vec![1]);
    assert!(ids(&registry, "keydown").is_empty());
    assert!(!registry.is_empty());
}

#[test]
fn contains_checks_identity_and_event_type() {
    let mut registry = ListenerRegistry::new();
    assert!(registry.add("click".to_string(), 1));
    assert!(registry.add("wheel".to_string(), 2));
    assert!(registry.contains("click", 0));
    assert!(registry.contains("wheel", 1));
    assert!(!registry.contains("click", 1));
    assert!(!registry.contains("wheel", 0));
    assert!(!registry.contains("click", 5));
}

#[test]
fn removing_unregisters_only_the_equal_callback_of_that_type() {
    let mut registry = ListenerRegistry::new();
    assert!(registry.add("click".to_string(), 1));
    assert!(registry.add("click".to_string(), 2));
    assert!(registry.add("wheel".to_string(), 1));
    assert!(registry.remove("click", &1));
    assert!(!registry.remove("click", &1));
    assert!(!registry.remove("keydown", &2));
    assert_eq!(callbacks(&registry, "click"), vec![2]);
    assert_eq!(callbacks(&registry, "wheel"), vec![1]);
    assert!(!registry.contains("click", 0));
    assert!(registry.contains("wheel", 2));
    assert!(registry.remove("click", &2));
    assert!(registry.remove("wheel", &1));
    assert!(registry.is_empty());
}

#[test]
fn identities_are_not_reused_after_removal() {
    let mut registry = ListenerRegistry::default();
    assert!(registry.add("click".to_string(), 1));
    assert!(registry.remove("click", &1));
    assert!(registry.add("click".to_string(), 1));
    assert_eq!(ids(&registry, "click"), vec![1]);
    assert!(!registry.contains("click", 0));
}

fn run(counts: Vec<usize>, mut on_call: impl FnMut((usize, usize), &mut EventFlags)) -> Vec<(usize, usize)> {
    let mut dispatch = Dispatch::new(counts);
    let mut flags = EventFlags::new(true);
    let mut visited = Vec::new();
    while let Some(position) = dispatch.position() {
        visited.push(position);
        on_call(position, &mut flags);
        dispatch.ran(&flags);
    }
    visited
}

#[test]
fn listeners_run_in_path_then_registration_order() {
    let visited = run(vec![2, 1, 3], |_, _| {});
    assert_eq!(visited, vec![(0, 0), (0, 1), (1, 0), (2, 0), (2, 1), (2, 2)]);
}

#[test]
fn nodes_without_listeners_are_passed_over() {
    let visited = run(vec![0, 2, 0, 1], |_, _| {});
    assert_eq!(visited, vec![(1, 0), (1, 1), (3, 0)]);
    assert_eq!(Dispatch::new(vec![0, 0, 0]).position(), None);
    assert_eq!(Dispatch::new(Vec::new()).position(), None);
}

#[test]
fn stop_propagation_finishes_the_current_node_only() {
    let visited = run(vec![3, 2], |position, flags| {
        if position == (0, 1) {
            flags.stop_propagation();
        }
    });
    assert_eq!(visited, vec![(0, 0), (0, 1), (0, 2)]);
}

#[test]
fn stop_immediate_propagation_ends_at_once() {
    let visited = run(vec![3, 2], |position, flags| {
        if position == (0, 1) {
            flags.stop_immediate_propagation();
        }
    });
    assert_eq!(visited, vec![(0, 0), (0, 1)]);
}

#[test]
fn a_listener_removed_meanwhile_is_skipped() {
    let mut dispatch = Dispatch::new(vec![2, 1]);
    let flags = EventFlags::new(false);
    assert_eq!(dispatch.position(), Some((0, 0)));
    dispatch.skip(&flags);
    assert_eq!(dispatch.position(), Some((0, 1)));
    dispatch.ran(&flags);
    assert_eq!(dispatch.position(), Some((1, 0)));
    dispatch.skip(&flags);
    assert_eq!(dispatch.position(), None);
}

#[test]
fn prevent_default_needs_a_cancelable_event() {
    let mut flags = EventFlags::new(false);
    flags.prevent_default();
    assert!(!flags.default_prevented);
    let mut flags = EventFlags::new(true);
    flags.prevent_default();
    assert!(flags.default_prevented);
    assert!(!flags.propagation_stopped);
    flags.stop_immediate_propagation();
    assert!(flags.propagation_stopped && flags.immediate_propagation_stopped);
}
