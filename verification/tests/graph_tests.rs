use contraband::graph::{BuildError, Graph, InjectKind, InjectSpec, Node, Value};
use contraband::graph::Injected;
use std::sync::Arc;

fn plain_node(key: u64, instance: u64, payload: u64) -> Node<u64> {
    Node {
        key,
        instance,
        deps: Vec::new(),
        data: Some(Arc::new(payload)),
    }
}

#[test]
fn test_provide_is_idempotent_first_wins() {
    let mut g: Graph<u64> = Graph::new();
    let kept = g.provide(plain_node(1, 10, 100));
    assert_eq!(kept, 10);
    let kept_again = g.provide(plain_node(1, 11, 200));
    // The second registration under the same key is ignored.
    assert_eq!(kept_again, 10);
    let node = g.get_node(1).unwrap();
    assert_eq!(node.instance, 10);
    assert_eq!(**node.data.as_ref().unwrap(), 100);
}

#[test]
fn test_contains_and_get_node() {
    let mut g: Graph<u64> = Graph::new();
    assert!(!g.contains(1));
    g.provide(plain_node(1, 0, 5));
    assert!(g.contains(1));
    assert!(!g.contains(2));
    assert!(g.get_node(2).is_none());
    assert_eq!(g.get_node(1).unwrap().key, 1);
}

#[test]
fn test_get_ptr_shares_the_stored_value() {
    let mut g: Graph<u64> = Graph::new();
    g.provide(plain_node(1, 0, 123));
    let ptr = g.get_ptr(1).unwrap();
    assert_eq!(*ptr, 123);
    // A constructed node carries no direct payload.
    let mut counter: u64 = 0;
    g.resolve(
        &Vec::new(),
        &InjectSpec { key: 2, kind: InjectKind::Composite, deps: Vec::new() },
        &mut counter,
    )
    .unwrap();
    assert!(g.get_ptr(2).is_none());
    assert!(g.get_ptr(3).is_none());
}

#[test]
fn test_resolve_twice_shares_the_singleton() {
    let mut g: Graph<u64> = Graph::new();
    let mut counter: u64 = 0;
    let spec = InjectSpec { key: 4, kind: InjectKind::Composite, deps: Vec::new() };
    let h1 = g.resolve(&Vec::new(), &spec, &mut counter).unwrap();
    let h2 = g.resolve(&Vec::new(), &spec, &mut counter).unwrap();
    assert_eq!(h1.instance, h2.instance);
    assert_eq!(h1.key, 4);
    // The second resolution constructed nothing.
    assert_eq!(counter, 1);
}

#[test]
fn test_resolve_wires_dependencies_in_order() {
    let mut g: Graph<u64> = Graph::new();
    g.provide(plain_node(1, 10, 0));
    g.provide(plain_node(2, 20, 0));
    let mut counter: u64 = 77;
    let spec = InjectSpec { key: 3, kind: InjectKind::Composite, deps: vec![2, 1] };
    let h = g.resolve(&Vec::new(), &spec, &mut counter).unwrap();
    assert_eq!(h.instance, 77);
    let node = g.get_node(3).unwrap();
    assert_eq!(node.deps, vec![20, 10]);
}

#[test]
fn test_resolve_reports_first_missing_dependency() {
    let mut g: Graph<u64> = Graph::new();
    g.provide(plain_node(1, 10, 0));
    let mut counter: u64 = 0;
    let spec = InjectSpec { key: 3, kind: InjectKind::Composite, deps: vec![1, 8, 9] };
    let r = g.resolve(&Vec::new(), &spec, &mut counter);
    assert_eq!(r.unwrap_err(), BuildError::Unresolved { key: 8 });
    // All-or-nothing: the faulting type was not stored.
    assert!(!g.contains(3));
    assert_eq!(counter, 0);
}

#[test]
fn test_resolve_plain_value_faults_unless_provided() {
    let mut g: Graph<u64> = Graph::new();
    let mut counter: u64 = 0;
    let spec = InjectSpec { key: 6, kind: InjectKind::Plain, deps: Vec::new() };
    let r = g.resolve(&Vec::new(), &spec, &mut counter);
    assert_eq!(r.unwrap_err(), BuildError::Unresolved { key: 6 });
    g.provide(plain_node(6, 60, 0));
    let h = g.resolve(&Vec::new(), &spec, &mut counter).unwrap();
    assert_eq!(h.instance, 60);
}

#[test]
fn test_search_all_returns_first_match() {
    let mut g1: Graph<u64> = Graph::new();
    let mut g2: Graph<u64> = Graph::new();
    g1.provide(plain_node(1, 10, 0));
    g2.provide(plain_node(1, 20, 0));
    g2.provide(plain_node(2, 21, 0));
    let graphs = vec![g1, g2];
    assert_eq!(Graph::search_all(&graphs, 1).unwrap().instance, 10);
    assert_eq!(Graph::search_all(&graphs, 2).unwrap().instance, 21);
    assert!(Graph::search_all(&graphs, 3).is_none());
}

#[test]
fn test_resolve_reuses_fallback_without_copying() {
    let mut fallback: Graph<u64> = Graph::new();
    fallback.provide(plain_node(5, 50, 0));
    let fallbacks = vec![fallback];
    let mut g: Graph<u64> = Graph::new();
    let mut counter: u64 = 0;
    let spec = InjectSpec { key: 5, kind: InjectKind::Composite, deps: Vec::new() };
    let h = g.resolve(&fallbacks, &spec, &mut counter).unwrap();
    assert_eq!(h.instance, 50);
    // Reuse, not reconstruction, and no local copy.
    assert_eq!(counter, 0);
    assert!(!g.contains(5));
}

#[test]
fn test_filter_by_keeps_only_the_given_keys() {
    let mut g: Graph<u64> = Graph::new();
    g.provide(plain_node(1, 10, 100));
    g.provide(plain_node(2, 20, 200));
    g.provide(plain_node(3, 30, 300));
    let filtered = g.filter_by(&vec![1, 3, 9]);
    assert!(filtered.contains(1));
    assert!(!filtered.contains(2));
    assert!(filtered.contains(3));
    assert!(!filtered.contains(9));
    // The copied entry still shares the stored value.
    assert_eq!(**filtered.get_node(1).unwrap().data.as_ref().unwrap(), 100);
    assert_eq!(filtered.get_node(3).unwrap().instance, 30);
}

#[test]
fn test_value_resolves_as_plain() {
    let v = Value { key: 5, value: 55u8 };
    let spec = v.injected_spec();
    assert_eq!(spec.key, 5);
    assert!(matches!(spec.kind, InjectKind::Plain));
    assert_eq!(spec.deps.len(), 0);
}

#[test]
fn test_shared_pointer_resolves_as_its_pointee() {
    let v = Arc::new(Value { key: 5, value: 55u8 });
    let spec = v.injected_spec();
    assert_eq!(spec.key, 5);
    assert!(matches!(spec.kind, InjectKind::Plain));
}
