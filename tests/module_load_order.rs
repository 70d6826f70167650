use odoo_ls_core::load_order::{sort_by_load_order, Graph, ValidationError};

#[test]
fn test_simple_linear_dependency() {
    // a -> b -> c -> base
    let nodes = vec![
        ("a", vec!["b"]),
        ("b", vec!["c"]),
        ("c", vec!["base"]),
        ("base", vec![]),
    ];
    let mut graph = Graph::from(nodes);
    let (order, _) = graph.get_load_order();
    // c must come before b, b before a
    assert_eq!(order, vec!["base", "c", "b", "a"]);
}

#[test]
fn test_base_loads_first() {
    let nodes = vec![
        ("base", vec![]),
        ("a", vec![]), // implicitly depends on base
        ("b", vec!["base"]),
        ("c", vec!["a", "b"]),
    ];
    let mut graph = Graph::from(nodes);
    let (order, _) = graph.get_load_order();
    assert_eq!(order, vec!["base", "a", "b", "c"]);
}

#[test]
fn test_multiple_independent_modules() {
    // base dependency is implicit
    let nodes = vec![
        ("a", vec![]),
        ("b", vec![]),
        ("c", vec![]),
        ("base", vec![]),
    ];
    let mut graph = Graph::from(nodes);
    let (order, _) = graph.get_load_order();
    assert_eq!(order, vec!["base", "a", "b", "c"]);
}

#[test]
fn test_branching_dependencies() {
    let nodes = vec![
        ("a", vec!["b", "c"]),
        ("b", vec!["d"]),
        ("c", vec!["d"]),
        ("d", vec!["base"]),
        ("base", vec![]),
    ];
    let mut graph = Graph::from(nodes);
    let (order, _) = graph.get_load_order();
    assert_eq!(order, vec!["base", "d", "b", "c", "a"]);
}

#[test]
fn test_test_modules() {
    let nodes = vec![
        ("base", vec![]),
        ("a", vec!["base"]),
        ("b", vec!["a"]),
        ("test_b", vec!["a", "b"]), // should load right after b, before c
        ("c", vec!["a", "b"]),
    ];
    let mut graph = Graph::from(nodes);
    let (order, _) = graph.get_load_order();
    assert_eq!(order, vec!["base", "a", "b", "test_b", "c"]);
}

#[test]
fn test_nested_test_modules() {
    let nodes = vec![
        ("base", vec![]),
        ("a", vec!["base"]),
        ("b", vec!["a"]),
        ("test_a", vec!["a"]),      // should load right after a
        ("test_x", vec!["test_a"]), // should load right after test_a
    ];
    let mut graph = Graph::from(nodes);
    let (order, _) = graph.get_load_order();
    assert_eq!(order, vec!["base", "a", "test_a", "test_x", "b"]);
}

#[test]
fn test_dependency_cycle_detection() {
    let nodes = vec![
        ("base", vec![]),
        ("a", vec!["b"]),
        ("b", vec!["c"]),
        ("c", vec!["a"]), // cycle here
        ("d", vec!["base"]),
    ];
    let mut graph = Graph::from(nodes);
    let (order, _) = graph.get_load_order();
    // a, b, c should be excluded due to cycle
    assert_eq!(order, vec!["base", "d"]);
    assert!(!graph.errors.is_empty());
    match &graph.errors[0] {
        ValidationError::DependencyCycle(cycle) => {
            let mut cycle = cycle.clone();
            cycle.sort();
            assert_eq!(cycle, vec!["a", "b", "c"]);
        }
        _ => panic!("Expected DependencyCycle error"),
    }
}

#[test]
fn test_missing_module_detection() {
    let nodes = vec![
        ("base", vec![]),
        ("a", vec!["b"]), // b is missing
        ("c", vec!["base"]),
    ];
    let mut graph = Graph::from(nodes);
    let (order, _) = graph.get_load_order();
    // a should be excluded due to missing dependency
    assert_eq!(order, vec!["base", "c"]);
    assert!(!graph.errors.is_empty());
    match &graph.errors[0] {
        ValidationError::MissingModule(missing) => {
            assert_eq!(*missing, "b");
        }
        _ => panic!("Expected MissingModule error"),
    }
}

#[test]
fn sort_result_reports_cycle_members_and_invalid_modules() {
    let r = sort_by_load_order(vec![
        ("base", vec![]),
        ("a", vec!["b"]),
        ("b", vec!["c"]),
        ("c", vec!["a"]),
        ("d", vec!["base"]),
    ]);
    assert_eq!(r.sorted, vec!["base", "d"]);
    assert_eq!(r.invalid, vec!["a", "b", "c"]);
    assert!(r.missing.is_empty());
    assert_eq!(r.cycles.len(), 1);
    let mut cycle = r.cycles[0].clone();
    cycle.sort();
    assert_eq!(cycle, vec!["a", "b", "c"]);
}

#[test]
fn sort_result_reports_missing_dependency() {
    let r = sort_by_load_order(vec![("base", vec![]), ("a", vec!["b"]), ("c", vec!["base"])]);
    assert_eq!(r.sorted, vec!["base", "c"]);
    assert_eq!(r.invalid, vec!["a"]);
    assert_eq!(r.missing, vec!["b"]);
    assert!(r.cycles.is_empty());
}

#[test]
fn missing_base_is_reported_once() {
    let r = sort_by_load_order(vec![("a", vec![]), ("b", vec![])]);
    assert!(r.sorted.is_empty());
    assert_eq!(r.invalid, vec!["a", "b"]);
    assert_eq!(r.missing, vec!["base"]);
}

#[test]
fn empty_input_sorts_to_nothing() {
    let r = sort_by_load_order(vec![]);
    assert!(r.sorted.is_empty() && r.invalid.is_empty() && r.missing.is_empty() && r.cycles.is_empty());
}

#[test]
fn later_declaration_wins() {
    let r = sort_by_load_order(vec![("base", vec![]), ("a", vec!["zz"]), ("a", vec!["base"])]);
    assert_eq!(r.sorted, vec!["base", "a"]);
    assert!(r.missing.is_empty());
}

#[test]
fn self_dependency_is_a_cycle() {
    let r = sort_by_load_order(vec![("base", vec![]), ("a", vec!["a"])]);
    assert_eq!(r.sorted, vec!["base"]);
    assert_eq!(r.cycles, vec![vec!["a"]]);
}

#[test]
fn dependencies_come_first_in_a_diamond() {
    let r = sort_by_load_order(vec![
        ("z", vec!["y", "x"]),
        ("y", vec!["w"]),
        ("x", vec!["w"]),
        ("w", vec![]),
        ("base", vec![]),
    ]);
    assert_eq!(r.sorted, vec!["base", "w", "x", "y", "z"]);
}

#[test]
fn dep_cycle_error_takes_the_stack_from_the_previous_top() {
    match ValidationError::new_dep_cycle_error(&["x", "a", "b", "c", "a"]) {
        ValidationError::DependencyCycle(c) => assert_eq!(c, vec!["b", "c", "a"]),
        _ => panic!("expected a cycle"),
    }
    match ValidationError::new_dep_cycle_error(&["a", "b"]) {
        ValidationError::DependencyCycle(c) => assert_eq!(c, vec!["a", "b"]),
        _ => panic!("expected a cycle"),
    }
}
