use local_runner::config::ServiceState;
use local_runner::error::DependencyError;
use local_runner::resolver::{build_service, resolve_dependencies};

// Keep order of original Vec (esp. if no dependencies given):
#[test]
fn test_resolve_dependencies_1() {
    let services = vec![
        build_service("A", vec![], None),
        build_service("B", vec![], None),
        build_service("C", vec![], None),
        build_service("D", vec![], None),
    ];
    let order = resolve_dependencies(
        vec!["B".to_string(), "D".to_string(), "A".to_string()],
        &services,
    )
    .unwrap();
    assert_eq!(order.len(), 3);
    assert_eq!(order.get(0).unwrap().name, "A");
    assert_eq!(order.get(1).unwrap().name, "B");
    assert_eq!(order.get(2).unwrap().name, "D");
}

// Resolve dependencies:
#[test]
fn test_resolve_dependencies_2() {
    let services = vec![
        build_service("D", vec![], None),
        build_service("C", vec!["A", "B"], None),
        build_service("B", vec!["A"], None),
        build_service("A", vec![], None),
    ];
    let order = resolve_dependencies(vec!["C".to_string()], &services).unwrap();
    assert_eq!(order.len(), 3);
    assert_eq!(order.get(0).unwrap().name, "A");
    assert_eq!(order.get(1).unwrap().name, "B");
    assert_eq!(order.get(2).unwrap().name, "C");
}

// Error on masked dependencies:
#[test]
fn test_resolve_dependencies_3() {
    let services = vec![
        build_service("C", vec!["A", "B"], None),
        build_service("B", vec![], Some(ServiceState::Masked)),
        build_service("A", vec![], None),
    ];
    let result = resolve_dependencies(vec!["C".to_string()], &services);
    assert!(matches!(
        result.unwrap_err(),
        DependencyError::MaskedDepedencies
    ));
}

// Error on cyclic dependencies:
#[test]
fn test_resolve_dependencies_4() {
    let services = vec![
        build_service("C", vec!["B"], None),
        build_service("B", vec!["A"], None),
        build_service("A", vec!["B"], None),
    ];
    let result = resolve_dependencies(vec!["C".to_string()], &services);
    assert!(matches!(
        result.unwrap_err(),
        DependencyError::CyclicDepedencies
    ));
}

// Error on unknown dependencies (name not in list):
#[test]
fn test_resolve_dependencies_5() {
    let services = vec![build_service("A", vec!["B"], None)];
    let result = resolve_dependencies(vec!["A".to_string()], &services);
    assert!(matches!(
        result.unwrap_err(),
        DependencyError::UnknownDependency(_)
    ));
}

// Handle empty start names vec:
#[test]
fn test_resolve_dependencies_6() {
    let services = vec![
        build_service("A", vec![], None),
        build_service("B", vec![], None),
        build_service("C", vec![], None),
    ];
    let order = resolve_dependencies(vec![], &services).unwrap();
    assert_eq!(order.len(), 0);
}

// Handle empty vecs:
#[test]
fn test_resolve_dependencies_7() {
    let services = vec![];
    let order = resolve_dependencies(vec![], &services).unwrap();
    assert_eq!(order.len(), 0);
}

fn names(order: &[local_runner::config::Service]) -> Vec<String> {
    order.iter().map(|s| s.name.clone()).collect()
}

// A dependency reached twice is started once, before both of its dependents.
#[test]
fn resolve_shared_dependency_once() {
    let services = vec![
        build_service("web", vec!["db", "cache"], None),
        build_service("cache", vec!["db"], None),
        build_service("db", vec![], None),
    ];
    let order = resolve_dependencies(vec!["web".to_string()], &services).unwrap();
    assert_eq!(names(&order), vec!["db", "cache", "web"]);
}

// Disabled services are started when something depends on them.
#[test]
fn resolve_disabled_dependency_is_included() {
    let services = vec![
        build_service("app", vec!["helper"], None),
        build_service("helper", vec![], Some(ServiceState::Disabled)),
    ];
    let order = resolve_dependencies(vec!["app".to_string()], &services).unwrap();
    assert_eq!(names(&order), vec!["helper", "app"]);
}

// The unknown dependency is the one named in the error.
#[test]
fn resolve_unknown_names_the_missing_service() {
    let services = vec![build_service("A", vec!["ghost"], None)];
    match resolve_dependencies(vec!["A".to_string()], &services) {
        Err(DependencyError::UnknownDependency(name)) => assert_eq!(name, "ghost"),
        other => panic!("unexpected {:?}", other.map(|v| v.len())),
    }
}

// A start name that is not a service is unknown too.
#[test]
fn resolve_unknown_start_name() {
    let services = vec![build_service("A", vec![], None)];
    match resolve_dependencies(vec!["B".to_string()], &services) {
        Err(DependencyError::UnknownDependency(name)) => assert_eq!(name, "B"),
        other => panic!("unexpected {:?}", other.map(|v| v.len())),
    }
}

// A service that depends on itself is a cycle.
#[test]
fn resolve_self_dependency_is_cyclic() {
    let services = vec![build_service("A", vec!["A"], None)];
    let result = resolve_dependencies(vec!["A".to_string()], &services);
    assert!(matches!(result.unwrap_err(), DependencyError::CyclicDepedencies));
}

// Starting a masked service directly fails.
#[test]
fn resolve_masked_start_name() {
    let services = vec![build_service("A", vec![], Some(ServiceState::Masked))];
    let result = resolve_dependencies(vec!["A".to_string()], &services);
    assert!(matches!(result.unwrap_err(), DependencyError::MaskedDepedencies));
}

// A name listed twice among the services: the last one counts, at the place of the first.
#[test]
fn resolve_duplicate_names_take_the_last_service() {
    let services = vec![
        build_service("A", vec![], None),
        build_service("B", vec![], None),
        build_service("A", vec!["B"], None),
    ];
    let order = resolve_dependencies(vec!["A".to_string()], &services).unwrap();
    assert_eq!(names(&order), vec!["B", "A"]);
    assert_eq!(order[1].depends, Some(vec!["B".to_string()]));
}

// A cycle among services that are not in scope does not matter.
#[test]
fn resolve_ignores_cycles_out_of_scope() {
    let services = vec![
        build_service("A", vec![], None),
        build_service("X", vec!["Y"], None),
        build_service("Y", vec!["X"], None),
    ];
    let order = resolve_dependencies(vec!["A".to_string()], &services).unwrap();
    assert_eq!(names(&order), vec!["A"]);
}

#[test]
fn two_services_depending_on_each_other_are_cyclic() {
    let services = vec![build_service("A", vec!["B"], None), build_service("B", vec!["A"], None)];
    let result = resolve_dependencies(vec!["A".to_string()], &services);
    assert!(matches!(result.unwrap_err(), DependencyError::CyclicDepedencies));
}

#[test]
fn without_dependencies_the_list_is_filtered() {
    let services = vec![
        build_service("A", vec![], None),
        build_service("B", vec![], None),
        build_service("C", vec![], None),
        build_service("D", vec![], None),
    ];
    let order = resolve_dependencies(vec!["D".to_string(), "A".to_string(), "C".to_string()], &services).unwrap();
    assert_eq!(names(&order), vec!["A".to_string(), "C".to_string(), "D".to_string()]);
}

#[test]
fn resolved_order_is_the_closure_of_the_names() {
    let services = vec![
        build_service("web", vec!["api"], None),
        build_service("api", vec!["db"], None),
        build_service("db", vec![], Some(ServiceState::Disabled)),
        build_service("other", vec![], None),
    ];
    let order = resolve_dependencies(vec!["web".to_string()], &services).unwrap();
    assert_eq!(names(&order), vec!["db".to_string(), "api".to_string(), "web".to_string()]);
}
