use std::collections::HashSet;

use f2::config::{Route, Service};
use f2::net::Ipv4Address;
use f2::registry::{ContainerId, ServiceRegistry, StartedContainerDetails};

fn define_service(registry: &mut ServiceRegistry, name: &str, host: &str, path_prefix: Option<String>) {
    let service = Service {
        routes: vec![Route { host: String::from(host), prefix: path_prefix, port: 0 }],
        ..Default::default()
    };

    registry.define(name, service);
}

fn add_container(registry: &mut ServiceRegistry, name: &str, id: &str) -> ContainerId {
    let id = ContainerId(id.to_string());

    let details = StartedContainerDetails { id: id.clone(), addr: Ipv4Address::localhost() };

    registry.add_container(name, details);

    id
}

fn find_matching_container_ids(
    registry: &ServiceRegistry,
    host: &str,
    path: &str,
) -> Option<HashSet<String>> {
    registry
        .find_downstreams(host, path)
        .map(|value| value.0.into_iter().map(|details| details.id.0).collect())
}

#[test]
fn can_store_and_fetch_container_data() {
    let mut registry = ServiceRegistry::new();
    registry.define("backend", Service::default());

    let first = StartedContainerDetails {
        id: ContainerId("c1".to_string()),
        addr: Ipv4Address::new(127, 0, 0, 3),
    };
    let second = StartedContainerDetails {
        id: ContainerId("c2".to_string()),
        addr: Ipv4Address::new(127, 0, 0, 4),
    };

    registry.add_container("backend", first.clone());
    registry.add_container("backend", second.clone());

    assert_eq!(registry.get_running_containers("backend"), Some(vec![first, second]));
}

#[test]
fn containers_of_undeclared_services_are_ignored() {
    let mut registry = ServiceRegistry::new();
    add_container(&mut registry, "ghost", "c1");
    assert_eq!(registry.get_running_containers("ghost"), None);
}

#[test]
fn duplicate_container_ids_are_ignored() {
    let mut registry = ServiceRegistry::new();
    define_service(&mut registry, "svc", "a.b", None);
    add_container(&mut registry, "svc", "c1");
    registry.add_container(
        "svc",
        StartedContainerDetails { id: ContainerId("c1".to_string()), addr: Ipv4Address::new(10, 0, 0, 9) },
    );
    let running = registry.get_running_containers("svc").unwrap();
    assert_eq!(running.len(), 1);
    assert_eq!(running[0].addr, Ipv4Address::localhost());
}

#[test]
fn undefine_removes_definition_and_containers() {
    let mut registry = ServiceRegistry::new();
    define_service(&mut registry, "svc", "a.b", None);
    add_container(&mut registry, "svc", "c1");
    registry.undefine("svc");
    assert_eq!(registry.get_running_containers("svc"), None);
    assert_eq!(find_matching_container_ids(&registry, "a.b", "/"), None);
}

#[test]
fn can_find_downstreams_for_host_and_path_with_one_host_match() {
    let mut registry = ServiceRegistry::new();

    define_service(&mut registry, "opentracker", "opentracker.app", None);
    define_service(&mut registry, "blackboards", "blackboards.pl", None);

    let opentracker_id = add_container(&mut registry, "opentracker", "o1");
    add_container(&mut registry, "blackboards", "b1");

    let downstreams = find_matching_container_ids(&registry, "opentracker.app", "/foo");

    let mut expected = HashSet::new();
    expected.insert(opentracker_id.0);

    assert_eq!(downstreams, Some(expected));
}

#[test]
fn can_find_downstreams_for_a_host_and_path_with_multiple_host_matches() {
    let mut registry = ServiceRegistry::new();

    let host = "example.com";

    define_service(&mut registry, "frontend", host, None);
    define_service(&mut registry, "backend", host, Some("/api".into()));

    add_container(&mut registry, "frontend", "f1");
    let backend_id = add_container(&mut registry, "backend", "b1");

    let downstreams = find_matching_container_ids(&registry, host, "/api/v1/accounts");

    let mut expected = HashSet::new();
    expected.insert(backend_id.0);

    assert_eq!(downstreams, Some(expected));
}

#[test]
fn routing_prefers_longest_prefix() {
    let mut registry = ServiceRegistry::new();
    define_service(&mut registry, "frontend", "example.com", None);
    define_service(&mut registry, "backend", "example.com", Some("/api".into()));
    let frontend = add_container(&mut registry, "frontend", "f1");
    let backend = add_container(&mut registry, "backend", "b1");

    assert_eq!(
        find_matching_container_ids(&registry, "example.com", "/api/health"),
        Some(HashSet::from([backend.0]))
    );
    assert_eq!(
        find_matching_container_ids(&registry, "example.com", "/health"),
        Some(HashSet::from([frontend.0]))
    );
}

#[test]
fn produces_no_results_for_downstreams_if_no_matches() {
    let mut registry = ServiceRegistry::new();

    define_service(&mut registry, "frontend", "foo.com", None);
    define_service(&mut registry, "backend", "bar.com", None);

    add_container(&mut registry, "frontend", "f1");
    add_container(&mut registry, "backend", "b1");

    let downstreams = find_matching_container_ids(&registry, "baz.com", "/boo");

    assert_eq!(downstreams, None);
}

#[test]
fn service_without_containers_resolves_to_none() {
    let mut registry = ServiceRegistry::new();
    define_service(&mut registry, "svc", "a.b", None);
    assert_eq!(registry.find_downstreams("a.b", "/"), None);
    let id = add_container(&mut registry, "svc", "c1");
    registry.remove_container_by_id("svc", &id);
    assert_eq!(registry.get_running_containers("svc"), Some(vec![]));
    assert_eq!(registry.find_downstreams("a.b", "/"), None);
}

#[test]
fn resolve_returns_the_route_port() {
    let mut registry = ServiceRegistry::new();
    let service = Service {
        routes: vec![
            Route { host: "internal.app".to_string(), prefix: None, port: 8080 },
            Route { host: "external.app".to_string(), prefix: None, port: 80 },
        ],
        ..Default::default()
    };
    registry.define("svc", service);
    add_container(&mut registry, "svc", "c1");
    assert_eq!(registry.find_downstreams("internal.app", "/").map(|r| r.1), Some(8080));
    assert_eq!(registry.find_downstreams("external.app", "/").map(|r| r.1), Some(80));
}

#[test]
fn can_remove_container_by_identifier() {
    let mut registry = ServiceRegistry::new();
    let name = "foobar";

    define_service(&mut registry, name, "foo.bar", None);

    let container1 = add_container(&mut registry, name, "c1");
    let container2 = add_container(&mut registry, name, "c2");

    registry.remove_container_by_id(name, &container1);

    let running_containers = registry
        .get_running_containers(name)
        .expect("Failed to find containers");

    let container1 = running_containers.iter().find(|c| c.id == container1);
    let container2 = running_containers.iter().find(|c| c.id == container2);

    assert!(container1.is_none());
    assert!(container2.is_some());
}

#[test]
fn can_remove_all_containers_for_service() {
    let mut registry = ServiceRegistry::new();
    let name = "foobar";

    define_service(&mut registry, name, "foo.bar", None);

    add_container(&mut registry, name, "c1");
    add_container(&mut registry, name, "c2");

    registry.remove_all_containers(name);

    assert!(registry.get_running_containers(name).is_none());
}

#[test]
fn alteration_replaces_old_backend_with_new() {
    let mut registry = ServiceRegistry::new();
    let mut old = Service::default();
    old.tag = "T1".to_string();
    old.routes = vec![Route { host: "svc.app".to_string(), prefix: None, port: 80 }];
    registry.define("svc", old.clone());
    let old_id = add_container(&mut registry, "svc", "old");

    let mut new = old.clone();
    new.tag = "T2".to_string();
    let running = registry.get_running_containers("svc").unwrap();
    registry.define("svc", new);
    add_container(&mut registry, "svc", "new");
    for details in &running {
        registry.remove_container_by_id("svc", &details.id);
    }

    let now = registry.get_running_containers("svc").unwrap();
    assert_eq!(now.len(), 1);
    assert_eq!(now[0].id.0, "new");
    assert!(now.iter().all(|d| d.id != old_id));
}

#[test]
fn make_before_break_swaps_backends_in_one_step() {
    let mut registry = ServiceRegistry::new();
    let mut old = Service::default();
    old.tag = "T1".to_string();
    registry.define("svc", old.clone());
    add_container(&mut registry, "svc", "t1");

    let mut new = old.clone();
    new.tag = "T2".to_string();
    let started = vec![StartedContainerDetails {
        id: ContainerId("t2".to_string()),
        addr: Ipv4Address::new(10, 0, 0, 7),
    }];
    let previous = registry.replace_containers("svc", new, started.clone());

    assert_eq!(previous.len(), 1);
    assert_eq!(previous[0].id.0, "t1");
    assert_eq!(registry.get_running_containers("svc"), Some(started));
}

#[test]
fn can_store_and_fetch_service_definitions() {
    let mut registry = ServiceRegistry::new();
    let service = "backend";

    let definition = Service::default();
    registry.define(service, definition.clone());

    let found = registry.get_definition(service);

    assert_eq!(found, Some(definition));
}

#[test]
fn can_remove_service_definitions() {
    let mut registry = ServiceRegistry::new();
    let service = "backend";
    let definition = Service::default();

    registry.define(service, definition);

    assert!(registry.get_definition(service).is_some());

    registry.undefine(service);

    assert!(registry.get_definition(service).is_none());
}
