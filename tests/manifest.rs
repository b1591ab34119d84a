use f2::config::{ReplicaCount, Route, Service, ShutdownMode};
use f2::manifest::{AlbConfig, Config, Diff, Scheme};
use f2::net::Ipv4Address;

fn some_config() -> Config {
    Config {
        alb: AlbConfig {
            addr: Ipv4Address::localhost(),
            ports: vec![(Scheme::Http, 5000)],
            reconciliation: String::new(),
            tls: None,
            mtls: None,
        },
        secrets: None,
        services: vec![(String::from("backend"), Service::default())],
    }
}

fn service_mut<'a>(config: &'a mut Config, name: &str) -> &'a mut Service {
    &mut config.services.iter_mut().find(|(n, _)| n == name).unwrap().1
}

fn service<'a>(config: &'a Config, name: &str) -> &'a Service {
    &config.services.iter().find(|(n, _)| n == name).unwrap().1
}

#[test]
fn can_diff_configurations() {
    let left = some_config();

    let mut right = left.clone();
    service_mut(&mut right, "backend").tag = String::from("2");

    let diff = left.diff(&right);

    assert_eq!(
        diff,
        Some(vec![Diff::Alteration {
            name: String::from("backend"),
            old_definition: service(&left, "backend").clone(),
            new_definition: service(&right, "backend").clone()
        }])
    );
}

#[test]
fn same_configuration_produces_an_empty_diff() {
    let left = some_config();
    let diff = left.diff(&left);

    assert_eq!(diff, None);
}

#[test]
fn can_notice_non_tag_changes() {
    let left = some_config();

    let mut right = left.clone();

    let environment = vec![("NEW_PROPERTY".to_string(), "some-value".to_string())];

    service_mut(&mut right, "backend").environment = environment;

    let diff = left.diff(&right);

    assert_eq!(
        diff,
        Some(vec![Diff::Alteration {
            name: String::from("backend"),
            old_definition: service(&left, "backend").clone(),
            new_definition: service(&right, "backend").clone()
        }])
    );
}

#[test]
fn can_notice_additional_services() {
    let left = some_config();
    let mut right = left.clone();

    let service = Service::default();
    right.services.push(("frontend".into(), service.clone()));

    let diff = left.diff(&right);

    assert_eq!(
        diff,
        Some(vec![Diff::Addition {
            name: "frontend".into(),
            definition: service,
        }])
    )
}

#[test]
fn can_notice_removal_of_services() {
    let left = some_config();
    let mut right = left.clone();

    right.services.clear();

    let diff = left.diff(&right);

    assert_eq!(
        diff,
        Some(vec![Diff::Removal {
            name: "backend".into()
        }])
    )
}

#[test]
fn diff_lists_left_changes_then_additions() {
    let mut left = some_config();
    left.services.push(("old".to_string(), Service::default()));
    let mut right = some_config();
    right.services.push(("new".to_string(), Service::default()));
    service_mut(&mut right, "backend").shutdown_mode = ShutdownMode::Graceful;

    let diff = left.diff(&right).expect("changes");
    assert_eq!(diff.len(), 3);
    assert!(matches!(&diff[0], Diff::Alteration { name, .. } if name == "backend"));
    assert!(matches!(&diff[1], Diff::Removal { name } if name == "old"));
    assert!(matches!(&diff[2], Diff::Addition { name, .. } if name == "new"));
}

#[test]
fn route_and_replica_changes_are_alterations() {
    let left = some_config();
    let mut right = left.clone();
    service_mut(&mut right, "backend").routes.push(Route {
        host: "example.com".to_string(),
        prefix: Some("/api".to_string()),
        port: 80,
    });
    assert_eq!(left.diff(&right).map(|d| d.len()), Some(1));

    let mut scaled = left.clone();
    service_mut(&mut scaled, "backend").replicas = ReplicaCount::try_from(2).unwrap();
    assert_eq!(left.diff(&scaled).map(|d| d.len()), Some(1));
}

#[test]
fn replica_count_refuses_zero() {
    assert!(ReplicaCount::try_from(0).is_err());
    assert_eq!(ReplicaCount::try_from(3).unwrap().get(), 3);
    assert_eq!(ReplicaCount::default().get(), 1);
}

#[test]
fn repeated_service_names_are_detected() {
    let mut config = some_config();
    assert!(config.has_unique_service_names());
    config.services.push(("backend".to_string(), Service::default()));
    assert!(!config.has_unique_service_names());
}

#[test]
fn reordered_entries_are_no_change() {
    let mut left = some_config();
    {
        let backend = service_mut(&mut left, "backend");
        backend.environment = vec![("A".to_string(), "1".to_string()), ("B".to_string(), "2".to_string())];
        backend.routes = vec![
            Route { host: "a.com".to_string(), prefix: None, port: 80 },
            Route { host: "b.com".to_string(), prefix: Some("/x".to_string()), port: 81 },
        ];
    }
    let mut right = left.clone();
    service_mut(&mut right, "backend").environment.reverse();
    service_mut(&mut right, "backend").routes.reverse();
    assert_eq!(left.diff(&right), None);

    service_mut(&mut right, "backend").environment[0].1 = "3".to_string();
    assert_eq!(left.diff(&right).map(|d| d.len()), Some(1));
}
