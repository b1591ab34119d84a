use f2::config::{Route, Service};
use f2::health::{HealthCheckConfiguration, HealthCheckResult, HealthCheckState, HealthCheckStep};
use f2::manifest::MtlsConfig;
use f2::config::ExternalBytes;
use f2::net::Ipv4Address;
use f2::proxy::{
    decimal, request_host, route_request, should_forward_header, target_uri, HttpVersion,
    ProxyAction,
};
use f2::registry::{ContainerId, ServiceRegistry, StartedContainerDetails};
use f2::tls::{authentication_level, AuthenticationLevel};

fn registry_with_backend() -> ServiceRegistry {
    let mut registry = ServiceRegistry::new();
    let service = Service {
        routes: vec![Route { host: "example.com".to_string(), prefix: None, port: 8080 }],
        ..Default::default()
    };
    registry.define("web", service);
    registry.add_container(
        "web",
        StartedContainerDetails { id: ContainerId("a".to_string()), addr: Ipv4Address::new(10, 0, 0, 2) },
    );
    registry.add_container(
        "web",
        StartedContainerDetails { id: ContainerId("b".to_string()), addr: Ipv4Address::new(10, 0, 0, 3) },
    );
    registry
}

#[test]
fn reconciliation_needs_the_bearer() {
    let registry = ServiceRegistry::new();
    let action = route_request(&registry, true, "/reconciliation", "/reconciliation", None, Some("pw"), Some("x"), 0);
    assert_eq!(action, ProxyAction::Forbidden);
    let action = route_request(&registry, true, "/reconciliation", "/reconciliation", Some("Bearer pw"), Some("pw"), Some("x"), 0);
    assert_eq!(action, ProxyAction::Reconcile);
    let action = route_request(&registry, true, "/reconciliation", "/reconciliation", Some("Bearer nope"), Some("pw"), Some("x"), 0);
    assert_eq!(action, ProxyAction::Forbidden);
}

#[test]
fn certificates_need_the_bearer() {
    let registry = ServiceRegistry::new();
    let action = route_request(&registry, true, "/certificates", "/reconciliation", Some("Bearer pw"), Some("pw"), None, 0);
    assert_eq!(action, ProxyAction::UpdateCertificates);
    let action = route_request(&registry, true, "/certificates", "/reconciliation", Some("Bearer pw"), None, None, 0);
    assert_eq!(action, ProxyAction::Forbidden);
}

#[test]
fn other_methods_on_admin_paths_are_routed() {
    let registry = registry_with_backend();
    let action = route_request(&registry, false, "/reconciliation", "/reconciliation", None, Some("pw"), Some("example.com"), 0);
    assert_eq!(action, ProxyAction::Forward { addr: Ipv4Address::new(10, 0, 0, 2), port: 8080 });
}

#[test]
fn draw_selects_backend_modulo_count() {
    let registry = registry_with_backend();
    let action = route_request(&registry, false, "/", "/r", None, None, Some("example.com"), 5);
    assert_eq!(action, ProxyAction::Forward { addr: Ipv4Address::new(10, 0, 0, 3), port: 8080 });
}

#[test]
fn missing_host_and_unknown_host() {
    let registry = registry_with_backend();
    assert_eq!(route_request(&registry, false, "/", "/r", None, None, None, 0), ProxyAction::BadRequest);
    assert_eq!(route_request(&registry, false, "/", "/r", None, None, Some("other.com"), 0), ProxyAction::NotFound);
}

#[test]
fn hop_headers_are_dropped() {
    assert!(should_forward_header("accept", None));
    assert!(!should_forward_header("connection", None));
    assert!(!should_forward_header(":authority", None));
}

#[test]
fn headers_named_by_connection_are_dropped() {
    let connection = Some("keep-alive, X-Trace ,upgrade");
    assert!(!should_forward_header("keep-alive", connection));
    assert!(!should_forward_header("x-trace", connection));
    assert!(!should_forward_header("upgrade", connection));
    assert!(should_forward_header("accept", connection));
    assert!(should_forward_header("x-tra", connection));
}

#[test]
fn upstream_uri_is_http_to_backend() {
    assert_eq!(decimal(0), "0");
    assert_eq!(decimal(65535), "65535");
    assert_eq!(
        target_uri(Ipv4Address::new(172, 18, 0, 5), 8080, "/path?query=1"),
        "http://172.18.0.5:8080/path?query=1"
    );
}

#[test]
fn configuration_updates_propagate_immediately() {
    let mut mtls = Some(MtlsConfig {
        anchor: ExternalBytes::Filesystem { path: String::new() },
        domains: vec!["example.com".to_string()],
    });
    assert_eq!(authentication_level(&mtls, "example.com"), AuthenticationLevel::Mutual);
    assert_eq!(authentication_level(&mtls, "example.org"), AuthenticationLevel::Standard);
    mtls.as_mut().unwrap().domains.push("example.org".to_string());
    assert_eq!(authentication_level(&mtls, "example.com"), AuthenticationLevel::Mutual);
    assert_eq!(authentication_level(&mtls, "example.org"), AuthenticationLevel::Mutual);
    assert_eq!(authentication_level(&None, "example.com"), AuthenticationLevel::Standard);
}

fn run_checks(config: HealthCheckConfiguration, probes: &[bool]) -> Option<HealthCheckResult> {
    let mut state = HealthCheckState::new();
    for &p in probes {
        match state.record(config, p) {
            HealthCheckStep::Continue(s) => state = s,
            HealthCheckStep::Done(r) => return Some(r),
        }
    }
    None
}

#[test]
fn health_checks_succeed_and_fail() {
    let config = HealthCheckConfiguration::new(2, 1, 1);
    assert_eq!(run_checks(config, &[true]), Some(HealthCheckResult::Success));
    assert_eq!(run_checks(config, &[false]), Some(HealthCheckResult::Failure));
}

#[test]
fn health_checks_are_retried() {
    let config = HealthCheckConfiguration::new(2, 1, 3);
    assert_eq!(run_checks(config, &[false, false, true]), Some(HealthCheckResult::Success));
    let config = HealthCheckConfiguration::new(2, 2, 2);
    assert_eq!(run_checks(config, &[false, true, true, false]), Some(HealthCheckResult::Success));
    assert_eq!(run_checks(config, &[true, false]), None);
}

#[test]
fn can_extract_hosts_for_http_11() {
    let host = request_host(HttpVersion::Http11, Some("example.com"), Some("example.com"));
    assert_eq!(host, Some("example.com"));
}

#[test]
fn can_extract_hosts_for_http_2() {
    let host = request_host(HttpVersion::Http2, None, Some("example.com"));
    assert_eq!(host, Some("example.com"));
    assert_eq!(request_host(HttpVersion::Http10, Some("example.com"), None), None);
}
