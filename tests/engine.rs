use f2::config::ShutdownMode;
use f2::net::Ipv4Address;
use f2::reconcile::{next_start_step, retire, EngineAction, StartStep};
use f2::registry::{ContainerId, StartedContainerDetails};
use f2::common::Environment;
use f2::engine::{
    create_container_options, find_network_id, format_binds, format_environment_variables,
    generate_hostname, image_reference, needs_pull, volume_staging_path, ImageSummary, Network,
    NetworkId,
};
use f2::segments::{find_replaceable_segments, Segment};

#[test]
fn can_find_replaceable_content_correctly() {
    let content =
        "This is a test with {{ secret1 }} and {{ secret2 }} and some {{ secret3 }} at the end.";

    let segments = find_replaceable_segments(content);

    let expected_segments = vec![
        Segment::Text("This is a test with ".to_string()),
        Segment::Secret {
            encrypted: "secret1".to_string(),
        },
        Segment::Text(" and ".to_string()),
        Segment::Secret {
            encrypted: "secret2".to_string(),
        },
        Segment::Text(" and some ".to_string()),
        Segment::Secret {
            encrypted: "secret3".to_string(),
        },
        Segment::Text(" at the end.".to_string()),
    ];

    assert_eq!(segments, expected_segments);
}

#[test]
fn unterminated_marker_is_text() {
    let segments = find_replaceable_segments("a {{ b");
    assert_eq!(
        segments,
        vec![Segment::Text("a ".to_string()), Segment::Text("{{ b".to_string())]
    );
}

#[test]
fn empty_content_has_no_segments() {
    assert!(find_replaceable_segments("").is_empty());
}

#[test]
fn can_generate_container_names() {
    assert_eq!(generate_hostname("nginx"), "nginx");
}

#[test]
fn can_generate_container_names_with_slash() {
    assert_eq!(generate_hostname("company/nginx"), "nginx");
}

#[test]
fn can_generate_container_names_with_slash_and_colon() {
    assert_eq!(generate_hostname("company/nginx:tag"), "nginx");
}

#[test]
fn hostname_of_nested_registry_path() {
    assert_eq!(generate_hostname("registry:5000/org/app:1.2"), "app");
}

#[test]
fn image_reference_joins_name_and_tag() {
    assert_eq!(image_reference("alexanderjackson/f2", "latest"), "alexanderjackson/f2:latest");
}

#[test]
fn pull_is_skipped_when_the_image_is_present() {
    let images = vec![
        ImageSummary { repo_tags: vec!["nginx:1".to_string()] },
        ImageSummary { repo_tags: vec!["f2:latest".to_string(), "f2:2".to_string()] },
    ];
    assert!(!needs_pull(&images, "f2:2"));
    assert!(needs_pull(&images, "f2:3"));
    assert!(needs_pull(&[].to_vec(), "f2:3"));
}

#[test]
fn network_is_found_by_name() {
    let networks = vec![
        Network { id: "a1".to_string(), name: "bridge".to_string() },
        Network { id: "b2".to_string(), name: "internal".to_string() },
    ];
    assert_eq!(find_network_id(&networks, "internal").map(|n| n.0), Some("b2".to_string()));
    assert!(find_network_id(&networks, "missing").is_none());
}

#[test]
fn environment_is_formatted_as_assignments() {
    let env = Environment {
        variables: vec![
            ("A".to_string(), "1".to_string()),
            ("B".to_string(), "x=y".to_string()),
        ],
    };
    assert_eq!(format_environment_variables(&Some(env)), vec!["A=1", "B=x=y"]);
    assert!(format_environment_variables(&None).is_empty());
}

#[test]
fn binds_are_host_then_container() {
    let binds = format_binds(&vec![("/tmp/f2/a".to_string(), "/etc/a".to_string())]);
    assert_eq!(binds, vec!["/tmp/f2/a:/etc/a"]);
}

#[test]
fn container_options_carry_network_alias() {
    let network = NetworkId("net1".to_string());
    let options = create_container_options(
        "nginx:1",
        &None,
        &vec![("/h".to_string(), "/c".to_string())],
        Some("nginx"),
        Some((&network, "nginx")),
    );
    assert_eq!(options.image, "nginx:1");
    assert!(options.env.is_empty());
    assert_eq!(options.host_config.binds, vec!["/h:/c"]);
    assert_eq!(options.hostname.as_deref(), Some("nginx"));
    let config = options.networking_config.expect("network config");
    assert_eq!(config.endpoints_config.len(), 1);
    assert_eq!(config.endpoints_config[0].0, "net1");
    assert_eq!(config.endpoints_config[0].1.aliases, Some(vec!["nginx".to_string()]));
}

#[test]
fn volume_paths_use_target_file_name() {
    assert_eq!(
        volume_staging_path("/tmp/f2", "nginx", "1", "conf", "/etc/nginx/nginx.conf/"),
        Some("/tmp/f2/nginx/1/conf/nginx.conf".to_string())
    );
    assert_eq!(volume_staging_path("/tmp/f2", "nginx", "1", "conf", "/"), None);
    assert_eq!(volume_staging_path("/tmp/f2", "nginx", "1", "conf", "/etc/.."), None);
}

#[test]
fn graceful_retirement_stops_then_removes() {
    let containers = vec![
        StartedContainerDetails { id: ContainerId("a".to_string()), addr: Ipv4Address::localhost() },
        StartedContainerDetails { id: ContainerId("b".to_string()), addr: Ipv4Address::localhost() },
    ];
    let graceful: Vec<String> = retire(&containers, ShutdownMode::Graceful)
        .into_iter()
        .map(|a| match a {
            EngineAction::Stop(id) => format!("stop {}", id.0),
            EngineAction::Remove(id) => format!("remove {}", id.0),
        })
        .collect();
    assert_eq!(graceful, vec!["stop a", "remove a", "stop b", "remove b"]);

    let forceful = retire(&containers, ShutdownMode::Forceful);
    assert_eq!(forceful.len(), 2);
    assert!(matches!(&forceful[0], EngineAction::Remove(id) if id.0 == "a"));
    assert!(retire(&Vec::new(), ShutdownMode::Graceful).is_empty());
}

#[test]
fn starting_stops_at_replicas_and_rolls_back_on_failure() {
    let started = vec![StartedContainerDetails { id: ContainerId("a".to_string()), addr: Ipv4Address::localhost() }];
    assert!(matches!(next_start_step(&started, 2, false), StartStep::StartAnother));
    assert!(matches!(next_start_step(&started, 1, false), StartStep::Done));
    match next_start_step(&started, 2, true) {
        StartStep::RollBack(actions) => {
            assert_eq!(actions.len(), 1);
            assert!(matches!(&actions[0], EngineAction::Remove(id) if id.0 == "a"));
        }
        other => panic!("unexpected {other:?}"),
    }
}
