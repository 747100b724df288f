use docker_hostmanager::inspect::{
    extract_container_info, InspectConfig, InspectData, InspectNetwork, InspectNetworkSettings,
    InspectState,
};

#[test]
fn test_extract_container_info() {
    let container = InspectData {
        id: Some("abc123".to_string()),
        name: Some("/nginx".to_string()),
        state: Some(InspectState {
            running: Some(true),
        }),
        config: Some(InspectConfig {
            env: Some(vec![
                "PATH=/usr/bin".to_string(),
                "DOMAIN_NAME=example.com,www.example.com".to_string(),
            ]),
            labels: None,
        }),
        network_settings: Some(InspectNetworkSettings {
            ports: Some(0),
            networks: None,
        }),
    };

    let info = extract_container_info(container);
    assert!(info.is_some());

    let container_info = info.unwrap();
    assert_eq!(container_info.name, "nginx");
    assert_eq!(container_info.ip_address, None);
    assert!(container_info
        .domain_names
        .contains(&"example.com".to_string()));
    assert!(container_info
        .domain_names
        .contains(&"www.example.com".to_string()));
}

#[test]
fn test_extract_container_info_with_orbstack_label() {
    let labels = vec![(
        "dev.orbstack.domains".to_string(),
        "foo.local,bar.local".to_string(),
    )];

    let container = InspectData {
        id: Some("xyz456".to_string()),
        name: Some("/web".to_string()),
        state: Some(InspectState {
            running: Some(true),
        }),
        config: Some(InspectConfig {
            env: None,
            labels: Some(labels),
        }),
        network_settings: Some(InspectNetworkSettings {
            ports: Some(0),
            networks: None,
        }),
    };

    let info = extract_container_info(container);
    assert!(info.is_some());

    let container_info = info.unwrap();
    assert_eq!(container_info.name, "web");
    assert!(container_info
        .domain_names
        .contains(&"foo.local".to_string()));
    assert!(container_info
        .domain_names
        .contains(&"bar.local".to_string()));
}

#[test]
fn test_extract_container_info_with_both_env_and_label() {
    let labels = vec![(
        "dev.orbstack.domains".to_string(),
        "app.example.org".to_string(),
    )];

    let container = InspectData {
        id: Some("multi789".to_string()),
        name: Some("/app".to_string()),
        state: Some(InspectState {
            running: Some(true),
        }),
        config: Some(InspectConfig {
            env: Some(vec!["DOMAIN_NAME=legacy.com".to_string()]),
            labels: Some(labels),
        }),
        network_settings: Some(InspectNetworkSettings {
            ports: Some(0),
            networks: None,
        }),
    };

    let info = extract_container_info(container);
    assert!(info.is_some());

    let container_info = info.unwrap();
    assert_eq!(container_info.name, "app");
    assert!(container_info
        .domain_names
        .contains(&"legacy.com".to_string()));
    assert!(container_info
        .domain_names
        .contains(&"app.example.org".to_string()));
}

#[test]
fn test_extract_rejects_stopped_without_ports() {
    let container = InspectData {
        id: Some("stopped1".to_string()),
        name: Some("/old".to_string()),
        state: Some(InspectState {
            running: Some(false),
        }),
        config: None,
        network_settings: Some(InspectNetworkSettings {
            ports: None,
            networks: None,
        }),
    };
    assert!(extract_container_info(container).is_none());
}

#[test]
fn test_extract_rejects_incomplete_answer() {
    let container = InspectData {
        id: None,
        name: Some("/web".to_string()),
        state: Some(InspectState {
            running: Some(true),
        }),
        config: None,
        network_settings: Some(InspectNetworkSettings {
            ports: Some(1),
            networks: None,
        }),
    };
    assert!(extract_container_info(container).is_none());
}

#[test]
fn test_extract_adds_name_to_aliases() {
    let container = InspectData {
        id: Some("net1".to_string()),
        name: Some("/svc".to_string()),
        state: Some(InspectState {
            running: Some(true),
        }),
        config: None,
        network_settings: Some(InspectNetworkSettings {
            ports: Some(0),
            networks: Some(vec![
                (
                    "appnet".to_string(),
                    InspectNetwork {
                        ip_address: Some("10.0.0.7".to_string()),
                        aliases: Some(vec!["alias1".to_string()]),
                    },
                ),
                (
                    "empty".to_string(),
                    InspectNetwork {
                        ip_address: Some("".to_string()),
                        aliases: None,
                    },
                ),
            ]),
        }),
    };
    let info = extract_container_info(container).unwrap();
    assert_eq!(info.networks.len(), 1);
    assert_eq!(info.networks[0].0, "appnet");
    assert_eq!(info.networks[0].1.ip_address, "10.0.0.7");
    assert_eq!(info.networks[0].1.aliases, vec!["alias1", "svc"]);
}

#[test]
fn test_extract_trims_and_drops_empty_domain_tokens() {
    let container = InspectData {
        id: Some("tok1".to_string()),
        name: Some("/svc".to_string()),
        state: Some(InspectState {
            running: Some(true),
        }),
        config: Some(InspectConfig {
            env: Some(vec!["DOMAIN_NAME= a.example , ,b.example,".to_string()]),
            labels: None,
        }),
        network_settings: Some(InspectNetworkSettings {
            ports: None,
            networks: None,
        }),
    };
    let info = extract_container_info(container).unwrap();
    assert_eq!(info.domain_names, vec!["a.example", "b.example"]);
}

#[test]
fn test_extract_dedupes_aliases() {
    // The runtime repeating the container's own name, or any alias, leaves
    // each exactly once.
    let container = InspectData {
        id: Some("dup1".to_string()),
        name: Some("/svc".to_string()),
        state: Some(InspectState {
            running: Some(true),
        }),
        config: None,
        network_settings: Some(InspectNetworkSettings {
            ports: Some(0),
            networks: Some(vec![(
                "appnet".to_string(),
                InspectNetwork {
                    ip_address: Some("10.0.0.8".to_string()),
                    aliases: Some(vec![
                        "svc".to_string(),
                        "web".to_string(),
                        "svc".to_string(),
                        "web".to_string(),
                    ]),
                },
            )]),
        }),
    };
    let info = extract_container_info(container).unwrap();
    assert_eq!(info.networks.len(), 1);
    assert_eq!(info.networks[0].1.aliases, vec!["svc", "web"]);
}

#[test]
fn test_extract_keeps_first_attachment_per_network() {
    let container = InspectData {
        id: Some("dup2".to_string()),
        name: Some("/svc".to_string()),
        state: Some(InspectState {
            running: Some(true),
        }),
        config: None,
        network_settings: Some(InspectNetworkSettings {
            ports: Some(0),
            networks: Some(vec![
                (
                    "appnet".to_string(),
                    InspectNetwork {
                        ip_address: Some("10.0.0.1".to_string()),
                        aliases: None,
                    },
                ),
                (
                    "appnet".to_string(),
                    InspectNetwork {
                        ip_address: Some("10.0.0.2".to_string()),
                        aliases: None,
                    },
                ),
            ]),
        }),
    };
    let info = extract_container_info(container).unwrap();
    assert_eq!(info.networks.len(), 1);
    assert_eq!(info.networks[0].0, "appnet");
    assert_eq!(info.networks[0].1.ip_address, "10.0.0.1");
}
