use docker_hostmanager::container::{ContainerInfo, NetworkInfo};

fn no_networks() -> Vec<(String, NetworkInfo)> {
    Vec::new()
}

#[test]
fn test_container_has_exposed_ports() {
    let container = ContainerInfo {
        id: "abc123".to_string(),
        name: "test".to_string(),
        ip_address: Some("172.17.0.2".to_string()),
        networks: no_networks(),
        domain_names: vec![],
        running: true,
    };
    assert!(container.has_exposed_ports());

    let container_not_running = ContainerInfo {
        id: "abc123".to_string(),
        name: "test".to_string(),
        ip_address: Some("172.17.0.2".to_string()),
        networks: no_networks(),
        domain_names: vec![],
        running: false,
    };
    assert!(!container_not_running.has_exposed_ports());

    let container_no_ip = ContainerInfo {
        id: "abc123".to_string(),
        name: "test".to_string(),
        ip_address: None,
        networks: no_networks(),
        domain_names: vec![],
        running: true,
    };
    assert!(!container_no_ip.has_exposed_ports());
}

#[test]
fn test_get_hostnames_simple() {
    let container = ContainerInfo {
        id: "abc123".to_string(),
        name: "nginx".to_string(),
        ip_address: Some("172.17.0.2".to_string()),
        networks: no_networks(),
        domain_names: vec![],
        running: true,
    };

    let hostnames = container.get_hostnames(".docker");
    assert_eq!(hostnames.len(), 1);
    assert_eq!(hostnames[0].0, "172.17.0.2");
    assert_eq!(hostnames[0].1, vec!["nginx.docker"]);
}

#[test]
fn test_get_hostnames_with_domain_names() {
    let container = ContainerInfo {
        id: "abc123".to_string(),
        name: "web".to_string(),
        ip_address: Some("172.17.0.2".to_string()),
        networks: no_networks(),
        domain_names: vec!["example.com".to_string(), "www.example.com".to_string()],
        running: true,
    };

    let hostnames = container.get_hostnames(".docker");
    assert_eq!(hostnames.len(), 1);
    assert_eq!(hostnames[0].0, "172.17.0.2");
    assert!(hostnames[0].1.contains(&"web.docker".to_string()));
    assert!(hostnames[0].1.contains(&"example.com".to_string()));
    assert!(hostnames[0].1.contains(&"www.example.com".to_string()));
}

#[test]
fn test_get_hostnames_with_network() {
    let networks = vec![(
        "myapp".to_string(),
        NetworkInfo {
            ip_address: "172.18.0.2".to_string(),
            aliases: vec!["web".to_string(), "www".to_string()],
        },
    )];

    let container = ContainerInfo {
        id: "abc123".to_string(),
        name: "web".to_string(),
        ip_address: None,
        networks,
        domain_names: vec![],
        running: true,
    };

    let hostnames = container.get_hostnames(".docker");
    assert_eq!(hostnames.len(), 1);
    assert_eq!(hostnames[0].0, "172.18.0.2");
    assert!(hostnames[0].1.contains(&"web.myapp".to_string()));
    assert!(hostnames[0].1.contains(&"www.myapp".to_string()));
}

#[test]
fn test_get_hostnames_with_network_specific_domain() {
    let networks = vec![(
        "myapp".to_string(),
        NetworkInfo {
            ip_address: "172.18.0.2".to_string(),
            aliases: vec!["web".to_string()],
        },
    )];

    let container = ContainerInfo {
        id: "abc123".to_string(),
        name: "web".to_string(),
        ip_address: None,
        networks,
        domain_names: vec![
            "myapp:api.local".to_string(),
            "myapp:admin.local".to_string(),
        ],
        running: true,
    };

    let hostnames = container.get_hostnames(".docker");
    assert_eq!(hostnames.len(), 1);
    assert_eq!(hostnames[0].0, "172.18.0.2");
    assert!(hostnames[0].1.contains(&"web.myapp".to_string()));
    assert!(hostnames[0].1.contains(&"api.local".to_string()));
    assert!(hostnames[0].1.contains(&"admin.local".to_string()));
}

#[test]
fn test_get_hostnames_with_default_network_domains() {
    let networks = vec![(
        "urq_default".to_string(),
        NetworkInfo {
            ip_address: "172.18.0.2".to_string(),
            aliases: vec!["urq-app".to_string()],
        },
    )];

    let container = ContainerInfo {
        id: "abc123".to_string(),
        name: "urq-app".to_string(),
        ip_address: None,
        networks,
        domain_names: vec![
            "default:urq.app.local".to_string(),
            "default:urq.example.com".to_string(),
        ],
        running: true,
    };

    let hostnames = container.get_hostnames(".docker");
    assert_eq!(hostnames.len(), 1);
    assert_eq!(hostnames[0].0, "172.18.0.2");

    assert!(hostnames[0].1.contains(&"urq-app.urq_default".to_string()));
    assert!(hostnames[0].1.contains(&"urq.app.local".to_string()));
    assert!(hostnames[0].1.contains(&"urq.example.com".to_string()));
}

#[test]
fn test_network_name_matching_with_underscore_suffix() {
    let networks = vec![(
        "myproject_default".to_string(),
        NetworkInfo {
            ip_address: "172.20.0.5".to_string(),
            aliases: vec!["web".to_string()],
        },
    )];

    let container = ContainerInfo {
        id: "xyz789".to_string(),
        name: "web".to_string(),
        ip_address: None,
        networks,
        domain_names: vec!["default:api.example.com".to_string()],
        running: true,
    };

    let hostnames = container.get_hostnames(".docker");
    assert_eq!(hostnames.len(), 1);
    assert!(
        hostnames[0].1.contains(&"api.example.com".to_string()),
        "Should match 'default' in env to 'myproject_default' network"
    );
}

#[test]
fn test_network_name_matching_with_hyphen_suffix() {
    let networks = vec![(
        "stack-default".to_string(),
        NetworkInfo {
            ip_address: "172.21.0.3".to_string(),
            aliases: vec!["db".to_string()],
        },
    )];

    let container = ContainerInfo {
        id: "def456".to_string(),
        name: "db".to_string(),
        ip_address: None,
        networks,
        domain_names: vec!["default:postgres.local".to_string()],
        running: true,
    };

    let hostnames = container.get_hostnames(".docker");
    assert_eq!(hostnames.len(), 1);
    assert!(
        hostnames[0].1.contains(&"postgres.local".to_string()),
        "Should match 'default' in env to 'stack-default' network"
    );
}

#[test]
fn test_network_name_exact_match_takes_precedence() {
    let networks = vec![(
        "default".to_string(),
        NetworkInfo {
            ip_address: "172.22.0.2".to_string(),
            aliases: vec!["app".to_string()],
        },
    )];

    let container = ContainerInfo {
        id: "exact123".to_string(),
        name: "app".to_string(),
        ip_address: None,
        networks,
        domain_names: vec!["default:exact-match.test".to_string()],
        running: true,
    };

    let hostnames = container.get_hostnames(".docker");
    assert_eq!(hostnames.len(), 1);
    assert!(
        hostnames[0].1.contains(&"exact-match.test".to_string()),
        "Should match exact network name"
    );
}

#[test]
fn test_network_name_no_false_positives() {
    let networks = vec![(
        "mydefault".to_string(),
        NetworkInfo {
            ip_address: "172.23.0.2".to_string(),
            aliases: vec!["app".to_string()],
        },
    )];

    let container = ContainerInfo {
        id: "false123".to_string(),
        name: "app".to_string(),
        ip_address: None,
        networks,
        domain_names: vec!["default:shouldnot.match".to_string()],
        running: true,
    };

    let hostnames = container.get_hostnames(".docker");
    assert_eq!(hostnames.len(), 1);
    assert!(
        !hostnames[0].1.contains(&"shouldnot.match".to_string()),
        "Should NOT match 'default' to 'mydefault' (no separator)"
    );
}

#[test]
fn test_multiple_networks_with_domain_name_matching() {
    let networks = vec![
        (
            "frontend_default".to_string(),
            NetworkInfo {
                ip_address: "172.24.0.2".to_string(),
                aliases: vec!["web".to_string()],
            },
        ),
        (
            "backend_internal".to_string(),
            NetworkInfo {
                ip_address: "172.25.0.2".to_string(),
                aliases: vec!["web".to_string()],
            },
        ),
    ];

    let container = ContainerInfo {
        id: "multi123".to_string(),
        name: "web".to_string(),
        ip_address: None,
        networks,
        domain_names: vec![
            "default:public.example.com".to_string(),
            "internal:private.local".to_string(),
        ],
        running: true,
    };

    let hostnames = container.get_hostnames(".docker");
    assert_eq!(hostnames.len(), 2);

    let frontend = hostnames
        .iter()
        .find(|(ip, _)| ip == "172.24.0.2")
        .expect("Should have frontend network");
    assert!(
        frontend.1.contains(&"public.example.com".to_string()),
        "Frontend should have public domain"
    );

    let backend = hostnames
        .iter()
        .find(|(ip, _)| ip == "172.25.0.2")
        .expect("Should have backend network");
    assert!(
        backend.1.contains(&"private.local".to_string()),
        "Backend should have private domain"
    );
}

#[test]
fn test_get_hostnames_multiple_networks() {
    let networks = vec![
        (
            "frontend".to_string(),
            NetworkInfo {
                ip_address: "172.18.0.2".to_string(),
                aliases: vec!["web".to_string()],
            },
        ),
        (
            "backend".to_string(),
            NetworkInfo {
                ip_address: "172.19.0.2".to_string(),
                aliases: vec!["web".to_string(), "api".to_string()],
            },
        ),
    ];

    let container = ContainerInfo {
        id: "abc123".to_string(),
        name: "web".to_string(),
        ip_address: None,
        networks,
        domain_names: vec![],
        running: true,
    };

    let hostnames = container.get_hostnames(".docker");
    assert_eq!(hostnames.len(), 2);

    let ips: Vec<String> = hostnames.iter().map(|(ip, _)| ip.clone()).collect();
    assert!(ips.contains(&"172.18.0.2".to_string()));
    assert!(ips.contains(&"172.19.0.2".to_string()));
}
