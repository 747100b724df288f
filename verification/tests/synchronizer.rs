use docker_hostmanager::container::{ContainerInfo, NetworkInfo};
use docker_hostmanager::events::{classify_action, event_disposition, EventClass};
use docker_hostmanager::store::StateStore;

fn active_container(id: &str, name: &str, ip: &str) -> ContainerInfo {
    ContainerInfo {
        id: id.to_string(),
        name: name.to_string(),
        ip_address: Some(ip.to_string()),
        networks: Vec::new(),
        domain_names: vec![],
        running: true,
    }
}

#[test]
fn test_classify_action_table() {
    for action in ["start", "unpause", "connect"] {
        assert_eq!(classify_action(action), EventClass::Attach, "{action}");
    }
    for action in ["die", "stop", "kill", "pause", "disconnect", "destroy"] {
        assert_eq!(classify_action(action), EventClass::Detach, "{action}");
    }
    for action in ["create", "rename", "exec_start", "", "Start", "stop "] {
        assert_eq!(classify_action(action), EventClass::Ignored, "{action}");
    }
}

#[test]
fn test_event_without_actor_is_ignored() {
    assert_eq!(event_disposition("start", ""), EventClass::Ignored);
    assert_eq!(event_disposition("start", "abc"), EventClass::Attach);
    assert_eq!(event_disposition("die", "abc"), EventClass::Detach);
}

#[test]
fn test_attach_inserts_and_signals() {
    let mut store = StateStore::new();
    let signal = store.apply_attach("c1", Some(active_container("c1", "nginx", "172.17.0.2")));
    assert!(signal);
    assert_eq!(store.len(), 1);
}

#[test]
fn test_attach_replaces_wholesale() {
    let mut store = StateStore::new();
    store.apply_attach("c1", Some(active_container("c1", "nginx", "172.17.0.2")));
    let replacement = ContainerInfo {
        id: "c1".to_string(),
        name: "nginx".to_string(),
        ip_address: None,
        networks: vec![(
            "net".to_string(),
            NetworkInfo {
                ip_address: "10.0.0.2".to_string(),
                aliases: vec!["nginx".to_string()],
            },
        )],
        domain_names: vec![],
        running: true,
    };
    let signal = store.apply_attach("c1", Some(replacement));
    assert!(signal);
    assert_eq!(store.len(), 1);
    let (id, record) = store.record_at(0);
    assert_eq!(id, "c1");
    assert_eq!(record.ip_address, None);
    assert_eq!(record.networks.len(), 1);
}

#[test]
fn test_attach_ineligible_never_stored() {
    // A record with running == false never enters the store, whatever
    // attachments it carries, and no write is owed.
    let mut store = StateStore::new();
    let stopped = ContainerInfo {
        id: "c9".to_string(),
        name: "old".to_string(),
        ip_address: Some("172.17.0.9".to_string()),
        networks: vec![(
            "net".to_string(),
            NetworkInfo {
                ip_address: "10.0.0.9".to_string(),
                aliases: vec!["old".to_string()],
            },
        )],
        domain_names: vec![],
        running: false,
    };
    let signal = store.apply_attach("c9", Some(stopped));
    assert!(!signal);
    assert_eq!(store.len(), 0);

    let signal = store.apply_attach("c9", None);
    assert!(!signal);
    assert_eq!(store.len(), 0);
}

#[test]
fn test_detach_signals_only_when_removed() {
    let mut store = StateStore::new();
    store.apply_attach("c1", Some(active_container("c1", "nginx", "172.17.0.2")));
    assert!(!store.apply_detach("unknown"));
    assert_eq!(store.len(), 1);
    assert!(store.apply_detach("c1"));
    assert_eq!(store.len(), 0);
    assert!(!store.apply_detach("c1"));
}

#[test]
fn test_rebuild_replaces_state() {
    let mut store = StateStore::new();
    store.apply_attach("gone", Some(active_container("gone", "old", "172.17.0.8")));

    let items = vec![
        (
            "c1".to_string(),
            Some(active_container("c1", "nginx", "172.17.0.2")),
        ),
        ("".to_string(), Some(active_container("", "noid", "172.17.0.3"))),
        ("failed".to_string(), None),
        (
            "c2".to_string(),
            Some(ContainerInfo {
                id: "c2".to_string(),
                name: "stopped".to_string(),
                ip_address: Some("172.17.0.4".to_string()),
                networks: Vec::new(),
                domain_names: vec![],
                running: false,
            }),
        ),
    ];
    store.rebuild(items);
    assert_eq!(store.len(), 1);
    let (id, record) = store.record_at(0);
    assert_eq!(id, "c1");
    assert_eq!(record.name, "nginx");
}

#[test]
fn test_store_remove_returns_record() {
    let mut store = StateStore::new();
    store.insert("c1", active_container("c1", "nginx", "172.17.0.2"));
    let removed = store.remove("c1").unwrap();
    assert_eq!(removed.name, "nginx");
    assert!(store.remove("c1").is_none());
    store.clear();
    assert_eq!(store.len(), 0);
}
