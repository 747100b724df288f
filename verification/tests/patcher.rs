use docker_hostmanager::container::{ContainerInfo, NetworkInfo};
use docker_hostmanager::hosts::{end_tag, patch_content, start_tag};
use docker_hostmanager::store::StateStore;
use docker_hostmanager::writer::{build_host_entries, updated_content};

fn simple_container(id: &str, name: &str, ip: &str) -> ContainerInfo {
    ContainerInfo {
        id: id.to_string(),
        name: name.to_string(),
        ip_address: Some(ip.to_string()),
        networks: Vec::new(),
        domain_names: vec![],
        running: true,
    }
}

#[test]
fn test_write_hosts_file_creates_managed_section() {
    let initial = "127.0.0.1 localhost\n";

    let mut store = StateStore::new();
    store.insert("test123", simple_container("test123", "nginx", "172.17.0.2"));

    let content = updated_content(&store, ".docker", initial);
    assert!(content.contains(start_tag()));
    assert!(content.contains(end_tag()));
    assert!(content.contains("127.0.0.1 localhost"));
    assert!(content.contains("172.17.0.2 nginx.docker"));
}

#[test]
fn test_write_hosts_file_updates_existing_section() {
    let initial = format!(
        "127.0.0.1 localhost\n{}\n172.17.0.2 old.container\n{}\n192.168.1.1 server\n",
        start_tag(),
        end_tag()
    );

    let mut store = StateStore::new();
    let networks = vec![(
        "testnet".to_string(),
        NetworkInfo {
            ip_address: "172.18.0.2".to_string(),
            aliases: vec!["web".to_string()],
        },
    )];
    store.insert(
        "test123",
        ContainerInfo {
            id: "test123".to_string(),
            name: "web".to_string(),
            ip_address: None,
            networks,
            domain_names: vec![],
            running: true,
        },
    );

    let content = updated_content(&store, ".docker", &initial);
    assert!(content.contains("127.0.0.1 localhost"));
    assert!(content.contains("192.168.1.1 server"));
    assert!(content.contains("172.18.0.2 web.testnet"));
    assert!(!content.contains("172.17.0.2 old.container"));
}

#[test]
fn test_write_hosts_file_dry_run_mode() {
    // With nothing active, the computed content of an unmarked file is the
    // file itself: the caller in dry-run mode performs no write, and even a
    // write would change nothing.
    let initial = "127.0.0.1 localhost\n";
    let store = StateStore::new();

    let content = updated_content(&store, ".docker", initial);
    assert!(!content.contains(start_tag()));
    assert!(!content.contains(end_tag()));
    assert_eq!(content, "127.0.0.1 localhost\n");
}

#[test]
fn test_write_hosts_file_removes_empty_section() {
    let initial = format!(
        "127.0.0.1 localhost\n{}\n172.17.0.2 old.container\n{}\n192.168.1.1 server\n",
        start_tag(),
        end_tag()
    );
    let store = StateStore::new();

    let content = updated_content(&store, ".docker", &initial);
    assert!(content.contains("127.0.0.1 localhost"));
    assert!(content.contains("192.168.1.1 server"));
    assert!(!content.contains(start_tag()));
    assert!(!content.contains(end_tag()));
    assert!(!content.contains("172.17.0.2 old.container"));
}

#[test]
fn test_write_hosts_file_appends_when_no_section() {
    let initial = "127.0.0.1 localhost\n192.168.1.1 server\n";

    let mut store = StateStore::new();
    let networks = vec![(
        "testnet".to_string(),
        NetworkInfo {
            ip_address: "172.18.0.2".to_string(),
            aliases: vec!["web".to_string()],
        },
    )];
    store.insert(
        "test123",
        ContainerInfo {
            id: "test123".to_string(),
            name: "web".to_string(),
            ip_address: None,
            networks,
            domain_names: vec![],
            running: true,
        },
    );

    let content = updated_content(&store, ".docker", initial);
    assert!(content.contains("127.0.0.1 localhost"));
    assert!(content.contains("192.168.1.1 server"));
    assert!(content.contains(start_tag()));
    assert!(content.contains(end_tag()));
    assert!(content.contains("172.18.0.2 web.testnet"));

    let start_pos = content.find(start_tag()).unwrap();
    let localhost_pos = content.find("127.0.0.1 localhost").unwrap();
    assert!(localhost_pos < start_pos);
}

#[test]
fn test_patch_twice_is_byte_identical() {
    let initial = "127.0.0.1 localhost\n192.168.1.1 server";
    let entries = vec![
        "172.17.0.2 nginx.docker".to_string(),
        "172.18.0.5 web.testnet".to_string(),
    ];
    let once = patch_content(initial, &entries);
    let twice = patch_content(&once, &entries);
    assert_eq!(once, twice);
}

#[test]
fn test_patch_section_replacement_preserves_foreign_lines() {
    let initial = format!("A\n{}\nold\n{}\nB\n", start_tag(), end_tag());
    let entries = vec!["new1".to_string(), "new2".to_string()];
    let content = patch_content(&initial, &entries);
    assert_eq!(
        content,
        format!("A\n{}\nnew1\nnew2\n{}\nB\n", start_tag(), end_tag())
    );
}

#[test]
fn test_patch_empty_set_removes_markers() {
    let initial = format!("A\n{}\nold\n{}\nB\n", start_tag(), end_tag());
    let content = patch_content(&initial, &Vec::new());
    assert_eq!(content, "A\nB\n");
}

#[test]
fn test_patch_appends_after_blank_separator() {
    let initial = "A\nB";
    let entries = vec!["new".to_string()];
    let content = patch_content(initial, &entries);
    assert_eq!(
        content,
        format!("A\nB\n\n{}\nnew\n{}\n", start_tag(), end_tag())
    );
}

#[test]
fn test_patch_empty_entries_leave_unmarked_file_untouched() {
    let content = patch_content("A\nB\n", &Vec::new());
    assert_eq!(content, "A\nB\n");
}

#[test]
fn test_entry_lines_exact() {
    let mut store = StateStore::new();
    store.insert("c1", simple_container("c1", "nginx", "172.17.0.2"));
    let networks = vec![(
        "backend".to_string(),
        NetworkInfo {
            ip_address: "172.19.0.2".to_string(),
            aliases: vec!["api".to_string()],
        },
    )];
    store.insert(
        "c2",
        ContainerInfo {
            id: "c2".to_string(),
            name: "svc".to_string(),
            ip_address: None,
            networks,
            domain_names: vec![],
            running: true,
        },
    );
    let entries = build_host_entries(&store, ".docker");
    assert_eq!(
        entries,
        vec![
            "172.17.0.2 nginx.docker".to_string(),
            "172.19.0.2 svc.backend api.backend".to_string(),
        ]
    );
}

#[test]
fn test_markers_match_after_trimming() {
    let initial = format!("A\n  {}\t\nold\n {} \nB\n", start_tag(), end_tag());
    let entries = vec!["new".to_string()];
    let content = patch_content(&initial, &entries);
    assert_eq!(
        content,
        format!("A\n{}\nnew\n{}\nB\n", start_tag(), end_tag())
    );
}

#[test]
fn test_patch_untouched_keeps_bytes_exactly() {
    // No marker pair and nothing to write: the content comes back
    // byte-identical, carriage returns and missing final newline included.
    let content = patch_content("A\r\nB", &Vec::new());
    assert_eq!(content, "A\r\nB");
}

#[test]
fn test_patch_stays_stable_over_repeated_writes() {
    // From any starting file with one region, the bytes settle after the
    // first write and never change again under the same entries.
    let initial = "# local names\n10.0.0.1 gateway";
    let entries = vec!["172.17.0.2 nginx.docker".to_string()];
    let first = patch_content(initial, &entries);
    let second = patch_content(&first, &entries);
    let third = patch_content(&second, &entries);
    assert_eq!(first, second);
    assert_eq!(second, third);
}
