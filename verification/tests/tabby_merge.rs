use remmina2tabby::protocols::{resolve_port, ConnectionProtocols};
use remmina2tabby::remmina::{RemminaFiles, RemminaProfile, SourceFile};
use remmina2tabby::tabby::{Group, Profile, ProfileOptions, TabbyConfig};

fn empty_config() -> TabbyConfig {
    TabbyConfig { version: 1, profiles: Vec::new(), groups: None, extra: Vec::new() }
}

fn record(name: &str, server: Option<&str>, port: Option<&str>) -> RemminaProfile {
    RemminaProfile {
        name: Some(name.to_string()),
        server: server.map(|s| s.to_string()),
        port: port.map(|s| s.to_string()),
        group: None,
        protocol: Some("SSH".to_string()),
        user: None,
        auth_method: None,
        path: format!("{name}.remmina"),
    }
}

fn existing_profile(name: &str, id: &str) -> Profile {
    Profile {
        profile_type: "ssh".to_string(),
        name: name.to_string(),
        icon: "fas fa-terminal".to_string(),
        options: ProfileOptions {
            host: None,
            user: None,
            algorithms: None,
            input: None,
            auth: None,
            port: 22,
        },
        weight: -1,
        color: "#FF9C00".to_string(),
        group: None,
        id: Some(id.to_string()),
    }
}

#[test]
fn port_resolution_rules() {
    let ssh = ConnectionProtocols::Ssh;
    assert_eq!(resolve_port(&None, &ssh), 22);
    assert_eq!(resolve_port(&Some("2022".to_string()), &ssh), 2022);
    assert_eq!(resolve_port(&Some("not-a-port".to_string()), &ssh), 22);
    assert_eq!(resolve_port(&Some("70000".to_string()), &ssh), 22);
    assert_eq!(resolve_port(&None, &ConnectionProtocols::Rdp), 3389);
    assert_eq!(resolve_port(&None, &ConnectionProtocols::Vnc), 5900);
    assert_eq!(resolve_port(&None, &ConnectionProtocols::Unknown("x".to_string())), 0);
}

#[test]
fn end_to_end_single_ssh_file() {
    let files = RemminaFiles {
        files: vec![SourceFile {
            path: "host1.remmina".to_string(),
            lines: vec![
                "protocol=SSH".to_string(),
                "name=host1".to_string(),
                "server=10.0.0.1".to_string(),
            ],
        }],
    };
    let records = files.export_profiles();
    assert_eq!(records.len(), 1);

    let mut config = empty_config();
    let count = config.import_profiles(records);
    assert_eq!(count, 1);
    assert_eq!(config.profiles.len(), 1);

    let p = &config.profiles[0];
    assert_eq!(p.name, "host1".to_string());
    assert_eq!(p.profile_type, "ssh".to_string());
    assert_eq!(p.options.port, 22);
    assert_eq!(p.options.host, Some("10.0.0.1".to_string()));
    assert_eq!(p.options.auth, Some("password".to_string()));

    assert_eq!(
        p.options.algorithms,
        Some(serde_yaml_ng::Value::Mapping(serde_yaml_ng::Mapping::new()))
    );
    assert_eq!(
        p.options.input,
        Some(serde_yaml_ng::Value::Mapping(serde_yaml_ng::Mapping::new()))
    );

    let groups = config.groups.as_ref().expect("a group list is created");
    assert_eq!(groups.len(), 1);
    assert_eq!(groups[0].name, "Default Group".to_string());
    assert_eq!(p.group, Some(groups[0].id.clone()));
    assert!(p.id.is_some());
}

#[test]
fn end_to_end_two_files_with_same_name() {
    let mk = |path: &str| SourceFile {
        path: path.to_string(),
        lines: vec!["protocol=SSH".to_string(), "name=host1".to_string()],
    };
    let files = RemminaFiles { files: vec![mk("a.remmina"), mk("b.remmina")] };
    let records = files.export_profiles();
    assert_eq!(records.len(), 2);

    let mut config = empty_config();
    let count = config.import_profiles(records);
    assert_eq!(count, 1);
    let named: Vec<&Profile> =
        config.profiles.iter().filter(|p| p.name == "host1").collect();
    assert_eq!(named.len(), 1);
}

#[test]
fn existing_name_is_never_overwritten() {
    let mut config = empty_config();
    config.profiles.push(existing_profile("host1", "ssh:custom:host1:keep"));
    let count = config.import_profiles(vec![record("host1", Some("10.9.9.9"), None)]);
    assert_eq!(count, 0);
    assert_eq!(config.profiles.len(), 1);
    assert_eq!(config.profiles[0].options.host, None);
    assert!(config.groups.is_none());
}

#[test]
fn zero_imports_change_nothing() {
    let mut config = empty_config();
    config.version = 7;
    config.extra.push((
        "appearance".to_string(),
        serde_yaml_ng::Value::String("dark".to_string()),
    ));
    let count = config.import_profiles(Vec::new());
    assert_eq!(count, 0);
    assert_eq!(config.version, 7);
    assert_eq!(config.profiles.len(), 0);
    assert!(config.groups.is_none());
    assert_eq!(config.extra.len(), 1);
    assert_eq!(config.extra[0].0, "appearance".to_string());
    assert_eq!(
        config.extra[0].1,
        serde_yaml_ng::Value::String("dark".to_string())
    );
}

#[test]
fn add_group_is_idempotent_by_name() {
    let mut config = empty_config();
    let id1 = config.add_group("Servers");
    assert_eq!(config.groups.as_ref().unwrap().len(), 1);
    let id2 = config.add_group("Servers");
    assert_eq!(id1, id2);
    assert_eq!(config.groups.as_ref().unwrap().len(), 1);
}

#[test]
fn add_group_reuses_an_existing_group() {
    let mut config = empty_config();
    config.groups = Some(vec![Group { id: "g-1".to_string(), name: "Servers".to_string() }]);
    let id = config.add_group("Servers");
    assert_eq!(id, "g-1".to_string());
    assert_eq!(config.groups.as_ref().unwrap().len(), 1);
}

#[test]
fn generated_profile_id_avoids_existing_ones_and_keeps_its_form() {
    let mut config = empty_config();
    config.profiles.push(existing_profile("host1", "ssh:custom:host1:taken"));
    let id = config.generate_profile_uuid("ssh", "custom", "host1");
    assert!(id.starts_with("ssh:custom:host1:"));
    assert_ne!(id, "ssh:custom:host1:taken".to_string());

    let mut p = existing_profile("host2", "x");
    p.id = Some(id.clone());
    config.profiles.push(p);
    let id2 = config.generate_profile_uuid("ssh", "custom", "host1");
    assert_ne!(id2, id);
    assert_ne!(id2, "ssh:custom:host1:taken".to_string());
}

#[test]
fn group_id_generation_has_uuid_length() {
    let id = TabbyConfig::generate_group_id();
    assert_eq!(id.chars().count(), 36);
}

#[test]
fn imported_record_uses_its_own_group_and_port() {
    let mut config = empty_config();
    let mut rec = record("web", Some("192.168.0.2"), Some("2022"));
    rec.group = Some("DMZ".to_string());
    rec.user = Some("deploy".to_string());
    let count = config.import_profiles(vec![rec]);
    assert_eq!(count, 1);
    let p = &config.profiles[0];
    assert_eq!(p.options.port, 2022);
    assert_eq!(p.options.user, Some("deploy".to_string()));
    let groups = config.groups.as_ref().unwrap();
    assert_eq!(groups.len(), 1);
    assert_eq!(groups[0].name, "DMZ".to_string());
    assert_eq!(p.group, Some(groups[0].id.clone()));
}

#[test]
fn imported_records_share_a_group_by_name() {
    let mut config = empty_config();
    let count = config.import_profiles(vec![
        record("a", None, None),
        record("b", None, None),
    ]);
    assert_eq!(count, 2);
    let groups = config.groups.as_ref().unwrap();
    assert_eq!(groups.len(), 1);
    assert_eq!(config.profiles[0].group, config.profiles[1].group);
    let ids: Vec<&Option<String>> =
        config.profiles.iter().map(|p| &p.id).collect();
    assert_ne!(ids[0], ids[1]);
}

#[test]
fn get_profile_is_case_sensitive_and_exact() {
    let mut config = empty_config();
    config.profiles.push(existing_profile("Host1", "id-1"));
    assert!(config.get_profile("Host1").is_some());
    assert!(config.get_profile("host1").is_none());
    assert!(config.get_profile("Host").is_none());
}

#[test]
fn record_without_a_name_imports_under_the_empty_name() {
    let mut config = empty_config();
    let mut r1 = record("x", None, None);
    r1.name = None;
    let mut r2 = record("y", None, None);
    r2.name = None;
    let count = config.import_profiles(vec![r1, r2]);
    assert_eq!(count, 1);
    assert_eq!(config.profiles[0].name, "".to_string());
}

#[test]
fn profile_default_values() {
    let p = Profile::default();
    assert_eq!(p.profile_type, "ssh".to_string());
    assert_eq!(p.icon, "fas fa-terminal".to_string());
    assert_eq!(p.weight, -1);
    assert_eq!(p.color, "#FF9C00".to_string());
    assert_eq!(p.name, "".to_string());
    assert!(p.group.is_none());
    assert!(p.id.is_none());
    assert_eq!(p.options.port, 0);
}
