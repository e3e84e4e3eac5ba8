use remmina2tabby::protocols::{get_default_port_for_protocol, ConnectionProtocols};
use remmina2tabby::remmina::{
    get_auth_method_as_int, get_auth_method_from_int, parse_source_file, ProtocolStatus,
    RemminaFiles, SourceFile, SshAuthMethod,
};
use remmina2tabby::text::{parse_u16_str, parse_u8_str, trim_str};

fn file(path: &str, lines: &[&str]) -> SourceFile {
    SourceFile {
        path: path.to_string(),
        lines: lines.iter().map(|l| l.to_string()).collect(),
    }
}

#[test]
fn parses_basic_ssh_record() {
    let f = file(
        "h1.remmina",
        &["protocol=SSH", "name=host1", "server=10.0.0.1", "user=alice", "group=Servers"],
    );
    let r = parse_source_file(&f);
    assert_eq!(r.protocol, Some("SSH".to_string()));
    assert_eq!(r.name, Some("host1".to_string()));
    assert_eq!(r.server, Some("10.0.0.1".to_string()));
    assert_eq!(r.user, Some("alice".to_string()));
    assert_eq!(r.group, Some("Servers".to_string()));
    assert_eq!(r.port, None);
    assert_eq!(r.auth_method, None);
    assert_eq!(r.path, "h1.remmina".to_string());
}

#[test]
fn first_occurrence_of_a_key_wins() {
    let f = file("h.remmina", &["name=first", "name=second", "protocol=SSH"]);
    let r = parse_source_file(&f);
    assert_eq!(r.name, Some("first".to_string()));
}

#[test]
fn lines_are_trimmed_before_matching() {
    let f = file("h.remmina", &["  name=web  ", "\tprotocol=ssh"]);
    let r = parse_source_file(&f);
    assert_eq!(r.name, Some("web".to_string()));
    assert_eq!(r.protocol, Some("SSH".to_string()));
}

#[test]
fn protocol_is_case_normalized_and_allow_listed() {
    let ssh = parse_source_file(&file("a", &["protocol=ssh"]));
    assert_eq!(ssh.protocol, Some("SSH".to_string()));
    let rdp = parse_source_file(&file("b", &["protocol=RDP"]));
    assert_eq!(rdp.protocol, None);
    let vnc = parse_source_file(&file("c", &["protocol=vnc"]));
    assert_eq!(vnc.protocol, None);
}

#[test]
fn empty_user_value_does_not_set_the_field() {
    let f = file("h.remmina", &["user=", "user=bob", "protocol=SSH"]);
    let r = parse_source_file(&f);
    assert_eq!(r.user, Some("bob".to_string()));
}

#[test]
fn ssh_auth_decodes_from_integer_code() {
    let f = file("h.remmina", &["protocol=SSH", "ssh_auth=3"]);
    let r = parse_source_file(&f);
    assert_eq!(r.auth_method, Some(SshAuthMethod::PublicKey));
}

#[test]
fn ssh_auth_decodes_by_name_case_insensitively() {
    let f = file("h.remmina", &["protocol=SSH", "ssh_auth=PassWord"]);
    let r = parse_source_file(&f);
    assert_eq!(r.auth_method, Some(SshAuthMethod::Password));
}

#[test]
fn ssh_auth_out_of_range_code_is_unknown() {
    let f = file("h.remmina", &["protocol=SSH", "ssh_auth=7"]);
    let r = parse_source_file(&f);
    assert_eq!(r.auth_method, Some(SshAuthMethod::Unknown("unknown".to_string())));
}

#[test]
fn ssh_auth_unrecognized_name_is_unknown() {
    let f = file("h.remmina", &["protocol=SSH", "ssh_auth=Telepathy"]);
    let r = parse_source_file(&f);
    assert_eq!(r.auth_method, Some(SshAuthMethod::Unknown("telepathy".to_string())));
}

#[test]
fn ssh_auth_without_allowed_protocol_is_not_attached() {
    let f = file("h.remmina", &["protocol=RDP", "ssh_auth=0"]);
    let r = parse_source_file(&f);
    assert_eq!(r.auth_method, None);
}

#[test]
fn auth_method_int_conversions_round_trip() {
    let methods = [
        (SshAuthMethod::Password, 0u8),
        (SshAuthMethod::SSHIdentityFile, 1),
        (SshAuthMethod::SSHAgent, 2),
        (SshAuthMethod::PublicKey, 3),
        (SshAuthMethod::KerberosGSSAPI, 4),
        (SshAuthMethod::KerberosInteractive, 5),
    ];
    for (m, code) in methods {
        assert_eq!(get_auth_method_as_int(&m), code);
        assert_eq!(get_auth_method_from_int(code), m);
    }
    assert_eq!(get_auth_method_as_int(&SshAuthMethod::Unknown("x".to_string())), 255);
    assert_eq!(
        get_auth_method_from_int(99),
        SshAuthMethod::Unknown("unknown".to_string())
    );
}

#[test]
fn auth_method_from_str_and_as_str() {
    assert_eq!(SshAuthMethod::from_str("SSHAgent"), SshAuthMethod::SSHAgent);
    assert_eq!(SshAuthMethod::PublicKey.as_str(), "publickey");
    assert_eq!(SshAuthMethod::Unknown("odd".to_string()).as_str(), "odd");
}

#[test]
fn connection_protocols_from_str_and_as_str() {
    assert_eq!(ConnectionProtocols::from_str("SSH"), ConnectionProtocols::Ssh);
    assert_eq!(ConnectionProtocols::from_str("rdp"), ConnectionProtocols::Rdp);
    assert_eq!(ConnectionProtocols::from_str("Vnc"), ConnectionProtocols::Vnc);
    assert_eq!(
        ConnectionProtocols::from_str("Telnet"),
        ConnectionProtocols::Unknown("telnet".to_string())
    );
    assert_eq!(ConnectionProtocols::Ssh.as_str(), "ssh");
    assert_eq!(ConnectionProtocols::Unknown("telnet".to_string()).as_str(), "telnet");
}

#[test]
fn default_ports_per_protocol() {
    assert_eq!(get_default_port_for_protocol(&ConnectionProtocols::Ssh), 22);
    assert_eq!(get_default_port_for_protocol(&ConnectionProtocols::Rdp), 3389);
    assert_eq!(get_default_port_for_protocol(&ConnectionProtocols::Vnc), 5900);
    assert_eq!(
        get_default_port_for_protocol(&ConnectionProtocols::Unknown("x".to_string())),
        0
    );
}

#[test]
fn export_excludes_records_with_disallowed_protocol() {
    let files = RemminaFiles {
        files: vec![
            file("ssh.remmina", &["protocol=SSH", "name=a"]),
            file("rdp.remmina", &["protocol=RDP", "name=b"]),
            file("none.remmina", &["name=c"]),
        ],
    };
    let records = files.export_profiles();
    assert_eq!(records.len(), 1);
    assert_eq!(records[0].name, Some("a".to_string()));
    assert_eq!(records[0].protocol, Some("SSH".to_string()));
}

#[test]
fn filter_by_protocols_keeps_exact_upper_case_matches() {
    let files = RemminaFiles {
        files: vec![
            file("a.remmina", &["protocol=ssh"]),
            file("b.remmina", &["protocol=RDP"]),
            file("c.remmina", &["name=only"]),
        ],
    };
    let ssh_only = files.filter_by_protocols(&["SSH".to_string()]);
    assert_eq!(ssh_only.files.len(), 1);
    assert_eq!(ssh_only.files[0].path, "a.remmina".to_string());

    // the supplied strings are matched exactly against the upper-cased value
    let lower = files.filter_by_protocols(&["ssh".to_string()]);
    assert_eq!(lower.files.len(), 0);

    let both = files.filter_by_protocols(&["SSH".to_string(), "RDP".to_string()]);
    assert_eq!(both.files.len(), 2);
}

#[test]
fn check_protocols_classifies_each_file() {
    let files = RemminaFiles {
        files: vec![
            file("a", &["protocol=ssh"]),
            file("b", &["protocol=rdp"]),
            file("c", &["protocol=gopher"]),
            file("d", &["name=nothing"]),
            file("e", &["protocol=VNC"]),
        ],
    };
    let statuses = files.check_protocols();
    assert_eq!(
        statuses,
        vec![
            ProtocolStatus::Available,
            ProtocolStatus::NotImplemented,
            ProtocolStatus::NotRecognized,
            ProtocolStatus::NotFound,
            ProtocolStatus::NotImplemented,
        ]
    );
}

#[test]
fn export_candidates_report_path_and_protocol() {
    let files = RemminaFiles {
        files: vec![
            file("a.remmina", &["protocol= ssh "]),
            file("b.remmina", &["protocol=RDP"]),
        ],
    };
    let candidates = files.export_profiles_base();
    assert_eq!(candidates.len(), 1);
    assert_eq!(candidates[0].0, "a.remmina".to_string());
    assert_eq!(candidates[0].1, "SSH".to_string());
}

#[test]
fn only_the_first_protocol_line_is_read_by_the_scans() {
    let files = RemminaFiles {
        files: vec![file("a", &["protocol=RDP", "protocol=SSH"])],
    };
    assert_eq!(files.check_protocols(), vec![ProtocolStatus::NotImplemented]);
    assert_eq!(files.filter_by_protocols(&["SSH".to_string()]).files.len(), 0);
}

#[test]
fn empty_collection_exports_nothing() {
    let files = RemminaFiles { files: Vec::new() };
    assert!(files.export_profiles().is_empty());
    assert!(files.check_protocols().is_empty());
    assert!(files.filter_by_protocols(&["SSH".to_string()]).files.is_empty());
}

#[test]
fn file_with_no_lines_yields_an_empty_record() {
    let f = SourceFile { path: "empty.remmina".to_string(), lines: Vec::new() };
    let r = parse_source_file(&f);
    assert_eq!(r.name, None);
    assert_eq!(r.protocol, None);
    assert_eq!(r.auth_method, None);
}

#[test]
fn text_helpers_parse_and_fold_case() {
    assert_eq!(parse_u16_str("2022"), Some(2022));
    assert_eq!(parse_u16_str("+22"), Some(22));
    assert_eq!(parse_u16_str("65535"), Some(65535));
    assert_eq!(parse_u16_str("65536"), None);
    assert_eq!(parse_u16_str(""), None);
    assert_eq!(parse_u16_str("2a"), None);
    assert_eq!(parse_u8_str("5"), Some(5));
    assert_eq!(parse_u8_str("256"), None);
    assert_eq!(trim_str("  a b \t"), "a b");
    assert_eq!(trim_str("   "), "");
    assert_eq!(trim_str("\u{00a0}x\u{2003}"), "x");
}

#[test]
fn case_folding_is_full_unicode() {
    // the long s upper-cases to an ASCII S, so this protocol is allowed
    let f = file("h.remmina", &["protocol=\u{017f}\u{017f}h", "name=host9"]);
    let r = parse_source_file(&f);
    assert_eq!(r.protocol, Some("SSH".to_string()));

    assert_eq!(
        ConnectionProtocols::from_str("TELNET\u{00c4}"),
        ConnectionProtocols::Unknown("telnet\u{00e4}".to_string())
    );
    assert_eq!(
        SshAuthMethod::from_str("P\u{00c4}SS"),
        SshAuthMethod::Unknown("p\u{00e4}ss".to_string())
    );
}

#[test]
fn unicode_whitespace_is_trimmed_from_lines() {
    let f = file("h.remmina", &["\u{00a0}name=web\u{2003}", "protocol=\u{00a0}SSH\u{00a0}"]);
    let r = parse_source_file(&f);
    assert_eq!(r.name, Some("web".to_string()));
    // the protocol value itself is not line-trimmed away: the line is
    // trimmed first, then the value starts after the key
    assert_eq!(r.protocol, None);
}
