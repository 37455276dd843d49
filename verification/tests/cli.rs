use lethe::cli::{
    check_not_repeated, format_size, reference_pairs, signed_size_text, target_label,
    toplevel_size, RecordError,
};
use lethe::nix::{parse_ssh_target, SshTarget, StorePathInfo, Target};

fn sp(path: &str, closure_size: i64, references: &[&str]) -> StorePathInfo {
    StorePathInfo {
        path: path.to_string(),
        closure_size,
        nar_size: 1,
        nar_hash: "sha256:x".to_string(),
        valid: true,
        deriver: None,
        references: references.iter().map(|r| r.to_string()).collect(),
    }
}

#[test]
fn labels_of_targets() {
    assert_eq!(target_label(&Target::Local), "local system");
    let t = Target::Ssh(SshTarget { host: "h".to_string(), port: Some(22) });
    assert_eq!(target_label(&t), "ssh://h:22");
    let t = Target::Ssh(SshTarget { host: "root@h".to_string(), port: None });
    assert_eq!(target_label(&t), "ssh://root@h");
}

#[test]
fn ssh_labels_parse_back() {
    for (host, port) in [("h", Some(22u16)), ("root@h", None), ("a:b", Some(1)), ("x", Some(65535)), ("", Some(0))] {
        let label = target_label(&Target::Ssh(SshTarget { host: host.to_string(), port }));
        let back = parse_ssh_target(&label);
        assert_eq!(back.host, host);
        assert_eq!(back.port, port);
    }
}

#[test]
fn sizes_in_binary_units() {
    assert_eq!(format_size(0), "0 B");
    assert_eq!(format_size(1023), "1023 B");
    assert_eq!(format_size(-512), "-512 B");
    assert_eq!(format_size(1024), "1 KiB");
    assert_eq!(format_size(1536), "1.50 KiB");
    assert_eq!(format_size(-1536), "-1.50 KiB");
    assert_eq!(format_size(i64::MIN), "-8 EiB");
}

#[test]
fn sign_goes_before_the_magnitude() {
    assert_eq!(signed_size_text(-1, "1 B".to_string()), "-1 B");
    assert_eq!(signed_size_text(0, "0 B".to_string()), "0 B");
}

#[test]
fn toplevel_size_is_that_of_the_first_match() {
    let c = vec![sp("/nix/store/a", 1, &[]), sp("/nix/store/top", 42, &[]), sp("/nix/store/top", 7, &[])];
    assert!(matches!(toplevel_size(&c, "/nix/store/top"), Ok(42)));
    match toplevel_size(&c, "/nix/store/none") {
        Err(RecordError::ToplevelNotInClosure { toplevel }) => assert_eq!(toplevel, "/nix/store/none"),
        _ => panic!("expected an error"),
    }
}

#[test]
fn repeated_deployment_is_refused() {
    match check_not_repeated("m", "/nix/store/t", Some("/nix/store/t")) {
        Err(RecordError::AlreadyRecorded { machine }) => assert_eq!(machine, "m"),
        _ => panic!("expected an error"),
    }
    assert!(check_not_repeated("m", "/nix/store/t", Some("/nix/store/u")).is_ok());
    assert!(check_not_repeated("m", "/nix/store/t", None).is_ok());
}

#[test]
fn references_become_id_pairs() {
    let c = vec![
        sp("/nix/store/a", 1, &["/nix/store/b", "/nix/store/outside", "/nix/store/a"]),
        sp("/nix/store/b", 1, &[]),
        sp("/nix/store/c", 1, &["/nix/store/b"]),
    ];
    let ids = [10, 20, 30];
    assert_eq!(reference_pairs(&c, &ids), vec![(10, 20), (10, 10), (30, 20)]);
}

#[test]
fn repeated_paths_take_the_last_id() {
    let c = vec![sp("/nix/store/a", 1, &["/nix/store/a"]), sp("/nix/store/a", 1, &[])];
    assert_eq!(reference_pairs(&c, &[1, 2]), vec![(2, 2)]);
}
