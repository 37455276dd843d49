use lethe::nix::{
    command_argv, default_true, fetch_closure, fetch_hostname, parse_ssh_target,
    resolve_toplevel, NixError, PathInfoJson, SshTarget, StorePathInfo, Target,
};

fn info(path: &str, closure_size: i64, nar_size: i64, valid: bool, deriver: Option<&str>) -> StorePathInfo {
    StorePathInfo {
        path: path.to_string(),
        closure_size,
        nar_size,
        nar_hash: "sha256:abc".to_string(),
        valid,
        deriver: deriver.map(|d| d.to_string()),
        references: vec!["/nix/store/bbb-bar".to_string()],
    }
}

#[test]
fn parses_legacy_array_schema() {
    // [{"path": "/nix/store/aaa-foo", "closureSize": 200, "narSize": 100,
    //   "narHash": "sha256:abc", "valid": true, "references": ["/nix/store/bbb-bar"]}]
    let parsed = PathInfoJson::Legacy(vec![info("/nix/store/aaa-foo", 200, 100, true, None)]);
    let v = fetch_closure(parsed);
    assert_eq!(v.len(), 1);
    assert_eq!(v[0].path, "/nix/store/aaa-foo");
    assert_eq!(v[0].closure_size, 200);
    assert_eq!(v[0].references, vec!["/nix/store/bbb-bar"]);
}

#[test]
fn parses_modern_object_schema() {
    // {"/nix/store/aaa-foo": {"closureSize": 200, "deriver": "/nix/store/ddd-foo.drv",
    //   "narHash": "sha256:abc", "narSize": 100, "references": ["/nix/store/bbb-bar"], ...},
    //  "/nix/store/zzz-invalid": null}
    // The object schema carries no `path` (it defaults to empty) and no `valid`.
    let parsed = PathInfoJson::Modern(vec![
        (
            "/nix/store/aaa-foo".to_string(),
            Some(info("", 200, 100, default_true(), Some("/nix/store/ddd-foo.drv"))),
        ),
        ("/nix/store/zzz-invalid".to_string(), None),
    ]);
    let v = fetch_closure(parsed);
    assert_eq!(v.len(), 1);
    assert_eq!(v[0].path, "/nix/store/aaa-foo");
    assert_eq!(v[0].closure_size, 200);
    assert!(v[0].valid);
    assert_eq!(v[0].references, vec!["/nix/store/bbb-bar"]);
}

#[test]
fn modern_schema_keeps_entry_order() {
    let parsed = PathInfoJson::Modern(vec![
        ("/nix/store/b".to_string(), Some(info("", 2, 1, true, None))),
        ("/nix/store/x".to_string(), None),
        ("/nix/store/a".to_string(), Some(info("", 3, 1, true, None))),
    ]);
    let v = fetch_closure(parsed);
    let paths: Vec<&str> = v.iter().map(|i| i.path.as_str()).collect();
    assert_eq!(paths, vec!["/nix/store/b", "/nix/store/a"]);
}

#[test]
fn default_true_is_true() {
    assert!(default_true());
}

fn target(raw: &str) -> (String, Option<u16>) {
    let t = parse_ssh_target(raw);
    (t.host, t.port)
}

#[test]
fn plain_hosts_are_taken_whole() {
    assert_eq!(target("my-server"), ("my-server".to_string(), None));
    assert_eq!(target("root@my-server"), ("root@my-server".to_string(), None));
    assert_eq!(target("host:22"), ("host:22".to_string(), None));
    assert_eq!(target(""), ("".to_string(), None));
}

#[test]
fn ssh_urls_give_host_and_port() {
    assert_eq!(target("ssh://my-server:2222"), ("my-server".to_string(), Some(2222)));
    assert_eq!(target("ssh://root@my-server"), ("root@my-server".to_string(), None));
    assert_eq!(target("ssh://root@my-server:22/path/x"), ("root@my-server".to_string(), Some(22)));
    assert_eq!(target("ssh://host/a:1"), ("host".to_string(), None));
    assert_eq!(target("ssh://[::1]:22"), ("[::1]".to_string(), Some(22)));
    assert_eq!(target("ssh://"), ("".to_string(), None));
}

#[test]
fn invalid_ports_stay_in_the_host() {
    assert_eq!(target("ssh://host:65536"), ("host:65536".to_string(), None));
    assert_eq!(target("ssh://host:"), ("host:".to_string(), None));
    assert_eq!(target("ssh://host:ab"), ("host:ab".to_string(), None));
    assert_eq!(target("ssh://host:-1"), ("host:-1".to_string(), None));
    assert_eq!(target("ssh://host:+22"), ("host".to_string(), Some(22)));
    assert_eq!(target("ssh://host:0065535"), ("host".to_string(), Some(65535)));
}

#[test]
fn local_commands_run_as_given() {
    let w = command_argv(&Target::Local, &["nix", "path-info", "/run/current-system"]);
    assert_eq!(w, vec!["nix", "path-info", "/run/current-system"]);
}

#[test]
fn remote_commands_go_through_ssh() {
    let t = Target::Ssh(SshTarget { host: "root@h".to_string(), port: Some(2222) });
    assert_eq!(command_argv(&t, &["hostname", "-s"]), vec!["ssh", "-p", "2222", "root@h", "hostname", "-s"]);
    let t = Target::Ssh(SshTarget { host: "h".to_string(), port: None });
    assert_eq!(command_argv(&t, &["hostname", "-s"]), vec!["ssh", "h", "hostname", "-s"]);
}

#[test]
fn toplevel_is_the_trimmed_output() {
    match resolve_toplevel("/run/current-system", "  /nix/store/abc-nixos-system\n") {
        Ok(p) => assert_eq!(p, "/nix/store/abc-nixos-system"),
        Err(_) => panic!("expected a path"),
    }
}

#[test]
fn empty_toplevel_output_is_an_error() {
    match resolve_toplevel("/run/current-system", " \n\t") {
        Err(NixError::EmptyToplevel { link }) => assert_eq!(link, "/run/current-system"),
        _ => panic!("expected an error"),
    }
}

#[test]
fn hostname_is_the_trimmed_output() {
    match fetch_hostname("myhost\n") {
        Ok(h) => assert_eq!(h, "myhost"),
        Err(_) => panic!("expected a host name"),
    }
    assert!(matches!(fetch_hostname("\u{3000}\r\n"), Err(NixError::EmptyHostname)));
}
