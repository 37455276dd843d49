use lethe::diff::{build_diff_root, diff_sizes_fit, group_packages, parse_pname_version, ClosurePathRef};
use regex::Regex;

fn pv(p: &str) -> (String, Option<String>) {
    parse_pname_version(p)
}

fn by_regex(path: &str) -> (String, Option<String>) {
    let re = Regex::new(r"^/nix/store/[a-z0-9]+-(.+?)(-([0-9].*?))?(\.drv)?$").unwrap();
    let parts: Vec<&str> = path.split('/').collect();
    let base = if parts.len() >= 4 { parts[..4].join("/") } else { path.to_string() };
    match re.captures(&base) {
        Some(caps) => {
            let pname = caps.get(1).map_or_else(|| base.clone(), |m| m.as_str().to_string());
            let version = caps.get(3).map(|m| m.as_str().to_string());
            (pname, version)
        }
        None => (base, None),
    }
}

#[test]
fn pname_and_version_of_a_package() {
    assert_eq!(
        pv("/nix/store/abc123-hello-2.12.1"),
        ("hello".to_string(), Some("2.12.1".to_string()))
    );
}

#[test]
fn pname_without_version() {
    assert_eq!(pv("/nix/store/abc123-etc"), ("etc".to_string(), None));
}

#[test]
fn pname_of_a_derivation_drops_drv() {
    assert_eq!(
        pv("/nix/store/abc123-bash-5.2.drv"),
        ("bash".to_string(), Some("5.2".to_string()))
    );
    assert_eq!(pv("/nix/store/abc123-foo.drv"), ("foo".to_string(), None));
}

#[test]
fn pname_uses_the_first_dash_digit() {
    assert_eq!(
        pv("/nix/store/abc123-python3-3.11.4-env"),
        ("python3".to_string(), Some("3.11.4-env".to_string()))
    );
    assert_eq!(
        pv("/nix/store/abc123-nixos-system-host-24.05"),
        ("nixos-system-host".to_string(), Some("24.05".to_string()))
    );
}

#[test]
fn pname_of_a_path_inside_a_store_entry() {
    assert_eq!(
        pv("/nix/store/abc123-coreutils-9.4/bin/ls"),
        ("coreutils".to_string(), Some("9.4".to_string()))
    );
}

#[test]
fn paths_outside_the_store_are_their_own_name() {
    assert_eq!(pv("/etc/passwd"), ("/etc/passwd".to_string(), None));
    assert_eq!(pv("/run/current-system/sw/bin"), ("/run/current-system/sw".to_string(), None));
    assert_eq!(pv(""), ("".to_string(), None));
    assert_eq!(pv("/nix/store/ABC-foo"), ("/nix/store/ABC-foo".to_string(), None));
    assert_eq!(pv("/nix/store/abc-"), ("/nix/store/abc-".to_string(), None));
    assert_eq!(pv("/nix/store/-foo"), ("/nix/store/-foo".to_string(), None));
    assert_eq!(pv("/nix/store/abc-fo\no"), ("/nix/store/abc-fo\no".to_string(), None));
}

#[test]
fn pname_version_agrees_with_the_store_path_pattern() {
    let samples = [
        "/nix/store/abc123-hello-2.12.1",
        "/nix/store/abc123-hello",
        "/nix/store/abc123-hello-",
        "/nix/store/abc123-hello-x",
        "/nix/store/abc123-hello-1",
        "/nix/store/abc123-hello-1.drv",
        "/nix/store/abc123-hello-1.2.drv",
        "/nix/store/abc123-.drv",
        "/nix/store/abc123-a.drv",
        "/nix/store/abc123--1",
        "/nix/store/abc123--1.drv",
        "/nix/store/abc123-a-1-2-3",
        "/nix/store/abc123-a-b-1",
        "/nix/store/abc123-a-b-c",
        "/nix/store/abc123-a.drv.drv",
        "/nix/store/abc123-a-1.drv.drv",
        "/nix/store/abc123-x-1drv",
        "/nix/store/abc123-x-1.dr",
        "/nix/store/abc-def-ghi-1.0",
        "/nix/store/abc-def/ghi-1.0",
        "/nix/store/aBc-def",
        "/nix/store/abc_def",
        "/nix/store/abc",
        "/nix/store/",
        "/nix/store",
        "/nix/stor/abc-def",
        "//nix/store/abc-def",
        "/nix/store/abc-déjà-1.0",
        "/nix/store/abc-ü-ñ",
        "/nix/store/abc-a\n-1",
        "/nix/store/abc-a-1\n",
        "/nix/store/abc-a-\n1",
        "/nix/store/0123-4-5",
        "/nix/store/abc-linux-6.6.30-modules-shrunk",
        "/nix/store/abc-source",
        "/nix/store/abc-1.0",
        "/nix/store/abc-a--1",
        "/nix/store/abc-a-1-",
        "/nix/store/abc-a--",
        "relative-1.0",
        "/nix/store/abc-unit-dbus.service",
    ];
    for s in samples {
        assert_eq!(parse_pname_version(s), by_regex(s), "path {:?}", s);
    }
}

fn refs<'a>(v: &'a [(&'a str, i64)]) -> Vec<ClosurePathRef<'a>> {
    v.iter().map(|(p, n)| ClosurePathRef { path: p, nar_size: *n }).collect()
}

#[test]
fn groups_sum_sizes_and_sort_versions() {
    let paths = [
        ("/nix/store/a1-foo-2.0", 10),
        ("/nix/store/a2-bar-1.0", 5),
        ("/nix/store/a3-foo-1.0", 7),
        ("/nix/store/a4-etc", 3),
    ];
    let g = group_packages(&refs(&paths));
    let names: Vec<&str> = g.iter().map(|x| x.name.as_str()).collect();
    assert_eq!(names, vec!["bar", "etc", "foo"]);
    assert_eq!(g[0].versions, vec!["1.0".to_string()]);
    assert_eq!(g[0].nar_size, 5);
    assert_eq!(g[1].versions, vec!["<none>".to_string()]);
    assert_eq!(g[1].nar_size, 3);
    assert_eq!(g[2].versions, vec!["1.0".to_string(), "2.0".to_string()]);
    assert_eq!(g[2].nar_size, 17);
}

#[test]
fn empty_closure_has_no_groups() {
    assert!(group_packages(&[]).is_empty());
}

#[test]
fn diff_lists_added_removed_and_changed_packages() {
    let new = [
        ("/nix/store/a1-foo-2.0", 10),
        ("/nix/store/a2-bar-1.0", 5),
        ("/nix/store/a3-same-1.0", 4),
        ("/nix/store/a4-grow-1.0", 9),
    ];
    let old = [
        ("/nix/store/b1-foo-1.0", 8),
        ("/nix/store/b2-gone-3", 6),
        ("/nix/store/b3-same-1.0", 4),
        ("/nix/store/b4-grow-1.0", 2),
    ];
    let d = build_diff_root(&refs(&new), &refs(&old));
    assert_eq!(d.schema, "");
    let names: Vec<&str> = d.packages.iter().map(|(n, _)| n.as_str()).collect();
    assert_eq!(names, vec!["bar", "foo", "gone", "grow"]);
    let bar = &d.packages[0].1;
    assert_eq!(bar.size_delta, 5);
    assert!(bar.versions_before.is_empty());
    assert_eq!(bar.versions_after, vec!["1.0".to_string()]);
    let foo = &d.packages[1].1;
    assert_eq!(foo.size_delta, 2);
    assert_eq!(foo.versions_before, vec!["1.0".to_string()]);
    assert_eq!(foo.versions_after, vec!["2.0".to_string()]);
    let gone = &d.packages[2].1;
    assert_eq!(gone.size_delta, -6);
    assert_eq!(gone.versions_before, vec!["3".to_string()]);
    assert!(gone.versions_after.is_empty());
    let grow = &d.packages[3].1;
    assert_eq!(grow.size_delta, 7);
    assert_eq!(grow.versions_before, grow.versions_after);
}

#[test]
fn diff_of_a_closure_with_itself_is_empty() {
    let c = [("/nix/store/a1-foo-2.0", 10), ("/nix/store/a2-bar", 5)];
    assert!(build_diff_root(&refs(&c), &refs(&c)).packages.is_empty());
}

#[test]
fn reversed_diff_negates_and_swaps() {
    let a = [("/nix/store/a1-foo-2.0", 10), ("/nix/store/a2-bar", 5)];
    let b = [("/nix/store/b1-foo-1.0", 4), ("/nix/store/b2-baz-1", 1)];
    let d1 = build_diff_root(&refs(&a), &refs(&b));
    let d2 = build_diff_root(&refs(&b), &refs(&a));
    assert_eq!(d1.packages.len(), d2.packages.len());
    for ((n1, p1), (n2, p2)) in d1.packages.iter().zip(d2.packages.iter()) {
        assert_eq!(n1, n2);
        assert_eq!(p1.size_delta, -p2.size_delta);
        assert_eq!(p1.versions_before, p2.versions_after);
        assert_eq!(p1.versions_after, p2.versions_before);
    }
}

#[test]
fn diff_orders_names_bytewise() {
    let new = [("/nix/store/a1-Zeta-1", 1), ("/nix/store/a2-alpha-1", 1), ("/nix/store/a3-ä-1", 1)];
    let d = build_diff_root(&refs(&new), &[]);
    let names: Vec<&str> = d.packages.iter().map(|(n, _)| n.as_str()).collect();
    assert_eq!(names, vec!["Zeta", "alpha", "ä"]);
}

#[test]
fn deltas_add_up_to_the_total_change() {
    let new = [("/nix/store/a1-foo-2.0", 10), ("/nix/store/a2-bar-1.0", 5), ("/nix/store/a3-foo-lib-2.0", 1)];
    let old = [("/nix/store/b1-foo-1.0", 8), ("/nix/store/b2-gone-3", 6), ("/nix/store/b3-same", 4), ("/nix/store/a3-same", 4)];
    let d = build_diff_root(&refs(&new), &refs(&old));
    let sum: i64 = d.packages.iter().map(|(_, p)| p.size_delta).sum();
    let total_new: i64 = new.iter().map(|(_, n)| n).sum();
    let total_old: i64 = old.iter().map(|(_, n)| n).sum();
    assert_eq!(sum, total_new - total_old);
}

#[test]
fn group_sizes_add_up_to_the_total() {
    let c = [("/nix/store/a1-foo-2.0", 10), ("/nix/store/a2-foo-1.0", 5), ("/nix/store/a3-bar", 1), ("/nix/store/a4-foo-2.0/bin/x", 2)];
    let g = group_packages(&refs(&c));
    let sum: i64 = g.iter().map(|x| x.nar_size).sum();
    assert_eq!(sum, 18);
    assert_eq!(g.len(), 2);
    assert_eq!(g[1].versions, vec!["1.0".to_string(), "2.0".to_string(), "2.0".to_string()]);
}

#[test]
fn size_guard_is_exact() {
    let small = [("/nix/store/a1-foo", -3)];
    assert!(diff_sizes_fit(&refs(&small), &refs(&small)));
    // Each package fits although the sum of all sizes does not.
    let wide = [("/nix/store/a1-foo", i64::MAX), ("/nix/store/a2-bar", i64::MAX)];
    assert!(diff_sizes_fit(&refs(&wide), &[]));
    // A running package total overflows.
    let over = [("/nix/store/a1-foo", i64::MAX), ("/nix/store/a2-foo", 1)];
    assert!(!diff_sizes_fit(&refs(&over), &[]));
    // It comes back into range, but a running total left it on the way.
    let back = [("/nix/store/a1-foo", i64::MAX), ("/nix/store/a2-foo", 1), ("/nix/store/a3-foo", -2)];
    assert!(!diff_sizes_fit(&refs(&back), &[]));
    // A size difference overflows.
    let neg = [("/nix/store/b1-foo", -1)];
    let max = [("/nix/store/a1-foo", i64::MAX)];
    assert!(!diff_sizes_fit(&refs(&max), &refs(&neg)));
    assert!(diff_sizes_fit(&refs(&max), &[]));
    // A package only in the old closure, of size i64::MIN, cannot be negated.
    let min = [("/nix/store/b1-foo", i64::MIN)];
    assert!(!diff_sizes_fit(&[], &refs(&min)));
    assert!(diff_sizes_fit(&refs(&[("/nix/store/a1-foo", -1)]), &refs(&min)));
    let d = build_diff_root(&refs(&small), &[]);
    assert_eq!(d.packages[0].1.size_delta, -3);
}

#[test]
fn grouping_ignores_path_order() {
    let a = [("/nix/store/a1-foo-2.0", 10), ("/nix/store/a2-bar-1.0", 5), ("/nix/store/a3-foo-1.0", 7)];
    let b = [("/nix/store/a3-foo-1.0", 7), ("/nix/store/a1-foo-2.0", 10), ("/nix/store/a2-bar-1.0", 5)];
    let ga = group_packages(&refs(&a));
    let gb = group_packages(&refs(&b));
    assert_eq!(ga.len(), gb.len());
    for (x, y) in ga.iter().zip(gb.iter()) {
        assert_eq!(x.name, y.name);
        assert_eq!(x.versions, y.versions);
        assert_eq!(x.nar_size, y.nar_size);
    }
    assert!(build_diff_root(&refs(&a), &refs(&b)).packages.is_empty());
}
