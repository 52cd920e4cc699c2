use cargo_bom::enumerate::enumerate_dependencies;
use cargo_bom::locate::{join_path, package_license_files};
use cargo_bom::model::{DepEdge, DepKind, PackageInfo, ReportScope};
use cargo_bom::render::{render_bundle, render_table, report_rows};

fn pkg(name: &str, version: &str, license: Option<&str>, deps: Vec<(&str, DepKind)>) -> PackageInfo {
    PackageInfo {
        name: name.to_string(),
        version: version.to_string(),
        manifest_dir: format!("deps/{name}"),
        license: license.map(|s| s.to_string()),
        license_file: None,
        dependencies: deps
            .into_iter()
            .map(|(n, kind)| DepEdge {
                name: n.to_string(),
                kind,
            })
            .collect(),
    }
}

fn strings(v: &[&str]) -> Vec<String> {
    v.iter().map(|s| s.to_string()).collect()
}

#[test]
fn enumerator_excludes_members_in_both_scopes() {
    // `inner` is a workspace member and also a normal dependency of `outer`.
    let pkgs = vec![
        pkg("outer", "1.0.0", None, vec![("inner", DepKind::Normal), ("foo", DepKind::Normal)]),
        pkg("inner", "1.0.0", None, vec![("foo", DepKind::Normal)]),
        pkg("foo", "0.3.0", Some("MIT"), vec![]),
    ];
    let members = strings(&["outer", "inner"]);
    for scope in [ReportScope::TopLevelOnly, ReportScope::AllTransitive] {
        let sel = enumerate_dependencies(&pkgs, &members, scope);
        assert_eq!(sel, vec![2usize]);
    }
}

#[test]
fn enumerator_top_level_skips_build_and_dev_edges() {
    let pkgs = vec![
        pkg(
            "ws",
            "1.0.0",
            None,
            vec![
                ("foo", DepKind::Normal),
                ("bar", DepKind::Build),
                ("baz", DepKind::Development),
            ],
        ),
        pkg("foo", "1.2.0", Some("MIT"), vec![]),
        pkg("bar", "0.1.0", None, vec![]),
        pkg("baz", "0.2.0", None, vec![]),
    ];
    let members = strings(&["ws"]);
    let sel = enumerate_dependencies(&pkgs, &members, ReportScope::TopLevelOnly);
    assert_eq!(sel, vec![1usize]);
}

#[test]
fn enumerator_all_transitive_takes_whole_graph() {
    let pkgs = vec![
        pkg("ws", "1.0.0", None, vec![("foo", DepKind::Normal), ("bar", DepKind::Build)]),
        pkg("foo", "1.2.0", Some("MIT"), vec![("indirect", DepKind::Normal)]),
        pkg("bar", "0.1.0", None, vec![]),
        pkg("indirect", "2.0.0", None, vec![]),
    ];
    let members = strings(&["ws"]);
    let sel = enumerate_dependencies(&pkgs, &members, ReportScope::AllTransitive);
    // Every resolved package but the member, ascending by name.
    assert_eq!(sel, vec![2usize, 1, 3]);
}

#[test]
fn enumerator_orders_by_name_then_version() {
    let pkgs = vec![
        pkg("ws", "1.0.0", None, vec![("zeta", DepKind::Normal), ("alpha", DepKind::Normal)]),
        pkg("zeta", "0.1.0", None, vec![]),
        pkg("alpha", "3.0.0", None, vec![]),
    ];
    let members = strings(&["ws"]);
    let sel = enumerate_dependencies(&pkgs, &members, ReportScope::TopLevelOnly);
    assert_eq!(sel, vec![2usize, 1]);
}

#[test]
fn enumerator_reports_one_package_per_name() {
    // Two resolved versions of `dup`: the dependency lookup by name finds the
    // first, so the report holds it once.
    let pkgs = vec![
        pkg("ws", "1.0.0", None, vec![("dup", DepKind::Normal)]),
        pkg("dup", "1.0.0", None, vec![]),
        pkg("dup", "2.0.0", None, vec![]),
    ];
    let members = strings(&["ws"]);
    let sel = enumerate_dependencies(&pkgs, &members, ReportScope::TopLevelOnly);
    assert_eq!(sel, vec![1usize]);
}

#[test]
fn locator_sorts_and_dedups() {
    // The declared file is also found by the directory scan: one entry.
    let entries = strings(&["LICENSE-MIT", "LICENSE-APACHE", "LICENSE-MIT"]);
    let files = package_license_files(
        "deps/foo",
        &Some("LICENSE-MIT".to_string()),
        true,
        &entries,
    );
    assert_eq!(
        files,
        strings(&["deps/foo/LICENSE-APACHE", "deps/foo/LICENSE-MIT"])
    );
}

#[test]
fn locator_is_stable_under_listing_order() {
    let a = package_license_files("d", &None, false, &strings(&["LICENSE-B", "LICENSE-A"]));
    let b = package_license_files("d", &None, false, &strings(&["LICENSE-A", "LICENSE-B"]));
    assert_eq!(a, b);
    assert_eq!(a, strings(&["d/LICENSE-A", "d/LICENSE-B"]));
}

#[test]
fn locator_drops_missing_declared_file() {
    let entries = strings(&["COPYRIGHT"]);
    let files = package_license_files(
        "deps/foo",
        &Some("LICENSE-GONE".to_string()),
        false,
        &entries,
    );
    assert_eq!(files, strings(&["deps/foo/COPYRIGHT"]));
}

#[test]
fn locator_keeps_declared_file_that_exists() {
    let entries = strings(&["README"]);
    let files = package_license_files(
        "deps/foo",
        &Some("legal/COPYING".to_string()),
        true,
        &entries,
    );
    assert_eq!(files, strings(&["deps/foo/legal/COPYING"]));
}

#[test]
fn locator_matches_prefixes_only() {
    let entries = strings(&[
        "LICENSE-MIT",
        "LICENSE.txt",
        "UNLICENSE",
        "COPYRIGHT-notice",
        "README",
        "license",
        "NOTICE",
    ]);
    let files = package_license_files("d", &None, false, &entries);
    assert_eq!(
        files,
        strings(&[
            "d/COPYRIGHT-notice",
            "d/LICENSE-MIT",
            "d/LICENSE.txt",
            "d/UNLICENSE"
        ])
    );
}

#[test]
fn join_path_uses_slash() {
    assert_eq!(join_path("deps/foo", "LICENSE"), "deps/foo/LICENSE");
}

#[test]
fn bundle_with_two_files_has_one_separator() {
    let bodies = vec![b"AAA".to_vec(), b"BBB".to_vec()];
    let out = render_bundle("foo", "1.2.0", &bodies);
    let text = String::from_utf8(out).unwrap();
    assert_eq!(
        text,
        "\n-----BEGIN foo 1.2.0 LICENSES-----\nAAA\n-----NEXT LICENSE-----\nBBB\n-----END foo 1.2.0 LICENSES-----\n"
    );
    assert_eq!(text.matches("-----NEXT LICENSE-----").count(), 1);
}

#[test]
fn bundle_with_one_file_has_no_separator() {
    let bodies = vec![b"text".to_vec()];
    let out = render_bundle("foo", "1.2.0", &bodies);
    let text = String::from_utf8(out).unwrap();
    assert_eq!(
        text,
        "\n-----BEGIN foo 1.2.0 LICENSES-----\ntext\n-----END foo 1.2.0 LICENSES-----\n"
    );
    assert_eq!(text.matches("-----NEXT LICENSE-----").count(), 0);
}

#[test]
fn bundle_without_files_renders_nothing() {
    let out = render_bundle("foo", "1.2.0", &Vec::new());
    assert!(out.is_empty());
}

#[test]
fn table_holds_header_and_cells() {
    let pkgs = vec![
        pkg("ws", "1.0.0", None, vec![("foo", DepKind::Normal)]),
        pkg("foo", "1.2.0", Some("MIT OR Apache-2.0"), vec![]),
    ];
    let sel = enumerate_dependencies(&pkgs, &strings(&["ws"]), ReportScope::TopLevelOnly);
    let rows = report_rows(&pkgs, &sel);
    let table = render_table(&rows);
    for cell in ["Name", "Version", "Licenses", "foo", "1.2.0", "Apache-2.0, MIT"] {
        assert!(table.contains(cell), "missing {cell:?} in table:\n{table}");
    }
    // The grid really was laid out: the modern style draws box lines.
    assert!(table.contains("│"));
    assert!(table.contains("┌"));
}

#[test]
fn rows_show_missing_and_declared_file() {
    let mut with_file = pkg("withfile", "0.1.0", None, vec![]);
    with_file.license_file = Some("COPYING".to_string());
    let pkgs = vec![
        pkg(
            "ws",
            "1.0.0",
            None,
            vec![("bare", DepKind::Normal), ("withfile", DepKind::Normal)],
        ),
        pkg("bare", "0.2.0", None, vec![]),
        with_file,
    ];
    let sel = enumerate_dependencies(&pkgs, &strings(&["ws"]), ReportScope::TopLevelOnly);
    let rows = report_rows(&pkgs, &sel);
    assert_eq!(rows.len(), 2);
    assert_eq!(rows[0].name, "bare");
    assert_eq!(rows[0].licenses, "Missing");
    assert_eq!(rows[1].name, "withfile");
    assert_eq!(rows[1].licenses, "Specified in license file");
}

#[test]
fn end_to_end_top_level_report() {
    // One workspace member, a normal dependency `foo` and a build dependency
    // `bar`: the report covers `foo` alone.
    let mut foo = pkg("foo", "1.2.0", Some("MIT OR Apache-2.0"), vec![]);
    foo.manifest_dir = "deps/foo".to_string();
    let pkgs = vec![
        pkg(
            "ws",
            "1.0.0",
            None,
            vec![("foo", DepKind::Normal), ("bar", DepKind::Build)],
        ),
        foo,
        pkg("bar", "0.1.0", None, vec![]),
    ];
    let members = strings(&["ws"]);

    let sel = enumerate_dependencies(&pkgs, &members, ReportScope::TopLevelOnly);
    assert_eq!(sel, vec![1usize]);

    let rows = report_rows(&pkgs, &sel);
    assert_eq!(rows.len(), 1);
    assert_eq!(rows[0].name, "foo");
    assert_eq!(rows[0].version, "1.2.0");
    assert_eq!(rows[0].licenses, "Apache-2.0, MIT");

    let table = render_table(&rows);
    assert!(table.contains("foo"));
    assert!(!table.contains("bar"));

    let entries = strings(&["LICENSE-MIT", "LICENSE-APACHE"]);
    let files = package_license_files(&pkgs[sel[0]].manifest_dir, &None, false, &entries);
    assert_eq!(
        files,
        strings(&["deps/foo/LICENSE-APACHE", "deps/foo/LICENSE-MIT"])
    );

    let bodies = vec![b"apache text".to_vec(), b"mit text".to_vec()];
    let dump = String::from_utf8(render_bundle("foo", "1.2.0", &bodies)).unwrap();
    assert_eq!(dump.matches("-----NEXT LICENSE-----").count(), 1);
    assert!(dump.starts_with("\n-----BEGIN foo 1.2.0 LICENSES-----\n"));
    assert!(dump.ends_with("\n-----END foo 1.2.0 LICENSES-----\n"));
    assert!(dump.contains("apache text"));
    assert!(dump.contains("mit text"));
    assert!(!dump.contains("bar"));
}
