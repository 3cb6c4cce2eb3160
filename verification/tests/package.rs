//! Reading `dowel.toml`: the package, its toolchains, its features and its
//! dependencies, and feature resolution.

use dowel::diag::{Diagnostic, Severity};
use dowel::document::{Document, Entry, Table};
use dowel::manifest::{ascii_lower, from_document, read_toolchains};
use dowel::model::{DepKind, PackageId};
use dowel::package::{resolve, resolve_features, is_active, Dependency, Package, ToolchainDecl};
use dowel::strs::{ByName, NameSet};
use dowel::value::{Data, FileId, Origin, Prov, Site, Span, Type, Value};
use dowel::walk::{walk_step, DepAction};

fn at(n: u32) -> Site {
    Site::new(FileId(0), Span::new(n, n + 1))
}

fn string(s: &str) -> Value {
    Value::str(s.to_string(), Prov::at(Origin::Literal, at(0)))
}

fn boolean(b: bool) -> Value {
    Value::new(Type::Bool, Data::Bool(b), Prov::none())
}

fn strings(items: &[&str]) -> Value {
    Value::list(Type::Str, items.iter().map(|s| string(s)).collect(), Prov::none())
}

fn entry(key: &str, value: Value, n: u32) -> Entry {
    Entry {
        key: key.split('.').map(|s| s.to_string()).collect(),
        key_spans: vec![Span::new(n, n + 1)],
        site: at(n),
        value,
    }
}

fn table(path: &[&str], n: u32, entries: Vec<Entry>) -> Table {
    Table {
        path: path.iter().map(|s| s.to_string()).collect(),
        path_spans: path.iter().map(|_| Span::new(n, n + 1)).collect(),
        array: false,
        site: at(n),
        entries,
    }
}

fn doc(tables: Vec<Table>) -> Document {
    Document { file: FileId(0), cfg_refs: Vec::new(), tables }
}

fn read(tables: Vec<Table>) -> (Package, Vec<Diagnostic>) {
    let mut diags: Vec<Diagnostic> = Vec::new();
    let pkg = from_document(PackageId(0), &doc(tables), "/w/zlib".to_string(), FileId(0), &mut diags);
    (pkg, diags)
}

fn codes(diags: &[Diagnostic]) -> Vec<&'static str> {
    diags.iter().map(|d| d.code).collect()
}

fn package_table() -> Table {
    table(&["package"], 1, vec![entry("name", string("zlib"), 2), entry("version", string("1.3.1"), 3)])
}

fn pkg_with(features: &[(&str, &[&str])]) -> Package {
    let mut map: ByName<Vec<String>> = ByName::new();
    for (k, v) in features {
        map.insert(k.to_string(), v.iter().map(|s| s.to_string()).collect());
    }
    Package {
        id: PackageId(0),
        name: "p".into(),
        version: "0".into(),
        description: String::new(),
        root: ".".into(),
        manifest_file: FileId(0),
        build_file: None,
        deps: Vec::new(),
        features: map,
        features_site: None,
        exclusive: Vec::new(),
        targets: Vec::new(),
        targets_site: None,
        toolchain: ToolchainDecl::default(),
        toolchains: ByName::new(),
        toolchains_path: None,
    }
}

fn names(set: &NameSet) -> Vec<String> {
    (0..set.len()).map(|i| set.get(i).clone()).collect()
}

#[test]
fn pulls_in_default_features() {
    let p = pkg_with(&[("default", &["zlib"]), ("zlib", &[])]);
    let f = resolve_features(&p, &[], true);
    assert!(f.contains("zlib"));
    assert!(!f.contains("default"), "`default` itself is not kept as a feature name");
}

#[test]
fn default_features_can_be_disabled() {
    let p = pkg_with(&[("default", &["zlib"]), ("zlib", &[])]);
    assert!(resolve_features(&p, &[], false).is_empty());
}

#[test]
fn closes_over_chained_features() {
    let p = pkg_with(&[("a", &["b"]), ("b", &["c"]), ("c", &[])]);
    let f = resolve_features(&p, &["a".into()], false);
    assert_eq!(names(&f), vec!["a", "b", "c"]);
}

#[test]
fn the_toolchain_is_selected_by_the_target_triple() {
    const HOST: &str = "x86_64-unknown-linux-gnu";
    const CROSS: &str = "riscv64gc-unknown-linux-gnu";
    let site = Site::new(FileId(0), Span::new(0, 0));
    let mut p = pkg_with(&[]);
    p.toolchain.set_tool("c", "cc".into(), site);
    let mut cross = ToolchainDecl::default();
    cross.set_tool("c", "riscv64-gcc".into(), site);
    p.toolchains.insert(CROSS.into(), cross);

    let command = |d: &ToolchainDecl| d.tool("c").map(|t| t.command.clone());
    assert_eq!(command(p.toolchain_for(HOST, true).unwrap()).as_deref(), Some("cc"));
    assert_eq!(command(p.toolchain_for(CROSS, false).unwrap()).as_deref(), Some("riscv64-gcc"));
}

#[test]
fn a_foreign_triple_without_a_declaration_resolves_to_nothing() {
    let site = Site::new(FileId(0), Span::new(0, 0));
    let mut p = pkg_with(&[]);
    p.toolchain.set_tool("c", "cc".into(), site);
    assert!(p.toolchain_for("riscv64gc-unknown-linux-gnu", false).is_none());
}

#[test]
fn terminates_on_cyclic_features() {
    let p = pkg_with(&[("a", &["b"]), ("b", &["a"])]);
    let f = resolve_features(&p, &["a".into()], false);
    assert_eq!(f.len(), 2);
}

#[test]
fn forwarded_features_go_to_their_dependency() {
    let mut p = pkg_with(&[("fast", &["zlib/asm", "simd"]), ("simd", &[])]);
    p.features_site = Some(at(7));
    let f = resolve(&p, &["fast".into()], false);
    assert_eq!(names(&f.own), vec!["fast", "simd"]);
    let zlib = f.forwarded.get("zlib").expect("zlib gets a forwarded feature");
    assert_eq!(zlib.len(), 1);
    assert_eq!(zlib[0].0, "asm");
    assert_eq!(zlib[0].1, at(7));
}

#[test]
fn an_optional_dependency_takes_part_only_with_its_feature() {
    let dep = Dependency {
        name: "zlib".into(),
        kind: DepKind::Path("../zlib".into()),
        optional: true,
        site: at(0),
        source_site: at(0),
    };
    let mut on = NameSet::new();
    assert!(!is_active(&dep, &on));
    on.insert("zlib".into());
    assert!(is_active(&dep, &on));
}

#[test]
fn a_manifest_gives_its_package() {
    let (pkg, diags) = read(vec![
        table(
            &["package"],
            1,
            vec![
                entry("name", string("zlib"), 2),
                entry("version", string("1.3.1"), 3),
                entry("description", string("compression"), 4),
                entry("targets", strings(&["x86_64-unknown-linux-gnu"]), 5),
            ],
        ),
        table(&["toolchain"], 10, vec![entry("c", string("gcc"), 11), entry("style", string("gnu"), 12)]),
        table(&["features"], 20, vec![entry("default", strings(&["asm"]), 21), entry("asm", strings(&[]), 22)]),
        table(&["dependencies"], 30, vec![entry("name", string("png"), 31), entry("path", string("../png"), 32)]),
    ]);
    assert!(diags.is_empty(), "{diags:?}");
    assert_eq!(pkg.name, "zlib");
    assert_eq!(pkg.version, "1.3.1");
    assert_eq!(pkg.description, "compression");
    assert_eq!(pkg.targets, vec!["x86_64-unknown-linux-gnu".to_string()]);
    assert_eq!(pkg.targets_site, Some(at(5)));
    assert_eq!(pkg.toolchain.tool("c").map(|t| t.command.as_str()), Some("gcc"));
    assert_eq!(pkg.features.len(), 2);
    assert_eq!(pkg.features_site, Some(at(20)));
    assert_eq!(pkg.deps.len(), 1);
    assert_eq!(pkg.deps[0].name, "png");
    assert!(matches!(&pkg.deps[0].kind, DepKind::Path(p) if p == "../png"));
    assert_eq!(pkg.deps[0].source_site, at(32));
}

#[test]
fn a_missing_package_table_is_reported_and_the_directory_names_the_package() {
    let (pkg, diags) = read(vec![]);
    assert_eq!(codes(&diags), vec!["missing-table"]);
    assert_eq!(pkg.name, "zlib");
    assert_eq!(pkg.version, "0.0.0");
}

#[test]
fn a_package_without_a_name_and_a_mistyped_version_are_reported() {
    let (pkg, diags) = read(vec![table(&["package"], 1, vec![entry("version", boolean(true), 3)])]);
    assert_eq!(codes(&diags), vec!["missing-field", "type-mismatch"]);
    assert_eq!(diags[1].message, "`package.version` must be a string");
    assert_eq!(pkg.version, "0.0.0");
}

#[test]
fn a_table_dowel_toml_does_not_read_is_reported() {
    let (_, diags) = read(vec![package_table(), table(&["runner", "x"], 5, vec![]), table(&["policy"], 6, vec![])]);
    assert_eq!(codes(&diags), vec!["unknown-table"]);
    assert_eq!(diags[0].message, "`[runner.x]` is not read from `dowel.toml`");
    assert_eq!(diags[0].notes, vec!["`runner` tables are declared in `dowel.build`".to_string()]);
}

#[test]
fn a_target_toolchain_needs_a_c_compiler_and_known_keys() {
    let (pkg, diags) = read(vec![
        package_table(),
        table(&["toolchain", "aarch64-linux-gnu"], 5, vec![entry("cc", string("gcc"), 6)]),
    ]);
    assert_eq!(codes(&diags), vec!["unknown-property", "missing-field"]);
    assert_eq!(diags[0].message, "unknown property `cc`");
    assert!(pkg.toolchains.get("aarch64-linux-gnu").is_some());
}

#[test]
fn a_fetched_toolchain_is_pinned_by_its_digest() {
    let sha = "a".repeat(64);
    let (pkg, diags) = read(vec![
        package_table(),
        table(&["toolchain"], 5, vec![entry("c", string("cc"), 6), entry("url", string("https://x/t.tar"), 7)]),
        table(&["toolchain", "riscv64"], 8, vec![
            entry("c", string("rv-gcc"), 9),
            entry("url", string("https://x/rv.tar"), 10),
            entry("sha256", string(&sha), 11),
        ]),
    ]);
    assert_eq!(codes(&diags), vec!["unpinned-toolchain"]);
    assert!(pkg.toolchain.source.is_none());
    let rv = pkg.toolchains.get("riscv64").unwrap();
    assert_eq!(rv.source.as_ref().map(|s| s.sha256.as_str()), Some(sha.as_str()));
}

#[test]
fn a_style_that_names_no_style_is_reported() {
    let (pkg, diags) = read(vec![package_table(), table(&["toolchain"], 5, vec![entry("style", string("posix"), 6)])]);
    assert_eq!(codes(&diags), vec!["invalid-value"]);
    assert!(pkg.toolchain.style.is_none());
}

#[test]
fn what_is_declared_first_is_not_overwritten() {
    let (pkg, diags) = read(vec![
        package_table(),
        table(&["toolchain"], 5, vec![entry("c", string("first"), 6)]),
        table(&["toolchain"], 7, vec![entry("c", string("second"), 8), entry("ar", string("llvm-ar"), 9)]),
    ]);
    assert!(diags.is_empty(), "{diags:?}");
    assert_eq!(pkg.toolchain.tool("c").map(|t| t.command.as_str()), Some("first"));
    assert_eq!(pkg.toolchain.tool("ar").map(|t| t.command.as_str()), Some("llvm-ar"));
}

#[test]
fn a_shared_toolchain_file_fills_only_what_is_missing() {
    let (mut pkg, _) = read(vec![package_table(), table(&["toolchain", "rv"], 5, vec![entry("c", string("mine"), 6)])]);
    let shared = doc(vec![table(&["toolchain", "rv"], 1, vec![entry("c", string("theirs"), 2), entry("ar", string("rv-ar"), 3)])]);
    let mut diags: Vec<Diagnostic> = Vec::new();
    read_toolchains(&mut pkg, &shared, FileId(1), &mut diags);
    assert!(diags.is_empty());
    let rv = pkg.toolchains.get("rv").unwrap();
    assert_eq!(rv.tool("c").map(|t| t.command.as_str()), Some("mine"));
    assert_eq!(rv.tool("ar").map(|t| t.command.as_str()), Some("rv-ar"));
}

#[test]
fn exclusive_groups_are_read_and_checked() {
    let groups = Value::list(
        Type::Val,
        vec![strings(&["a", "b"]), strings(&["a"]), strings(&["a", "nosuch"])],
        Prov::none(),
    );
    let (pkg, diags) = read(vec![
        package_table(),
        table(&["features"], 5, vec![entry("exclusive", groups, 6), entry("a", strings(&[]), 7), entry("b", strings(&[]), 8)]),
    ]);
    assert_eq!(codes(&diags), vec!["empty-exclusive-group", "unknown-feature"]);
    assert_eq!(diags[0].severity, Severity::Warning);
    assert_eq!(diags[1].notes, vec!["`[features]` declares: a, b".to_string()]);
    assert_eq!(pkg.exclusive.len(), 2);
}

#[test]
fn a_git_dependency_is_pinned_at_a_full_commit() {
    let sha = "ABCDEF0123456789abcdef0123456789abcdef01";
    let (pkg, diags) = read(vec![
        package_table(),
        table(&["dependencies"], 5, vec![entry("name", string("a"), 6), entry("git", string("https://g/a"), 7), entry("rev", string(sha), 8)]),
        table(&["dependencies"], 9, vec![entry("name", string("b"), 10), entry("git", string("https://g/b"), 11), entry("rev", string("main"), 12)]),
    ]);
    assert_eq!(codes(&diags), vec!["unpinned-dependency"]);
    assert_eq!(diags[0].message, "git dependency `b` pins `rev = \"main\"`, which is not a full commit sha");
    assert!(matches!(&pkg.deps[0].kind, DepKind::Git { rev, .. } if rev == &sha.to_ascii_lowercase()));
    assert!(matches!(&pkg.deps[1].kind, DepKind::Unsupported("git")));
}

#[test]
fn a_dependency_with_two_sources_is_refused() {
    let (pkg, diags) = read(vec![
        package_table(),
        table(&["dependencies"], 5, vec![
            entry("name", string("a"), 6),
            entry("path", string("../a"), 7),
            entry("version", string("1.0"), 8),
            entry("optional", boolean(true), 9),
        ]),
    ]);
    assert_eq!(codes(&diags), vec!["conflicting-dependency-source"]);
    assert_eq!(diags[0].labels.len(), 2);
    assert_eq!(diags[0].labels[1].message, "and a system package");
    assert!(matches!(pkg.deps[0].kind, DepKind::Unsupported("conflict")));
    assert!(pkg.deps[0].optional);
}

#[test]
fn a_dependency_without_a_source_or_digest_is_reported() {
    let (pkg, diags) = read(vec![
        package_table(),
        table(&["dependencies"], 5, vec![entry("name", string("a"), 6)]),
        table(&["dependencies"], 7, vec![entry("name", string("b"), 8), entry("url", string("https://x/b.tar"), 9)]),
        table(&["dependencies"], 10, vec![entry("version", string("1"), 11)]),
    ]);
    assert_eq!(codes(&diags), vec!["incomplete-dependency", "unpinned-dependency", "missing-field"]);
    assert_eq!(pkg.deps.len(), 2);
}

#[test]
fn lower_case_touches_only_ascii_letters() {
    assert_eq!(ascii_lower("AbC-Ü9"), "abc-Ü9");
}

fn dep(name: &str, kind: DepKind, optional: bool) -> Dependency {
    let at = Site::new(FileId(0), Span::new(1, 2));
    Dependency { name: name.into(), kind, optional, site: at, source_site: at }
}

#[test]
fn a_walk_step_fetches_once_and_skips_what_is_off() {
    let mut p = pkg_with(&[("default", &["tls"]), ("tls", &[]), ("png", &[])]);
    p.deps = vec![
        dep("util", DepKind::Path("../util".into()), false),
        dep("tls", DepKind::Git { url: "https://example.invalid/tls".into(), rev: "a".repeat(40) }, true),
        dep("png", DepKind::Tarball { url: "https://example.invalid/png.tar.gz".into(), sha256: "b".repeat(64) }, true),
        dep("z", DepKind::PkgConfig { min_version: "1.2".into() }, false),
    ];
    let mut done = NameSet::new();
    let first = walk_step(&p, &[], true, true, &mut done);
    let kinds: Vec<&str> = first
        .actions
        .iter()
        .map(|a| match a {
            DepAction::Visit { .. } => "visit",
            DepAction::Fetch { .. } => "fetch",
            DepAction::Existing { .. } => "existing",
            DepAction::FetchArchive { .. } => "fetch-archive",
            DepAction::ExistingArchive { .. } => "existing-archive",
            DepAction::PkgConfig { .. } => "pkg-config",
        })
        .collect();
    assert_eq!(kinds, vec!["visit", "fetch", "pkg-config"]);
    assert!(first.features.own.contains("tls"));
    let again = walk_step(&p, &[], true, true, &mut done);
    let kinds: Vec<bool> = again.actions.iter().map(|a| matches!(a, DepAction::Existing { .. })).collect();
    assert_eq!(kinds, vec![false, true]);
}
