//! Resolving `deps`: targets of the same package, declared dependencies,
//! optional ones whose feature is off, and what is no reference at all.

use dowel::config::{Config, Host};
use dowel::deps::{deps, package_of, unknown_target};
use dowel::model::{DepResolution, NameTable};
use dowel::schema::{Block, TableKind};
use dowel::target::TargetDecl;
use dowel::value::{CfgKey, Data, FileId, Ns, Origin, Pred, Prov, Site, Span, Type, Value};

fn site(n: u32) -> Site {
    Site::new(FileId(1), Span::new(n, n + 1))
}

fn reference(data: Data, n: u32) -> Value {
    Value::new(Type::DepRef, data, Prov::at(Origin::Literal, site(n)))
}

fn names() -> NameTable {
    let mut t = NameTable::new();
    t.targets.insert(
        "app".to_string(),
        vec![("core".to_string(), TableKind::Lib), ("cli".to_string(), TableKind::Bin)],
    );
    t.targets.insert(
        "zlib".to_string(),
        vec![("z".to_string(), TableKind::Lib), ("minigzip".to_string(), TableKind::Bin)],
    );
    t.targets.insert("tools".to_string(), vec![("gen".to_string(), TableKind::Bin)]);
    t.deps.insert(
        "app".to_string(),
        vec![
            ("zlib".to_string(), DepResolution::Package("zlib".to_string())),
            ("png".to_string(), DepResolution::Inactive),
            ("tools".to_string(), DepResolution::Package("tools".to_string())),
            ("remote".to_string(), DepResolution::AlreadyReported),
        ],
    );
    t
}

fn cfg() -> Config {
    Config::host_default(&Host::new("linux", "x86_64")).for_package("app")
}

#[test]
fn the_package_of_a_label_is_what_stands_before_the_colon() {
    assert_eq!(package_of("app:cli"), "app");
    assert_eq!(package_of("app"), "");
}

#[test]
fn references_resolve_to_labels_in_the_order_written() {
    let mut decl = TargetDecl::bare(TableKind::Bin, "cli".to_string(), site(0));
    let public = Value::list(
        Type::DepRef,
        vec![reference(Data::Target("core".into()), 4), reference(Data::Dep("zlib".into()), 7)],
        Prov::at(Origin::Literal, site(3)),
    );
    decl.props_mut(Block::Public).insert("deps".to_string(), public);
    decl.props_mut(Block::Private).insert("deps".to_string(), reference(Data::Target("core".into()), 9));
    let r = deps("app:cli", &decl, &cfg(), &names());
    assert!(r.diagnostics.is_empty());
    let got: Vec<(String, Block, Site)> = r.edges;
    assert_eq!(
        got,
        vec![
            ("app:core".to_string(), Block::Public, site(4)),
            ("zlib:z".to_string(), Block::Public, site(7)),
            ("app:core".to_string(), Block::Private, site(9)),
        ]
    );
}

#[test]
fn what_cannot_be_resolved_is_diagnosed_one_by_one() {
    let mut decl = TargetDecl::bare(TableKind::Bin, "cli".to_string(), site(0));
    let items = vec![
        reference(Data::Target("nope".into()), 1),
        reference(Data::Dep("missing".into()), 2),
        reference(Data::Dep("png".into()), 3),
        reference(Data::Dep("tools".into()), 4),
        reference(Data::Dep("remote".into()), 5),
        Value::new(Type::Int, Data::Int(3), Prov::at(Origin::Literal, site(6))),
        Value::new(Type::DepRef, Data::Error, Prov::none()),
    ];
    decl.props_mut(Block::Public)
        .insert("deps".to_string(), Value::list(Type::DepRef, items, Prov::none()));
    let r = deps("app:cli", &decl, &cfg(), &names());
    assert!(r.edges.is_empty());
    let codes: Vec<&str> = r.diagnostics.iter().map(|d| d.code).collect();
    assert_eq!(
        codes,
        vec![
            "unknown-target",
            "undeclared-dependency",
            "inactive-dependency",
            "empty-dependency",
            "invalid-dependency"
        ]
    );
    assert_eq!(r.diagnostics[0].message, "no target named `nope`");
    assert_eq!(r.diagnostics[0].notes, vec!["targets in this package: core, cli".to_string()]);
    assert_eq!(r.diagnostics[0].labels[0].site, site(1));
    assert_eq!(
        r.diagnostics[1].notes[0],
        "declared in `dowel.toml`: zlib, png, tools, remote"
    );
    assert_eq!(r.diagnostics[2].message, "`png` is optional and its feature is not enabled");
    assert_eq!(r.diagnostics[2].notes[1], "or enable it with `--features=png`, or drop `optional` from its declaration");
    assert_eq!(r.diagnostics[3].message, "dependency `tools` has no lib target");
    assert_eq!(r.diagnostics[4].message, "element of `deps` is not a dependency reference: 3");
    assert_eq!(r.diagnostics[4].labels[0].site, site(6));
}

#[test]
fn a_reference_behind_a_false_condition_is_no_edge() {
    let mut decl = TargetDecl::bare(TableKind::Bin, "cli".to_string(), site(0));
    let guarded = Value::new(
        Type::DepRef,
        Data::When {
            pred: Pred::Flag(CfgKey { ns: Ns::Feature, name: "zlib".to_string() }),
            inner: Box::new(reference(Data::Dep("zlib".into()), 2)),
        },
        Prov::at(Origin::Literal, site(2)),
    );
    decl.props_mut(Block::Public).insert("deps".to_string(), guarded);
    let off = deps("app:cli", &decl, &cfg(), &names());
    assert!(off.edges.is_empty() && off.diagnostics.is_empty());

    let mut c = Config::host_default(&Host::new("linux", "x86_64"));
    c.features.insert("app/zlib".into());
    let on = deps("app:cli", &decl, &c.for_package("app"), &names());
    assert_eq!(on.edges.len(), 1);
    assert_eq!(on.edges[0].0, "zlib:z");
}

#[test]
fn a_diagnostic_without_a_site_points_at_the_start_of_the_first_file() {
    let item = Value::new(Type::DepRef, Data::Target("x".into()), Prov::none());
    let d = unknown_target("x", &[], &item);
    assert_eq!(d.labels[0].site, Site::new(FileId(0), Span::empty()));
    assert_eq!(d.notes[0], "targets in this package: (none)");
}
