//! Types, the schema, specialisation and the type codec.

use dowel::codec::{merge_rule, R, W};
use dowel::config::{Config, Host, Opt};
use dowel::specialize::specialize;
use dowel::value::{Data, FileId, MatchArm, Origin, Pattern, Prov, Site, Span, Value};
use dowel::schema::{lookup, prop_names, Block, Merge, TableKind};
use dowel::specialize::eval_pred;
use dowel::value::{CfgKey, Ns, Pred, Type};

fn host() -> Host {
    Host::new("linux", "x86_64")
}

fn eq(ns: Ns, name: &str, v: &str) -> Pred {
    Pred::Eq(CfgKey { ns, name: name.into() }, v.into())
}

#[test]
fn assignment_compatibility() {
    assert!(Type::List(Box::new(Type::Path)).accepts(&Type::List(Box::new(Type::Path))));
    assert!(Type::SetOf(Box::new(Type::Path)).accepts(&Type::List(Box::new(Type::Path))));
    assert!(!Type::Path.accepts(&Type::Str), "a Path is never built from a Str");
    assert!(Type::MapOf(Box::new(Type::Val)).accepts(&Type::MapOf(Box::new(Type::Int))));
    assert!(Type::AbiLabel.accepts(&Type::Str));
    assert!(Type::Path.accepts(&Type::Unknown), "errors must not propagate further");
    assert!(Type::List(Box::new(Type::Str))
        .accepts(&Type::Cfg(Box::new(Type::List(Box::new(Type::Str))))));
}

#[test]
fn lists_known_property_names() {
    assert!(prop_names(Block::Public).contains(&"includes"));
    assert!(prop_names(Block::Root).contains(&"sources"));
    assert!(!prop_names(Block::Root).contains(&"includes"));
}

#[test]
fn the_composed_predicates_follow_their_truth_tables() {
    let cfg = Config::host_default(&host());
    let linux = eq(Ns::Target, "os", "linux");
    let macos = eq(Ns::Target, "os", "macos");
    assert!(eval_pred(&linux, &cfg));
    assert!(!eval_pred(&macos, &cfg));

    assert!(eval_pred(&Pred::Or(Box::new(linux.clone()), Box::new(macos.clone())), &cfg));
    assert!(!eval_pred(&Pred::Or(Box::new(macos.clone()), Box::new(macos.clone())), &cfg));

    assert!(!eval_pred(&Pred::And(Box::new(linux.clone()), Box::new(macos.clone())), &cfg));
    assert!(eval_pred(&Pred::And(Box::new(linux.clone()), Box::new(linux.clone())), &cfg));

    assert!(eval_pred(&Pred::Not(Box::new(macos.clone())), &cfg));
    assert!(!eval_pred(&Pred::Not(Box::new(linux.clone())), &cfg));

    let windows = eq(Ns::Target, "os", "windows");
    let unix = Pred::Or(Box::new(linux.clone()), Box::new(macos.clone()));
    assert!(eval_pred(&Pred::And(Box::new(unix), Box::new(Pred::Not(Box::new(windows)))), &cfg));
}

#[test]
fn a_composed_predicate_reads_back_with_the_parentheses_it_needs() {
    let a = eq(Ns::Target, "os", "linux");
    let b = eq(Ns::Target, "os", "macos");
    let c = eq(Ns::Cfg, "opt", "debug");
    let and_or = Pred::Or(
        Box::new(Pred::And(Box::new(a.clone()), Box::new(b.clone()))),
        Box::new(c.clone()),
    );
    assert_eq!(
        and_or.display(),
        "target.os == \"linux\" and target.os == \"macos\" or cfg.opt == \"debug\""
    );
    let or_and = Pred::And(
        Box::new(Pred::Or(Box::new(a.clone()), Box::new(b.clone()))),
        Box::new(c.clone()),
    );
    assert_eq!(
        or_and.display(),
        "(target.os == \"linux\" or target.os == \"macos\") and cfg.opt == \"debug\""
    );
    assert_eq!(
        Pred::Not(Box::new(Pred::Or(Box::new(a.clone()), Box::new(b.clone())))).display(),
        "not (target.os == \"linux\" or target.os == \"macos\")"
    );
    assert_eq!(or_and.keys().len(), 3);
}

#[test]
fn a_flag_holds_only_when_its_feature_is_on() {
    let mut cfg = Config::host_default(&host());
    cfg.features.insert("p/zlib".into());
    let cfg = cfg.for_package("p");
    let zlib = Pred::Flag(CfgKey { ns: Ns::Feature, name: "zlib".into() });
    let png = Pred::Flag(CfgKey { ns: Ns::Feature, name: "png".into() });
    assert!(eval_pred(&zlib, &cfg));
    assert!(!eval_pred(&png, &cfg));
    // A key outside the vocabulary makes a comparison false.
    assert!(!eval_pred(&eq(Ns::Cfg, "optimization", "debug"), &cfg));
}

#[test]
fn a_merge_rule_that_is_not_known_becomes_unknown() {
    assert_eq!(merge_rule("union"), "union");
    assert_eq!(merge_rule("must_equal"), "must_equal");
    assert_eq!(merge_rule("nonsense"), "unknown");
}

#[test]
fn every_type_variant_round_trips() {
    let types = [
        Type::Str,
        Type::Int,
        Type::Bool,
        Type::Path,
        Type::DepRef,
        Type::TargetRef,
        Type::AbiLabel,
        Type::Val,
        Type::Unknown,
        Type::List(Box::new(Type::Path)),
        Type::SetOf(Box::new(Type::Str)),
        Type::MapOf(Box::new(Type::Val)),
        Type::Cfg(Box::new(Type::List(Box::new(Type::Str)))),
    ];
    for ty in types {
        let mut w = W(Vec::new());
        w.ty(&ty);
        let mut r = R { b: &w.0, i: 0 };
        let back = r.ty().expect("the type should decode");
        assert_eq!(back.display(), ty.display());
        assert_eq!(r.i, r.b.len(), "bytes were left over for {}", ty.display());
    }
}

#[test]
fn a_type_encodes_as_its_tags() {
    let mut w = W(Vec::new());
    w.ty(&Type::Cfg(Box::new(Type::List(Box::new(Type::Word)))));
    assert_eq!(w.0, vec![12, 9, 13]);
    let mut r = R { b: &[9, 99], i: 0 };
    assert!(r.ty().is_none());
    let mut r = R { b: &[], i: 0 };
    assert!(r.ty().is_none());
}

#[test]
fn the_schema_tables_hold_their_rules() {
    let includes = lookup(Block::Public, "includes").unwrap();
    assert_eq!(includes.merge, Merge::Union);
    assert_eq!(includes.ty.display(), "Set<Path>");
    let c_std = lookup(Block::Private, "c_std").unwrap();
    assert_eq!(c_std.merge, Merge::Max);
    assert_eq!(c_std.domain.unwrap()[3], "c17");
    assert!(lookup(Block::Root, "includes").is_none());
    assert_eq!(Merge::ErrorOnConflict.name(), "error_on_conflict");
    assert_eq!(TableKind::parse("runner"), Some(TableKind::Runner));
    assert_eq!(TableKind::parse("library"), None);
    assert!(TableKind::Bench.is_target());
    assert!(!TableKind::Bench.is_implemented());
    assert!(TableKind::Runner.is_implemented());
    assert!(!TableKind::Runner.is_target());
    assert_eq!(Block::parse("public"), Some(Block::Public));
    assert_eq!(Block::parse("(root)"), None);
    assert_eq!(Block::Root.name(), "(root)");
}

fn site0() -> Site {
    Site::new(FileId(0), Span::new(0, 1))
}

fn sv(v: &str) -> Value {
    Value::str(v.to_string(), Prov::at(Origin::Literal, site0()))
}

#[test]
fn match_selects_an_arm_from_the_configuration() {
    let v = Value::new(
        Type::Cfg(Box::new(Type::Str)),
        Data::Match {
            scrutinee: CfgKey { ns: Ns::Cfg, name: "opt".into() },
            arms: vec![
                MatchArm { pattern: Pattern::Value("debug".into()), value: sv("-O0"), site: site0() },
                MatchArm {
                    pattern: Pattern::Value("release".into()),
                    value: sv("-O2"),
                    site: site0(),
                },
            ],
        },
        Prov::none(),
    );
    let mut cfg = Config::host_default(&host());
    assert_eq!(specialize(&v, &cfg).unwrap().as_str(), Some("-O0"));
    cfg.opt = Opt::Release;
    let chosen = specialize(&v, &cfg).unwrap();
    assert_eq!(chosen.as_str(), Some("-O2"));
    // The arm chosen is kept in the provenance.
    assert!(matches!(chosen.prov.origin(), Some(Origin::MatchArm(p)) if p == "release"));
}

#[test]
fn a_wildcard_arm_is_taken_when_no_arm_names_the_value() {
    let v = Value::new(
        Type::Cfg(Box::new(Type::Str)),
        Data::Match {
            scrutinee: CfgKey { ns: Ns::Target, name: "os".into() },
            arms: vec![
                MatchArm { pattern: Pattern::Wildcard, value: sv("other"), site: site0() },
                MatchArm { pattern: Pattern::Value("linux".into()), value: sv("gnu"), site: site0() },
                MatchArm { pattern: Pattern::Value("macos".into()), value: sv("mac"), site: site0() },
            ],
        },
        Prov::none(),
    );
    let cfg = Config::host_default(&host());
    // A named arm wins over an earlier `_`.
    assert_eq!(specialize(&v, &cfg).unwrap().as_str(), Some("gnu"));
    let mac = Config::host_default(&Host::new("windows", "x86_64"));
    assert_eq!(specialize(&v, &mac).unwrap().as_str(), Some("other"));
}

#[test]
fn a_match_without_a_fitting_arm_gives_nothing() {
    let v = Value::new(
        Type::Cfg(Box::new(Type::Str)),
        Data::Match {
            scrutinee: CfgKey { ns: Ns::Cfg, name: "opt".into() },
            arms: vec![MatchArm {
                pattern: Pattern::Value("release".into()),
                value: sv("-O2"),
                site: site0(),
            }],
        },
        Prov::none(),
    );
    assert!(specialize(&v, &Config::host_default(&host())).is_none());
}

#[test]
fn a_false_when_drops_the_element() {
    let cond = Value::new(
        Type::Cfg(Box::new(Type::Str)),
        Data::When {
            pred: Pred::Flag(CfgKey { ns: Ns::Feature, name: "zlib".into() }),
            inner: Box::new(sv("-lz")),
        },
        Prov::none(),
    );
    let list = Value::list(Type::Str, vec![sv("-lm"), cond], Prov::none());
    let mut cfg = Config::host_default(&host());

    let off = specialize(&list, &cfg).unwrap();
    assert_eq!(off.as_list().unwrap().len(), 1);

    cfg.features.insert("p/zlib".into());
    let cfg = cfg.for_package("p");
    let on = specialize(&list, &cfg).unwrap();
    assert_eq!(on.as_list().unwrap().len(), 2);
    assert_eq!(on.as_list().unwrap()[1].as_str(), Some("-lz"));
}

#[test]
fn specialized_values_carry_no_conditions() {
    let cond = Value::new(
        Type::Cfg(Box::new(Type::Str)),
        Data::When {
            pred: Pred::Eq(CfgKey { ns: Ns::Cfg, name: "opt".into() }, "debug".into()),
            inner: Box::new(sv("-g")),
        },
        Prov::none(),
    );
    let out = specialize(&cond, &Config::host_default(&host())).unwrap();
    assert!(!out.is_conditional());
    assert_eq!(out.ty.display(), Type::Str.display());
}

#[test]
fn a_package_constant_is_filled_in_at_specialization() {
    let mut cfg = Config::host_default(&host());
    cfg.versions.insert("hashx".into(), "0.4.0".into());
    let cfg = cfg.for_package("hashx");

    let v = Value::new(
        Type::Str,
        Data::PkgRef("version".into()),
        Prov::at(Origin::Literal, Site::new(FileId(0), Span::new(0, 3))),
    );
    let out = specialize(&v, &cfg).expect("the reference must resolve");
    assert_eq!(out.as_str(), Some("0.4.0"));
    assert_eq!(out.ty.display(), "Str");

    let name = Value::new(Type::Str, Data::PkgRef("name".into()), Prov::none());
    assert_eq!(specialize(&name, &cfg).unwrap().as_str(), Some("hashx"));
}

#[test]
fn different_types_display_differently() {
    let all = vec![
        Type::Str, Type::Int, Type::Bool, Type::Path, Type::DepRef, Type::TargetRef, Type::AbiLabel, Type::Val,
        Type::Word, Type::Unknown, Type::List(Box::new(Type::Str)), Type::SetOf(Box::new(Type::Str)),
        Type::MapOf(Box::new(Type::Val)), Type::Cfg(Box::new(Type::Str)), Type::List(Box::new(Type::Word)),
    ];
    for (i, a) in all.iter().enumerate() {
        for (j, b) in all.iter().enumerate() {
            assert_eq!(a.display() == b.display(), i == j);
        }
    }
    assert_eq!(Type::MapOf(Box::new(Type::Val)).display(), "Map<Ident, Val>");
}
