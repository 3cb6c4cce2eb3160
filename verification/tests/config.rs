//! The configuration vocabulary: triples, lookups, package constants, tools
//! and the identifier of a configuration.

use dowel::config::{
    default_triple, domain_of, host_arch_name, host_os_name, is_pkg_constant, tools, triple_arch, triple_env, triple_os, vocabulary, CfgValue,
    Config, Host, Opt, TARGET_ARCHES, TARGET_ENVS, TARGET_OSES,
};
use dowel::value::{CfgKey, Ns};
use std::collections::BTreeSet;

/// The machine the tests run on.
fn host() -> Host {
    Host::new("linux", "x86_64")
}

fn key(ns: Ns, name: &str) -> CfgKey {
    CfgKey { ns, name: name.into() }
}

#[test]
fn the_target_triple_yields_an_os_and_an_arch() {
    assert_eq!(triple_os("x86_64-pc-windows-gnu"), "windows");
    assert_eq!(triple_os("x86_64-pc-windows-msvc"), "windows");
    assert_eq!(triple_os("aarch64-unknown-linux-musl"), "linux");
    assert_eq!(triple_os("x86_64-apple-darwin"), "macos");
    assert_eq!(triple_os("thumbv7em-none-eabihf"), "none");
    assert_eq!(triple_os("riscv32imac-unknown-none-elf"), "none");
    assert_eq!(triple_os("x86_64-unknown-freebsd"), "other");

    assert_eq!(triple_arch("x86_64-pc-windows-gnu"), "x86_64");
    assert_eq!(triple_arch("i686-pc-windows-gnu"), "x86");
    assert_eq!(triple_arch("aarch64-apple-darwin"), "aarch64");
    assert_eq!(triple_arch("riscv64gc-unknown-linux-gnu"), "riscv64");
    assert_eq!(triple_arch("armv7-unknown-linux-gnueabihf"), "arm");
    assert_eq!(triple_arch("thumbv7em-none-eabihf"), "arm");
    assert_eq!(triple_arch("s390x-unknown-linux-gnu"), "other");

    assert_eq!(triple_env("x86_64-unknown-linux-gnu"), "gnu");
    assert_eq!(triple_env("x86_64-unknown-linux-musl"), "musl");
    assert_eq!(triple_env("x86_64-pc-windows-msvc"), "msvc");
    assert_eq!(triple_env("x86_64-pc-windows-gnu"), "gnu");
    assert_eq!(triple_env("armv7-unknown-linux-gnueabihf"), "gnu");
    assert_eq!(triple_env("armv7-unknown-linux-musleabi"), "musl");
    assert_eq!(triple_env("aarch64-apple-darwin"), "apple");
    assert_eq!(triple_env("thumbv7em-none-eabihf"), "none");
    assert_eq!(triple_env("x86_64-unknown-freebsd"), "other");
}

#[test]
fn every_derived_value_is_inside_the_declared_domain() {
    let triples = [
        "x86_64-unknown-linux-gnu",
        "x86_64-pc-windows-gnu",
        "x86_64-apple-darwin",
        "thumbv7em-none-eabihf",
        "s390x-unknown-freebsd",
        "",
        "nonsense",
    ];
    for t in triples {
        assert!(TARGET_OSES.contains(&triple_os(t)), "`{t}` gave an os outside the domain");
        assert!(TARGET_ARCHES.contains(&triple_arch(t)), "`{t}` gave an arch outside the domain");
        assert!(TARGET_ENVS.contains(&triple_env(t)), "`{t}` gave an env outside the domain");
    }
}

#[test]
fn the_target_namespace_reads_the_configured_triple() {
    let h = host();
    let mut cfg = Config::host_default(&h);
    cfg.target = "x86_64-pc-windows-gnu".into();
    let os = cfg.lookup(&key(Ns::Target, "os"));
    assert_eq!(os, Some(CfgValue::Str("windows".into())));
    assert_eq!(cfg.lookup(&key(Ns::Host, "os")), Some(CfgValue::Str(h.os.clone())));
}

#[test]
fn keys_outside_the_vocabulary_are_not_found() {
    assert!(domain_of(&key(Ns::Cfg, "opt")).is_some());
    assert!(domain_of(&key(Ns::Cfg, "optimization")).is_none());
    assert!(domain_of(&key(Ns::Feature, "zlib")).is_some());
}

#[test]
fn looks_up_values_from_the_configuration() {
    let mut c = Config::host_default(&host());
    c.features.insert("p/zlib".into());
    let c = c.for_package("p");
    assert_eq!(c.lookup(&key(Ns::Cfg, "opt")), Some(CfgValue::Str("debug".into())));
    assert_eq!(c.lookup(&key(Ns::Feature, "zlib")), Some(CfgValue::Bool(true)));
    assert_eq!(c.lookup(&key(Ns::Feature, "png")), Some(CfgValue::Bool(false)));
}

#[test]
fn package_constants_come_from_the_package_being_specialized() {
    let mut c = Config::host_default(&host());
    c.versions.insert("app".into(), "1.2.3".into());
    c.versions.insert("lib".into(), "0.4.0".into());

    let app = c.for_package("app");
    assert_eq!(app.pkg_constant("name"), Some("app"));
    assert_eq!(app.pkg_constant("version"), Some("1.2.3"));
    assert_eq!(c.for_package("lib").pkg_constant("version"), Some("0.4.0"));
    assert_eq!(app.pkg_constant("author"), None);
}

#[test]
fn package_constants_are_not_configuration_keys() {
    assert!(domain_of(&key(Ns::Pkg, "version")).is_none());
    assert!(is_pkg_constant("version"));
    assert!(!is_pkg_constant("opt"));
}

#[test]
fn the_tool_table_and_the_vocabulary_agree() {
    let vocab: BTreeSet<&str> =
        vocabulary().iter().filter(|(ns, ..)| *ns == "tc").map(|(_, n, ..)| *n).collect();
    let tools: BTreeSet<&str> = tools().iter().map(|(n, _, _)| *n).collect();
    assert_eq!(vocab, tools);
}

#[test]
fn tools_default_from_the_table_and_declarations_override() {
    let mut c = Config::host_default(&host());
    assert_eq!(c.tool("c"), "cc");
    assert_eq!(c.tool("ar"), "ar");
    c.set_tool("ar", "llvm-ar".into());
    assert_eq!(c.tool("ar"), "llvm-ar");
    assert_eq!(c.lookup(&key(Ns::Tc, "ar")), Some(CfgValue::Str("llvm-ar".into())));
}

#[test]
fn features_belong_to_the_package_that_declared_them() {
    let mut c = Config::host_default(&host());
    c.features.insert("app/x".into());
    c.features.insert("lib/y".into());
    let feat = |c: &Config, n: &str| c.lookup(&key(Ns::Feature, n));

    let app = c.for_package("app");
    assert_eq!(feat(&app, "x"), Some(CfgValue::Bool(true)));
    assert_eq!(feat(&app, "y"), Some(CfgValue::Bool(false)));

    let lib = c.for_package("lib");
    assert_eq!(feat(&lib, "y"), Some(CfgValue::Bool(true)));
    assert_eq!(feat(&lib, "x"), Some(CfgValue::Bool(false)));
}

#[test]
fn the_identifier_stays_one_path_component() {
    let mut c = Config::host_default(&host());
    c.target = "x86_64-unknown-linux-gnu".into();
    c.features.insert("core/deep".into());
    let id = c.id();
    assert!(!id.contains('/'), "{id}");
    assert!(id.contains("core--deep"), "{id}");

    let mut other = Config::host_default(&host());
    other.target = "x86_64-unknown-linux-gnu".into();
    other.features.insert("core-deep".into());
    assert_ne!(c.id(), other.id());
}

#[test]
fn configuration_id_includes_feature_flags() {
    let mut c = Config::host_default(&host());
    c.opt = Opt::Release;
    c.target = "x86_64-unknown-linux-gnu".into();
    assert_eq!(c.id(), "x86_64-unknown-linux-gnu-release");
    c.features.insert("zlib".into());
    assert_eq!(c.id(), "x86_64-unknown-linux-gnu-release-zlib");
}

#[test]
fn the_host_default_targets_the_host() {
    let c = Config::host_default(&host());
    assert_eq!(c.target, "x86_64-unknown-linux-gnu");
    assert!(c.targets_host());
    assert_eq!(c.opt, Opt::Debug);
    assert_eq!(Opt::parse("release"), Some(Opt::Release));
    assert_eq!(Opt::parse("fast"), None);
    assert_eq!(Opt::Release.name(), "release");
}

#[test]
fn the_default_triple_reads_back_as_the_host() {
    for (os, arch) in [("linux", "x86_64"), ("macos", "aarch64"), ("windows", "x86"), ("linux", "riscv64")] {
        let t = default_triple(&Host::new(os, arch));
        assert_eq!(triple_os(&t), os);
        assert_eq!(triple_arch(&t), arch);
    }
}

#[test]
fn a_version_can_be_added_to_the_host_default() {
    let mut c = Config::host_default(&host());
    c.versions.insert("app".into(), "1.2.3".into());
    c.versions.insert("lib".into(), "0.4.0".into());
    assert_eq!(c.for_package("app").pkg_constant("name"), Some("app"));
    assert_eq!(c.for_package("app").pkg_constant("version"), Some("1.2.3"));
    assert_eq!(c.for_package("lib").pkg_constant("version"), Some("0.4.0"));
    assert_eq!(c.for_package("app").pkg_constant("author"), None);
}

#[test]
fn the_host_names_are_those_the_configuration_knows() {
    assert_eq!(host_os_name("linux"), "linux");
    assert_eq!(host_os_name("freebsd"), "unknown");
    assert_eq!(host_arch_name("aarch64"), "aarch64");
    assert_eq!(host_arch_name("powerpc64"), "unknown");
    for os in ["linux", "macos", "windows"] {
        for arch in ["x86_64", "aarch64", "riscv64"] {
            let t = default_triple(&Host::new(host_os_name(os), host_arch_name(arch)));
            assert_eq!(triple_os(&t), os);
            assert_eq!(triple_arch(&t), arch);
        }
    }
}
