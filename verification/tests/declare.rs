//! Assigning the properties a target table writes, and what the schema
//! refuses.

use dowel::declare::{
    assign_prop, build_targets, check_build_file, classify_table, declare_cases, declare_harness, declare_runner, declare_tool_runs, Runner, TableClass,
};
use dowel::strs::ByName;
use dowel::schema::{Merge, PropDef};
use dowel::document::{Document, Entry, Table};
use dowel::diag::Diagnostic;
use dowel::schema::{Block, TableKind};
use dowel::target::TargetDecl;
use dowel::value::{Data, FileId, Origin, Prov, Site, Span, Type, Value};

fn site(n: u32) -> Site {
    Site::new(FileId(3), Span::new(n, n + 1))
}

fn text(s: &str, n: u32) -> Value {
    Value::new(Type::Str, Data::Str(s.to_string()), Prov::at(Origin::Literal, site(n)))
}

fn key(parts: &[&str]) -> Vec<String> {
    parts.iter().map(|p| p.to_string()).collect()
}

fn lib() -> TargetDecl {
    TargetDecl::bare(TableKind::Lib, "core".to_string(), site(0))
}

#[test]
fn a_block_may_be_named_in_the_key() {
    let mut t = lib();
    let mut diags: Vec<Diagnostic> = Vec::new();
    assign_prop(&mut t, Block::Root, &key(&["public", "c_std"]), &text("c17", 5), site(5), &mut diags);
    assert!(diags.is_empty());
    assert_eq!(t.props(Block::Public).get("c_std").unwrap().as_str(), Some("c17"));
    assert_eq!(t.props(Block::Root).len(), 0);
}

#[test]
fn an_unknown_property_names_what_the_block_accepts() {
    let mut t = lib();
    let mut diags: Vec<Diagnostic> = Vec::new();
    assign_prop(&mut t, Block::Public, &key(&["sources"]), &text("a.c", 2), site(2), &mut diags);
    assert_eq!(diags.len(), 1);
    assert_eq!(diags[0].code, "unknown-property");
    assert_eq!(diags[0].message, "unknown property `sources`");
    assert_eq!(diags[0].labels[0].message, "`public` has no property with this name");
    assert!(diags[0].notes[0].starts_with("`public` accepts: includes, defines, flags"));
    assert_eq!(diags[0].notes[1], "`sources` is a property of `(root)`");
    assert_eq!(t.props(Block::Public).len(), 0);
}

#[test]
fn a_string_is_no_path() {
    let mut t = lib();
    let mut diags: Vec<Diagnostic> = Vec::new();
    let v = Value::list(Type::Str, vec![text("include", 1)], Prov::at(Origin::Literal, site(1)));
    let v = Value { ty: Type::List(Box::new(Type::Str)), ..v };
    assign_prop(&mut t, Block::Public, &key(&["includes"]), &v, site(1), &mut diags);
    assert_eq!(diags[0].code, "type-mismatch");
    assert_eq!(
        diags[0].notes[0],
        "a Path is not built from a string; use `dir(\"...\")`, `file(\"...\")` or `glob(\"...\")`"
    );
}

#[test]
fn a_standard_outside_the_vocabulary_is_refused() {
    let mut t = lib();
    let mut diags: Vec<Diagnostic> = Vec::new();
    assign_prop(&mut t, Block::Private, &key(&["cxx_std"]), &text("c++2a", 7), site(6), &mut diags);
    assert_eq!(diags[0].code, "unknown-standard");
    assert_eq!(diags[0].message, "`c++2a` is not a value of `cxx_std`");
    assert_eq!(diags[0].labels[0].site, site(7));
    assert_eq!(diags[0].notes[0], "`cxx_std` accepts: c++98, c++03, c++11, c++14, c++17, c++20, c++23, c++26");
}

#[test]
fn a_property_is_set_once_per_block() {
    let mut t = lib();
    let mut diags: Vec<Diagnostic> = Vec::new();
    assign_prop(&mut t, Block::Public, &key(&["c_std"]), &text("c11", 1), site(1), &mut diags);
    assign_prop(&mut t, Block::Public, &key(&["c_std"]), &text("c17", 2), site(2), &mut diags);
    assert_eq!(diags.len(), 1);
    assert_eq!(diags[0].code, "duplicate-property");
    assert_eq!(diags[0].labels[1].site, site(1));
    assert_eq!(t.props(Block::Public).get("c_std").unwrap().as_str(), Some("c11"));
}

#[test]
fn a_template_holds_settings_only() {
    let mut t = TargetDecl::bare(TableKind::Template, "warnings".to_string(), site(0));
    let mut diags: Vec<Diagnostic> = Vec::new();
    assign_prop(&mut t, Block::Root, &key(&["sources"]), &text("a.c", 1), site(1), &mut diags);
    assert_eq!(diags[0].message, "a template has no `sources`");
}

fn inline(rows: Vec<(&str, Value)>, n: u32) -> Value {
    Value::new(
        Type::MapOf(Box::new(Type::Unknown)),
        Data::MapOf(rows.into_iter().map(|(k, v)| (k.to_string(), v)).collect()),
        Prov::at(Origin::Literal, site(n)),
    )
}

fn runs(entries: Vec<(&str, Value)>) -> Table {
    Table {
        path: key(&["lib", "core", "artifacts"]),
        path_spans: Vec::new(),
        array: false,
        site: site(0),
        entries: entries
            .into_iter()
            .enumerate()
            .map(|(i, (k, v))| Entry { key: key(&[k]), key_spans: Vec::new(), site: site(10 + i as u32), value: v })
            .collect(),
    }
}

#[test]
fn artifacts_are_declared_in_order_and_bad_items_are_diagnosed() {
    let mut t = lib();
    let mut diags: Vec<Diagnostic> = Vec::new();
    let args = Value::list(Type::Str, vec![text("-O", 1), text("binary", 1)], Prov::at(Origin::Literal, site(1)));
    let args = Value { ty: Type::List(Box::new(Type::Str)), ..args };
    let table = runs(vec![
        ("bin", inline(vec![("args", args), ("tool", text("objcopy", 1))], 1)),
        ("hex", inline(vec![("tool", text("objcpy", 2))], 2)),
        ("map", inline(vec![("args", text("x", 3))], 3)),
        ("lst", text("objdump", 4)),
        ("elf", inline(vec![("tool", text("size", 5)), ("when", text("x", 5))], 5)),
    ]);
    declare_tool_runs(&mut t, &table, true, &mut diags);
    let names: Vec<&str> = t.artifacts.iter().map(|a| a.suffix.as_str()).collect();
    assert_eq!(names, vec!["bin", "elf"]);
    assert_eq!(t.artifacts[0].tool, "objcopy");
    assert!(t.artifacts[0].args.is_some());
    assert!(t.inspections.is_empty());
    let codes: Vec<&str> = diags.iter().map(|d| d.code).collect();
    assert_eq!(codes, vec!["unknown-tool", "type-mismatch", "missing-field", "type-mismatch", "unknown-property"]);
    assert_eq!(diags[0].message, "`objcpy` is not a toolchain tool");
    assert_eq!(diags[1].message, "`args` is List<Str> but Str was given");
    assert_eq!(diags[2].message, "`map` has no `tool`");
    assert_eq!(diags[3].message, "`lst` is an inline table but Str was given");
    assert_eq!(diags[4].notes[0], "an artifact accepts: tool, args");
}

fn case_schema() -> Vec<PropDef> {
    vec![
        PropDef { name: "args", ty: Type::List(Box::new(Type::Str)), merge: Merge::Replace, doc: "arguments", domain: None },
        PropDef { name: "timeout", ty: Type::Int, merge: Merge::Replace, doc: "seconds", domain: None },
        PropDef { name: "should_fail", ty: Type::Bool, merge: Merge::Replace, doc: "inverts", domain: None },
    ]
}

fn int_value(n: i64, at: u32) -> Value {
    Value::new(Type::Int, Data::Int(n), Prov::at(Origin::Literal, site(at)))
}

fn cases_table(entries: Vec<(&str, Value)>) -> Table {
    let mut t = runs(entries);
    t.path = key(&["test", "parse", "cases"]);
    t
}

#[test]
fn cases_are_registered_and_their_fields_checked() {
    let mut t = TargetDecl::bare(TableKind::Test, "parse".to_string(), site(0));
    let mut diags: Vec<Diagnostic> = Vec::new();
    let table = cases_table(vec![
        ("quick", inline(vec![("timeout", int_value(0, 21))], 1)),
        ("a b", inline(vec![], 2)),
        ("plain", text("x", 3)),
        ("slow", inline(vec![("retries", int_value(2, 22))], 4)),
    ]);
    declare_cases(&mut t, &table, &case_schema(), &mut diags);
    let names: Vec<&str> = t.cases.iter().map(|c| c.name.as_str()).collect();
    assert_eq!(names, vec!["quick", "slow"]);
    let codes: Vec<&str> = diags.iter().map(|d| d.code).collect();
    assert_eq!(codes, vec!["invalid-value", "invalid-name", "type-mismatch", "unknown-property"]);
    assert_eq!(diags[0].message, "`timeout = 0` is not a duration");
    assert_eq!(diags[0].labels[0].site, site(21));
    assert_eq!(diags[3].notes[0], "a case accepts: args, timeout, should_fail");
}

#[test]
fn only_tests_and_benches_have_cases() {
    let mut t = lib();
    let mut diags: Vec<Diagnostic> = Vec::new();
    declare_cases(&mut t, &cases_table(vec![("x", inline(vec![], 1))]), &case_schema(), &mut diags);
    assert_eq!(diags[0].code, "unknown-block");
    assert_eq!(diags[0].message, "`cases` has no meaning on a `lib` target");
    assert!(t.cases.is_empty());
    let mut b = TargetDecl::bare(TableKind::Bench, "speed".to_string(), site(0));
    let mut diags: Vec<Diagnostic> = Vec::new();
    let flag = Value::new(Type::Bool, Data::Bool(true), Prov::none());
    declare_cases(&mut b, &cases_table(vec![("x", inline(vec![("should_fail", flag)], 1))]), &case_schema(), &mut diags);
    assert_eq!(diags[0].message, "`should_fail` has no meaning in a bench case");
    let mut e = TargetDecl::bare(TableKind::Test, "t".to_string(), site(0));
    let mut diags: Vec<Diagnostic> = Vec::new();
    declare_cases(&mut e, &cases_table(vec![]), &case_schema(), &mut diags);
    assert_eq!(diags[0].message, "`[test.parse.cases]` declares no case");
}

fn runner_table(path: &[&str], entries: Vec<(&str, Value)>) -> Table {
    let mut t = runs(entries);
    t.path = key(path);
    t
}

#[test]
fn a_runner_needs_a_command_and_a_complete_transfer() {
    let mut runners: ByName<Runner> = ByName::new();
    let mut diags: Vec<Diagnostic> = Vec::new();
    declare_runner(&mut runners, &runner_table(&["runner"], vec![]), FileId(3), &mut diags);
    assert_eq!(diags[0].code, "missing-target-name");
    let triple = "riscv64-unknown-linux-gnu";
    declare_runner(
        &mut runners,
        &runner_table(&["runner", triple], vec![("remote_dir", text("/tmp", 1))]),
        FileId(3),
        &mut diags,
    );
    assert_eq!(diags[1].message, "runner `riscv64-unknown-linux-gnu` sets `remote_dir` but not `transfer`");
    declare_runner(&mut runners, &runner_table(&["runner", triple], vec![("args", text("x", 2))]), FileId(3), &mut diags);
    assert_eq!(diags[2].code, "type-mismatch");
    assert_eq!(diags[3].message, "runner `riscv64-unknown-linux-gnu` has no `command`");
    declare_runner(
        &mut runners,
        &runner_table(&["runner", triple], vec![("command", text("qemu-riscv64", 3)), ("cmd", text("x", 3))]),
        FileId(3),
        &mut diags,
    );
    assert_eq!(diags[4].notes[0], "`runner` accepts: command, args, transfer, remote_dir, host");
    assert_eq!(diags.len(), 5);
    assert_eq!(runners.get(triple).unwrap().props.get("command").unwrap().as_str(), Some("qemu-riscv64"));
    declare_runner(
        &mut runners,
        &runner_table(&["runner", triple], vec![("command", text("qemu", 4))]),
        FileId(3),
        &mut diags,
    );
    assert_eq!(diags[5].code, "duplicate-table");
    assert_eq!(diags[5].labels.len(), 2);
}

fn harness_schema() -> Vec<PropDef> {
    vec![
        PropDef { name: "list", ty: Type::List(Box::new(Type::Str)), merge: Merge::Replace, doc: "lists", domain: None },
        PropDef { name: "run", ty: Type::List(Box::new(Type::Str)), merge: Merge::Replace, doc: "runs one", domain: None },
    ]
}

#[test]
fn a_harness_needs_list_and_excludes_cases() {
    let list = Value::list(Type::Str, vec![text("--list", 1)], Prov::none());
    let list = Value { ty: Type::List(Box::new(Type::Str)), ..list };
    let mut t = TargetDecl::bare(TableKind::Test, "parse".to_string(), site(0));
    let mut diags: Vec<Diagnostic> = Vec::new();
    declare_harness(&mut t, &runner_table(&["test", "parse", "harness"], vec![("run", text("x", 1))]), &harness_schema(), &mut diags);
    assert_eq!(diags[0].code, "type-mismatch");
    assert_eq!(diags[1].message, "`[harness]` has no `list`");
    assert!(t.harness.is_none());
    declare_harness(&mut t, &runner_table(&["test", "parse", "harness"], vec![("list", list)]), &harness_schema(), &mut diags);
    assert_eq!(diags.len(), 2);
    assert!(t.harness.as_ref().unwrap().fields.get("list").is_some());
    let mut b = lib();
    declare_harness(&mut b, &runner_table(&["lib", "core", "harness"], vec![]), &harness_schema(), &mut diags);
    assert_eq!(diags[2].message, "`harness` has no meaning on a `lib` target");
}

#[test]
fn a_table_path_names_a_kind_a_target_and_a_block() {
    let mut diags: Vec<Diagnostic> = Vec::new();
    let class = |path: &[&str], diags: &mut Vec<Diagnostic>| classify_table(&runner_table(path, vec![]), FileId(3), diags);
    assert!(matches!(class(&["lib", "core"], &mut diags), TableClass::Props { block: Block::Root, .. }));
    assert!(matches!(class(&["lib", "core", "public"], &mut diags), TableClass::Props { block: Block::Public, .. }));
    assert!(matches!(class(&["test", "t", "cases"], &mut diags), TableClass::Cases { .. }));
    assert!(matches!(class(&["bin", "b", "inspect"], &mut diags), TableClass::ToolRuns { transform: false, .. }));
    assert!(matches!(class(&["runner", "x"], &mut diags), TableClass::Runner));
    assert!(diags.is_empty());
    assert!(matches!(class(&["libary", "core"], &mut diags), TableClass::Skip));
    assert_eq!(diags[0].notes[0], "available kinds: lib, bin, test, bench, template, toolchain, runner");
    class(&["bench", "b"], &mut diags);
    assert_eq!(diags[1].notes[0], "implemented kinds: lib, bin, test, runner");
    class(&["lib"], &mut diags);
    assert_eq!(diags[2].message, "`[lib]` has no target name");
    class(&["lib", "core", "publik"], &mut diags);
    assert_eq!(diags[3].code, "unknown-block");
    class(&["test", "t", "cases", "one"], &mut diags);
    assert!(diags[4].notes[0].starts_with("the items of `cases` are inline tables"));
}

#[test]
fn a_name_is_one_kind_and_a_refused_kind_is_reported_once() {
    let table = |path: &[&str], entries: Vec<(&str, Value)>| {
        let mut t = runner_table(path, entries);
        t.site = site(40 + path.len() as u32);
        t
    };
    let doc = Document {
        file: FileId(3),
        cfg_refs: Vec::new(),
        tables: vec![
            table(&["lib", "core", "public"], vec![("c_std", text("c17", 30))]),
            table(&["bin", "core"], vec![]),
            table(&["bin", "core", "private"], vec![]),
            table(&["lib", "core"], vec![]),
            table(&["runner", "x86_64-linux"], vec![]),
        ],
    };
    let mut diags: Vec<Diagnostic> = Vec::new();
    let sink = build_targets(&doc, &case_schema(), &harness_schema(), &mut diags);
    assert_eq!(sink.targets.len(), 1);
    assert_eq!(sink.targets[0].kind, TableKind::Lib);
    assert_eq!(sink.targets[0].props(Block::Public).get("c_std").unwrap().as_str(), Some("c17"));
    let dups: Vec<&Diagnostic> = diags.iter().filter(|d| d.code == "duplicate-target").collect();
    assert_eq!(dups.len(), 1);
    assert_eq!(dups[0].message, "`core` is already a lib target in this package");
    assert_eq!(dups[0].notes[2], "rename one, for example `[bin.core-bin]`");
    assert_eq!(sink.runners.len(), 0);
    assert!(diags.iter().any(|d| d.code != "duplicate-target"));
}

#[test]
fn checking_a_build_file_reports_what_reading_it_reports() {
    let doc = Document {
        file: FileId(3),
        cfg_refs: Vec::new(),
        tables: vec![runner_table(&["lib"], vec![]), runner_table(&["lib", "core", "public"], vec![])],
    };
    let diags = check_build_file(&doc, &case_schema(), &harness_schema());
    assert_eq!(diags.len(), 1);
    assert_eq!(diags[0].message, "`[lib]` has no target name");
}
