//! What a target supplies to its dependents, and how a block is merged.

use dowel::config::{Config, Host};
use dowel::diag::Diagnostic;
use dowel::interface::{merge_block, tag_propagated};
use dowel::model::TargetId;
use dowel::schema::{Block, TableKind};
use dowel::target::TargetDecl;
use dowel::why::elements;
use dowel::strs::ByName;
use dowel::value::{Data, FileId, Origin, PathBase, PathValue, Prov, Site, Span, Type, Value};

fn site(n: u32) -> Site {
    Site::new(FileId(0), Span::new(n, n + 1))
}

fn path(rel: &str, n: u32) -> Value {
    Value {
        ty: Type::Path,
        data: Data::Path(PathValue { base: PathBase::Package, rel: rel.to_string() }),
        prov: Prov::at(Origin::Call("dir".into()), site(n)),
    }
}

fn paths(items: Vec<Value>) -> Value {
    Value::list(Type::Path, items, Prov::at(Origin::Literal, site(90)))
}

fn cfg() -> Config {
    Config::host_default(&Host::new("linux", "x86_64"))
}

fn shown(v: &Value) -> Vec<String> {
    v.as_list().unwrap().iter().map(|i| i.display()).collect()
}

#[test]
fn a_propagated_value_records_where_it_came_from() {
    let v = paths(vec![path("include", 3)]);
    let t = tag_propagated(&v, "zlib:z", "includes");
    assert_eq!(t.prov.len(), 2);
    match &t.prov.step(0).0 {
        Origin::Propagated { from, prop } => {
            assert_eq!(from, "zlib:z");
            assert_eq!(prop, "public.includes");
        }
        other => panic!("unexpected origin {other:?}"),
    }
    // The step stands at the nearest site the value had.
    assert_eq!(t.prov.step(0).1, Some(site(90)));
    // Each item carries the step too, at its own site.
    let item = &t.as_list().unwrap()[0];
    assert_eq!(item.prov.len(), 2);
    assert_eq!(item.prov.step(0).1, Some(site(3)));
    assert_eq!(shown(&t), vec!["include"]);
}

#[test]
fn a_block_merges_its_own_values_before_its_dependencies() {
    let mut own: ByName<Value> = ByName::new();
    own.insert("includes".to_string(), paths(vec![path("src", 1)]));
    let mut dep: ByName<Value> = ByName::new();
    dep.insert("includes".to_string(), paths(vec![path("include", 2)]));
    dep.insert("abi".to_string(), Value::str("gnu11".to_string(), Prov::none()));
    let ifaces = vec![None, Some(dep)];
    let labels = vec!["p:app".to_string(), "zlib:z".to_string()];
    let mut diags: Vec<Diagnostic> = Vec::new();
    let merged = merge_block(&labels, &cfg(), &[own], &[TargetId(1)], &ifaces, &mut diags);
    assert!(diags.is_empty());
    assert_eq!(merged.len(), 2);
    let includes = merged.get("includes").unwrap();
    assert_eq!(shown(includes), vec!["src", "include"]);
    assert_eq!(merged.get("abi").unwrap().as_str(), Some("gnu11"));
    assert!(merged.get("defines").is_none());
}

#[test]
fn a_dependency_whose_interface_is_not_known_supplies_nothing() {
    let mut own: ByName<Value> = ByName::new();
    own.insert("flags".to_string(), Value::list(Type::Str, vec![Value::str("-O2".to_string(), Prov::none())], Prov::none()));
    let labels = vec!["p:app".to_string(), "p:lib".to_string()];
    let mut diags: Vec<Diagnostic> = Vec::new();
    let merged = merge_block(&labels, &cfg(), &[own], &[TargetId(1)], &[None, None], &mut diags);
    assert_eq!(merged.len(), 1);
    assert_eq!(merged.get("flags").unwrap().as_list().unwrap().len(), 1);
}

#[test]
fn an_explanation_lists_the_items_of_a_merged_value() {
    let list = paths(vec![path("a", 1), path("b", 2)]);
    let items = elements(&list);
    assert_eq!(items.len(), 2);
    assert_eq!(items[1].display(), "b");
    let map = Value {
        ty: Type::MapOf(Box::new(Type::Val)),
        data: Data::MapOf(vec![("N".to_string(), Value::new(Type::Int, Data::Int(3), Prov::none()))]),
        prov: Prov::none(),
    };
    let entries = elements(&map);
    assert_eq!(entries.len(), 1);
    assert_eq!(entries[0].as_str(), Some("N = 3"));
    let single = elements(&path("c", 5));
    assert_eq!(single.len(), 1);
    assert_eq!(single[0].prov.step(0).1, Some(site(5)));
}

#[test]
fn a_target_keeps_its_blocks_apart() {
    let mut t = TargetDecl::bare(TableKind::Lib, "z".to_string(), site(0));
    t.props_mut(Block::Public).insert("includes".to_string(), paths(vec![path("include", 1)]));
    assert_eq!(t.props(Block::Public).len(), 1);
    assert_eq!(t.props(Block::Private).len(), 0);
    assert_eq!(t.props(Block::Root).len(), 0);
}
