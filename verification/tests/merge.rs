//! Merging the values of one property that reach a target.

use dowel::diag::Diagnostic;
use dowel::merge::merge_values;
use dowel::schema::{lookup, Block, Merge, PropDef, C_ABI};
use dowel::value::{Data, FileId, Origin, PathBase, PathValue, Prov, Site, Span, Type, Value};

fn site(start: u32) -> Site {
    Site::new(FileId(0), Span::new(start, start + 3))
}

fn path(rel: &str, at: u32) -> Value {
    path_in(FileId(0), rel, at)
}

/// A path declared in another file, that is another package.
fn path_in(file: FileId, rel: &str, at: u32) -> Value {
    Value {
        ty: Type::Path,
        data: Data::Path(PathValue { base: PathBase::Package, rel: rel.into() }),
        prov: Prov::at(Origin::Call("dir".into()), Site::new(file, Span::new(at, at + 3))),
    }
}

fn int_at(v: i64, at: u32) -> Value {
    Value { ty: Type::Int, data: Data::Int(v), prov: Prov::at(Origin::Literal, site(at)) }
}

/// A map whose keys are given in order.
fn map_of(pairs: &[(&str, i64)], at: u32) -> Value {
    let mut rows: Vec<(String, Value)> = Vec::new();
    for (k, v) in pairs {
        rows.push((k.to_string(), int_at(*v, at)));
    }
    rows.sort_by(|a, b| a.0.cmp(&b.0));
    Value { ty: Type::MapOf(Box::new(Type::Val)), data: Data::MapOf(rows), prov: Prov::none() }
}

fn label(s: &str, at: u32) -> Value {
    Value { ty: Type::AbiLabel, data: Data::Str(s.into()), prov: Prov::at(Origin::Literal, site(at)) }
}

fn shown(v: &Value) -> Vec<String> {
    v.as_list().unwrap().iter().map(|i| i.display()).collect()
}

#[test]
fn union_drops_duplicates_and_keeps_arrival_order() {
    let def = lookup(Block::Public, "includes").unwrap();
    let a = Value::list(Type::Path, vec![path("include", 0), path("src", 10)], Prov::none());
    let b = Value::list(Type::Path, vec![path("src", 20), path("gen", 30)], Prov::none());
    let mut diags: Vec<Diagnostic> = Vec::new();
    let merged = merge_values(&def, &[a, b], &mut diags);
    assert!(diags.is_empty());
    let items = merged.as_list().unwrap();
    assert_eq!(items.len(), 3);
    assert_eq!(items[0].display(), "include");
    assert_eq!(items[1].display(), "src");
    assert_eq!(items[2].display(), "gen");
}

#[test]
fn merging_unwraps_a_list_nested_in_a_list() {
    let def = lookup(Block::Private, "flags").unwrap();
    let inner = Value::list(
        Type::Str,
        vec![Value::str("-O0".to_string(), Prov::none()), Value::str("-g".to_string(), Prov::none())],
        Prov::none(),
    );
    let outer = Value::list(
        Type::Str,
        vec![Value::str("-Wall".to_string(), Prov::none()), inner],
        Prov::none(),
    );
    let mut diags: Vec<Diagnostic> = Vec::new();
    let merged = merge_values(&def, &[outer], &mut diags);
    let items = shown(&merged);
    assert_eq!(items, ["\"-Wall\"", "\"-O0\"", "\"-g\""], "{items:?}");
}

#[test]
fn union_keeps_the_same_relative_path_from_different_packages() {
    let def = lookup(Block::Public, "includes").unwrap();
    let a = Value::list(Type::Path, vec![path_in(FileId(1), "include", 0)], Prov::none());
    let b = Value::list(Type::Path, vec![path_in(FileId(2), "include", 0)], Prov::none());
    // A duplicate within one file still goes.
    let c = Value::list(Type::Path, vec![path_in(FileId(2), "include", 40)], Prov::none());
    let mut diags: Vec<Diagnostic> = Vec::new();
    let merged = merge_values(&def, &[a, b, c], &mut diags);
    assert!(diags.is_empty());
    let items = merged.as_list().unwrap();
    assert_eq!(items.len(), 2, "{:?}", shown(&merged));
}

#[test]
fn append_keeps_duplicates_and_order() {
    let def = lookup(Block::Private, "flags").unwrap();
    let f = |s: &str, at: u32| Value::str(s.to_string(), Prov::at(Origin::Literal, site(at)));
    let a = Value::list(Type::Str, vec![f("-O2", 0), f("-g", 5)], Prov::none());
    let b = Value::list(Type::Str, vec![f("-O2", 10)], Prov::none());
    let mut diags: Vec<Diagnostic> = Vec::new();
    let merged = merge_values(&def, &[a, b], &mut diags);
    assert_eq!(merged.as_list().unwrap().len(), 3);
}

#[test]
fn error_on_conflict_fails_on_differing_values() {
    let def = lookup(Block::Private, "defines").unwrap();
    let mut diags: Vec<Diagnostic> = Vec::new();
    merge_values(&def, &[map_of(&[("A", 1)], 0), map_of(&[("A", 1)], 9)], &mut diags);
    assert!(diags.is_empty(), "identical values must not conflict");
    merge_values(&def, &[map_of(&[("A", 1)], 0), map_of(&[("A", 2)], 9)], &mut diags);
    assert_eq!(diags.len(), 1);
    assert_eq!(diags[0].code, "merge-conflict");
}

#[test]
fn must_equal_fails_on_mismatch() {
    let def = lookup(Block::Public, "abi").unwrap();
    let mut diags: Vec<Diagnostic> = Vec::new();
    merge_values(&def, &[label("gnu11", 0), label("gnu11", 9)], &mut diags);
    assert!(diags.is_empty());
    merge_values(&def, &[label("gnu11", 0), label("cxx11abi0", 9)], &mut diags);
    assert_eq!(diags.len(), 1);
    assert_eq!(diags[0].code, "abi-mismatch");
}

#[test]
fn the_c_abi_label_matches_any_language_label() {
    let def = lookup(Block::Public, "abi").unwrap();
    let mut diags: Vec<Diagnostic> = Vec::new();
    let merged = merge_values(&def, &[label("gnu++17", 0), label(C_ABI, 9)], &mut diags);
    assert!(diags.is_empty(), "{diags:?}");
    // It adds no constraint and removes nothing: the user's own label stays.
    assert_eq!(merged.as_str(), Some("gnu++17"));

    // Whatever the order.
    let merged = merge_values(&def, &[label(C_ABI, 0), label("gnu++17", 9)], &mut diags);
    assert!(diags.is_empty(), "{diags:?}");
    assert_eq!(merged.as_str(), Some("gnu++17"));

    // All `c` gives `c`.
    let merged = merge_values(&def, &[label(C_ABI, 0), label(C_ABI, 9)], &mut diags);
    assert!(diags.is_empty(), "{diags:?}");
    assert_eq!(merged.as_str(), Some(C_ABI));
}

#[test]
fn a_real_mismatch_still_fails_across_a_c_surface() {
    let def = lookup(Block::Public, "abi").unwrap();
    let mut diags: Vec<Diagnostic> = Vec::new();
    merge_values(&def, &[label("gnu11", 0), label(C_ABI, 9), label("gnu++17", 18)], &mut diags);
    assert_eq!(diags.len(), 1);
    assert_eq!(diags[0].code, "abi-mismatch");
}

#[test]
fn must_equal_on_another_property_is_untouched_by_the_c_label() {
    let def = PropDef { name: "thing", ty: Type::Str, merge: Merge::MustEqual, doc: "", domain: None };
    let v = |s: &str, at: u32| Value {
        ty: Type::Str,
        data: Data::Str(s.into()),
        prov: Prov::at(Origin::Literal, site(at)),
    };
    let mut diags: Vec<Diagnostic> = Vec::new();
    merge_values(&def, &[v("c", 0), v("d", 9)], &mut diags);
    assert_eq!(diags.len(), 1);
}

#[test]
fn a_conflict_keeps_the_first_entry_and_merges_the_rest() {
    let def = lookup(Block::Private, "defines").unwrap();
    let mut diags: Vec<Diagnostic> = Vec::new();
    let merged = merge_values(
        &def,
        &[map_of(&[("A", 1), ("B", 2)], 0), map_of(&[("A", 3), ("C", 4)], 9)],
        &mut diags,
    );
    assert_eq!(diags.len(), 1);
    match &merged.data {
        Data::MapOf(rows) => {
            let keys: Vec<&str> = rows.iter().map(|r| r.0.as_str()).collect();
            assert_eq!(keys, ["A", "B", "C"]);
            assert_eq!(rows[0].1.as_int(), Some(1));
        }
        _ => panic!("a map was expected"),
    }
    // The merged value records how it came about.
    assert_eq!(merged.prov.len(), 1);
}

#[test]
fn replace_takes_the_last_value_and_max_the_highest_standard() {
    let c_std = lookup(Block::Public, "c_std").unwrap();
    assert!(matches!(c_std.merge, Merge::Max));
    let s = |x: &str| Value::str(x.to_string(), Prov::none());
    let mut diags: Vec<Diagnostic> = Vec::new();
    let m = merge_values(&c_std, &[s("c11"), s("c99"), s("c17"), s("c89")], &mut diags);
    assert_eq!(m.as_str(), Some("c17"));
    assert!(diags.is_empty());
    let none = merge_values(&c_std, &[], &mut diags);
    assert!(none.is_error());
}
